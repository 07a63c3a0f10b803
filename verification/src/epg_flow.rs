//! The resolution flow around the cache and directory: candidate lookup in
//! the local playlist, the merge-and-alias protocol that follows a guide
//! fetch, and the small pure helpers the route layer needs.
use crate::epg::{all_sorted, clone_schedule, EpgCache};
use crate::iptv_org::FetchedEpg;
use crate::kvmap::KvMap;
use crate::models::{Channel, ChannelView};
use crate::strutil::{chars_of, lower_of, lowercase, str_eq};
use vstd::prelude::*;
use vstd::string::{StringExecFns, StringSliceAdditionalSpecFns};

verus! {

/// The first playlist channel matching a requested identifier: by explicit
/// guide id, by channel id, or by name.
pub open spec fn spec_lookup(chs: Seq<ChannelView>, q: Seq<char>, i: int) -> Option<ChannelView>
    decreases chs.len() - i,
{
    if i < 0 || i >= chs.len() {
        None
    } else if chs[i].tvg_id == Some(q) || chs[i].id == q || chs[i].name == q {
        Some(chs[i])
    } else {
        spec_lookup(chs, q, i + 1)
    }
}

/// Derive the candidate identifiers for a requested channel from the local
/// playlist: the matching channel's explicit guide id and display name, or
/// the requested identifier itself for both when the playlist does not
/// know it.
pub fn playlist_lookup(channels: &Vec<Channel>, channel_id: &str) -> (r: (Option<String>, String))
    ensures
        match spec_lookup(channels.deep_view(), channel_id@, 0) {
            Some(ch) => r.0.deep_view() == ch.tvg_id && r.1@ == ch.name,
            None => r.0.deep_view() == Some(channel_id@) && r.1@ == channel_id@,
        },
{
    let ghost gchs = channels.deep_view();
    let n = channels.len();
    let mut i: usize = 0;
    while i < n
        invariant
            0 <= i <= n,
            n == channels@.len(),
            gchs == channels.deep_view(),
            gchs.len() == n,
            spec_lookup(gchs, channel_id@, 0) == spec_lookup(gchs, channel_id@, i as int),
        decreases n - i,
    {
        proof {
            assert(gchs[i as int] == channels@[i as int]@);
        }
        let ch = &channels[i];
        let tvg_hit = match &ch.tvg_id {
            Some(t) => str_eq(t.as_str(), channel_id),
            None => false,
        };
        if tvg_hit || str_eq(ch.id.as_str(), channel_id) || str_eq(ch.name.as_str(), channel_id) {
            return (crate::epg::clone_opt_string(&ch.tvg_id), ch.name.clone());
        }
        i = i + 1;
    }
    (Some(channel_id.to_owned()), channel_id.to_owned())
}

/// The ordered alias candidates for a requested identifier: the local
/// display name, the directory entry's names, the requested identifier
/// itself, and the portion of the identifier preceding its last
/// dot-delimited segment, when there is one.
pub open spec fn spec_alias_candidates(
    local_name: Seq<char>,
    dir_names: Seq<Seq<char>>,
    channel_id: Seq<char>,
    channel_id_bytes: Seq<u8>,
) -> Seq<Seq<char>> {
    let base = seq![local_name] + dir_names + seq![channel_id];
    match crate::m3u_parser::spec_rfind(channel_id_bytes, 46) {
        Some(i) => match chars_of(channel_id_bytes.take(i)) {
            Some(p) => base + seq![p],
            None => base,
        },
        None => base,
    }
}

/// The first candidate, in order, whose lowercased form is a key of the
/// display-name index, resolved to that key's source channel id. The order
/// is fixed, so resolution is deterministic even for ambiguous names.
pub open spec fn spec_first_hit(
    dns: Map<Seq<char>, Seq<char>>,
    cands: Seq<Seq<char>>,
    i: int,
) -> Option<Seq<char>>
    decreases cands.len() - i,
{
    if i < 0 || i >= cands.len() {
        None
    } else if dns.contains_key(lower_of(cands[i])) {
        Some(dns[lower_of(cands[i])])
    } else {
        spec_first_hit(dns, cands, i + 1)
    }
}

/// The schedule key a freshly parsed guide resolves a requested identifier
/// to: the directory id itself when the guide carries it, else the first
/// display-name candidate hit.
pub open spec fn spec_resolved(
    scheds: Map<Seq<char>, crate::epg::ScheduleView>,
    dns: Map<Seq<char>, Seq<char>>,
    iptv_org_id: Seq<char>,
    cands: Seq<Seq<char>>,
) -> Option<Seq<char>> {
    if scheds.contains_key(iptv_org_id) {
        Some(iptv_org_id)
    } else {
        spec_first_hit(dns, cands, 0)
    }
}

/// Probe the display-name index with the candidates in order.
fn first_hit(dns: &KvMap<String>, cands: &Vec<String>) -> (r: Option<String>)
    requires
        dns.wf(),
    ensures
        match r {
            Some(v) => spec_first_hit(dns@, cands.deep_view(), 0) == Some(v@),
            None => spec_first_hit(dns@, cands.deep_view(), 0) is None,
        },
{
    let ghost gc = cands.deep_view();
    let n = cands.len();
    let mut i: usize = 0;
    while i < n
        invariant
            0 <= i <= n,
            n == cands@.len(),
            gc == cands.deep_view(),
            gc.len() == n,
            dns.wf(),
            spec_first_hit(dns@, gc, 0) == spec_first_hit(dns@, gc, i as int),
        decreases n - i,
    {
        proof {
            assert(gc[i as int] == cands@[i as int]@);
        }
        let key = lowercase(cands[i].as_str());
        match dns.get(key.as_str()) {
            Some(v) => {
                return Some(v.clone());
            },
            None => {},
        }
        i = i + 1;
    }
    None
}

/// Fold one fetched guide into the cache: merge every parsed schedule
/// (each channel replaced wholesale), then, only when the requested
/// identifier is still absent, establish an alias for it — the directory
/// id directly when the guide carries it, else the first display-name
/// candidate, tried in the fixed order. The cache's timestamp is set
/// whether or not an alias was established.
pub fn apply_fetched_guide(
    cache: &mut EpgCache,
    fetched: &FetchedEpg,
    channel_id: &str,
    iptv_org_id: &str,
    local_name: &str,
    dir_names: &Vec<String>,
    now: u64,
)
    requires
        old(cache).wf(),
        fetched.wf(),
    ensures
        final (cache).wf(),
        final (cache).last_updated == Some(now),
        ({
            let merged = old(cache).schedules@.union_prefer_right(fetched.schedules@);
            let cands = spec_alias_candidates(
                local_name@,
                dir_names.deep_view(),
                channel_id@,
                channel_id.spec_bytes(),
            );
            let resolved = spec_resolved(
                fetched.schedules@,
                fetched.display_names@,
                iptv_org_id@,
                cands,
            );
            final (cache).schedules@ == if merged.contains_key(channel_id@) {
                merged
            } else {
                match resolved {
                    Some(rid) => if merged.contains_key(rid) {
                        merged.insert(channel_id@, merged[rid])
                    } else {
                        merged
                    },
                    None => merged,
                }
            }
        }),
        (all_sorted(old(cache).schedules@) && all_sorted(fetched.schedules@)) ==> all_sorted(
            final (cache).schedules@,
        ),
{
    let ghost merged = old(cache).schedules@.union_prefer_right(fetched.schedules@);
    cache.merge_schedules(&fetched.schedules, now);
    if !cache.schedules.contains_key(channel_id) {
        let resolved: Option<String> = if fetched.schedules.contains_key(iptv_org_id) {
            Some(iptv_org_id.to_owned())
        } else {
            let mut cands: Vec<String> = Vec::new();
            cands.push(local_name.to_owned());
            let dn = dir_names.len();
            let mut di: usize = 0;
            while di < dn
                invariant
                    0 <= di <= dn,
                    dn == dir_names@.len(),
                    cands@.len() == 1 + di,
                    cands@[0]@ == local_name@,
                    forall|j: int| 0 <= j < di ==> cands@[j + 1]@ == #[trigger] dir_names@[j]@,
                decreases dn - di,
            {
                cands.push(dir_names[di].clone());
                di = di + 1;
            }
            let ghost g1 = cands@;
            cands.push(channel_id.to_owned());
            let ghost g2 = cands@;
            let cid_bytes = channel_id.as_bytes();
            match crate::m3u_parser::rfind_byte(cid_bytes, 46) {
                Some(p) => {
                    let prefix = crate::strutil::sub_bytes(cid_bytes, 0, p);
                    proof {
                        assert(prefix@ =~= channel_id.spec_bytes().take(p as int));
                    }
                    match crate::strutil::utf8_to_string(prefix) {
                        Some(s) => {
                            cands.push(s);
                        },
                        None => {},
                    }
                },
                None => {},
            }
            proof {
                let target = spec_alias_candidates(
                    local_name@,
                    dir_names.deep_view(),
                    channel_id@,
                    channel_id.spec_bytes(),
                );
                assert(cands.deep_view() =~= target) by {
                    assert forall|j: int|
                        0 <= j < cands.deep_view().len() implies cands.deep_view()[j]
                        == target[j] by {
                        assert(cands.deep_view()[j] == cands@[j]@);
                        if j < g2.len() {
                            assert(cands@[j] == g2[j]);
                        }
                        if 1 <= j < 1 + dir_names@.len() {
                            assert(g2[j] == g1[j]);
                            assert(dir_names.deep_view()[j - 1] == dir_names@[j - 1]@);
                            assert(g1[j]@ == dir_names@[j - 1]@);
                        }
                    }
                }
            }
            first_hit(&fetched.display_names, &cands)
        };
        match resolved {
            Some(rid) => {
                let sched_opt = match cache.schedules.get(rid.as_str()) {
                    Some(s) => Some(clone_schedule(s)),
                    None => None,
                };
                match sched_opt {
                    Some(sch) => {
                        cache.schedules.insert(channel_id.to_owned(), sch);
                    },
                    None => {},
                }
            },
            None => {},
        }
    }
    cache.touch(now);
}

/// Alias resolution is deterministic and ordered: the direct-id strategy
/// is attempted before any name candidate, and among name candidates the
/// first hit in the fixed order wins, whatever later candidates would
/// resolve to.
pub proof fn lemma_alias_order(
    scheds: Map<Seq<char>, crate::epg::ScheduleView>,
    dns: Map<Seq<char>, Seq<char>>,
    iptv_org_id: Seq<char>,
    cands: Seq<Seq<char>>,
    i: int,
)
    requires
        0 <= i < cands.len(),
        dns.contains_key(lower_of(cands[i])),
        forall|j: int| 0 <= j < i ==> !dns.contains_key(lower_of(#[trigger] cands[j])),
    ensures
        scheds.contains_key(iptv_org_id) ==> spec_resolved(scheds, dns, iptv_org_id, cands)
            == Some(iptv_org_id),
        !scheds.contains_key(iptv_org_id) ==> spec_resolved(scheds, dns, iptv_org_id, cands)
            == Some(dns[lower_of(cands[i])]),
{
    lemma_first_hit_at(dns, cands, 0, i);
}

proof fn lemma_first_hit_at(dns: Map<Seq<char>, Seq<char>>, cands: Seq<Seq<char>>, k: int, i: int)
    requires
        0 <= k <= i < cands.len(),
        dns.contains_key(lower_of(cands[i])),
        forall|j: int| k <= j < i ==> !dns.contains_key(lower_of(#[trigger] cands[j])),
    ensures
        spec_first_hit(dns, cands, k) == Some(dns[lower_of(cands[i])]),
    decreases i - k,
{
    if k < i {
        lemma_first_hit_at(dns, cands, k + 1, i);
    }
}

/// Whether an HTTP status code counts a probed channel as live: any
/// success or redirection status.
pub fn status_is_live(code: u16) -> (r: bool)
    ensures
        r == (200 <= code < 400),
{
    200 <= code && code < 400
}

/// Parse a timezone query parameter such as `+0100` into seconds east of
/// UTC: a well-formed offset of less than a day, or nothing.
pub fn parse_tz_param(tz: &str) -> (r: Option<i32>)
    ensures
        match crate::epg_parser::spec_parse_tz(tz.spec_bytes()) {
            Some(v) => if -86400 < v < 86400 {
                r == Some(v as i32)
            } else {
                r is None
            },
            None => r is None,
        },
{
    match crate::epg_parser::parse_tz_bytes(tz.as_bytes()) {
        Some(v) => {
            if -86400 < v && v < 86400 {
                Some(v)
            } else {
                None
            }
        },
        None => None,
    }
}

} // verus!
