//! The channel directory: a lazily refreshed index of known channels keyed
//! by exact id and by lowercased name, the guide-URL derivation rule, and
//! the decoding of fetched guide bodies (size guard, gzip detection,
//! text fallback).
use crate::epg::EpgSchedule;
use crate::epg_parser::{country_utc_offset, spec_country_offset, EpgParseError};
use crate::kvmap::KvMap;
use crate::strutil::{chars_of, lower_of, lowercase, utf8_to_string};
use crate::timeutil::now_seconds;
use std::io::Read;
use vstd::prelude::*;
use vstd::string::{StringExecFns, StringSliceAdditionalSpecFns};

verus! {

/// How long the directory index stays fresh, in seconds (6 hours).
pub const INDEX_TTL_SECS: u64 = 21600;

/// Maximum size for a fetched guide body (50 MB); larger bodies are
/// discarded and read as empty.
pub const MAX_GUIDE_SIZE: usize = 52428800;

/// Errors of the directory and guide-fetch flow.
#[derive(Debug)]
pub enum IptvOrgError {
    /// The network transport failed; carried as text by the caller.
    Transport,
    /// The guide body exceeded the size the parser accepts.
    EpgParse(EpgParseError),
    /// No guide source could be derived for a channel.
    NoGuide,
}

/// Mathematical view of a directory channel record.
pub struct ChannelRecView {
    pub id: Seq<char>,
    pub name: Seq<char>,
    pub alt_names: Seq<Seq<char>>,
    pub country: Seq<char>,
    pub categories: Seq<Seq<char>>,
}

/// A channel record from the remote directory.
#[derive(Debug)]
pub struct IptvOrgChannel {
    /// Unique channel id, usually name plus country suffix.
    pub id: String,
    /// Display name of the channel.
    pub name: String,
    /// Alternative names for the channel.
    pub alt_names: Vec<String>,
    /// Country code.
    pub country: String,
    /// Categories.
    pub categories: Vec<String>,
}

impl View for IptvOrgChannel {
    type V = ChannelRecView;

    open spec fn view(&self) -> ChannelRecView {
        ChannelRecView {
            id: self.id@,
            name: self.name@,
            alt_names: self.alt_names.deep_view(),
            country: self.country@,
            categories: self.categories.deep_view(),
        }
    }
}

impl DeepView for IptvOrgChannel {
    type V = ChannelRecView;

    open spec fn deep_view(&self) -> ChannelRecView {
        self.view()
    }
}

/// Copy a vector of strings.
pub fn clone_strings(v: &Vec<String>) -> (r: Vec<String>)
    ensures
        r.deep_view() == v.deep_view(),
{
    let n = v.len();
    let mut out: Vec<String> = Vec::new();
    let mut i: usize = 0;
    while i < n
        invariant
            0 <= i <= n,
            n == v@.len(),
            out@.len() == i,
            forall|j: int| 0 <= j < i ==> #[trigger] out@[j]@ == v@[j]@,
        decreases n - i,
    {
        out.push(v[i].clone());
        i = i + 1;
    }
    proof {
        assert(out.deep_view() =~= v.deep_view()) by {
            assert forall|j: int| 0 <= j < n implies out.deep_view()[j] == v.deep_view()[j] by {
                assert(out.deep_view()[j] == out@[j]@ && v.deep_view()[j] == v@[j]@);
            }
        }
    }
    out
}

/// Copy a directory channel record.
pub fn clone_channel_rec(c: &IptvOrgChannel) -> (r: IptvOrgChannel)
    ensures
        r@ == c@,
{
    IptvOrgChannel {
        id: c.id.clone(),
        name: c.name.clone(),
        alt_names: clone_strings(&c.alt_names),
        country: c.country.clone(),
        categories: clone_strings(&c.categories),
    }
}

/// Mathematical view of a guide record.
pub struct GuideRecView {
    pub channel: Option<Seq<char>>,
    pub site: Seq<char>,
    pub lang: Seq<char>,
}

/// A guide record from the remote directory.
#[derive(Debug)]
pub struct IptvOrgGuide {
    /// Channel id this guide covers, when given.
    pub channel: Option<String>,
    /// Site providing the guide.
    pub site: String,
    /// Language of the guide.
    pub lang: String,
}

impl View for IptvOrgGuide {
    type V = GuideRecView;

    open spec fn view(&self) -> GuideRecView {
        GuideRecView {
            channel: self.channel.deep_view(),
            site: self.site@,
            lang: self.lang@,
        }
    }
}

impl DeepView for IptvOrgGuide {
    type V = GuideRecView;

    open spec fn deep_view(&self) -> GuideRecView {
        self.view()
    }
}

/// The name map after one channel record: the primary name and every
/// alternate name, lowercased, each mapped to the record.
pub open spec fn spec_names_after(
    m: Map<Seq<char>, ChannelRecView>,
    ch: ChannelRecView,
    i: int,
) -> Map<Seq<char>, ChannelRecView>
    decreases ch.alt_names.len() - i,
{
    if i < 0 || i >= ch.alt_names.len() {
        m
    } else {
        spec_names_after(m.insert(lower_of(ch.alt_names[i]), ch), ch, i + 1)
    }
}

/// The two channel maps after folding a list of channel records: names
/// (primary, then alternates, all lowercased) and exact ids; later records
/// overwrite earlier ones sharing a key.
pub open spec fn spec_fold_channels(
    by_name: Map<Seq<char>, ChannelRecView>,
    by_id: Map<Seq<char>, ChannelRecView>,
    chans: Seq<ChannelRecView>,
    i: int,
) -> (Map<Seq<char>, ChannelRecView>, Map<Seq<char>, ChannelRecView>)
    decreases chans.len() - i,
{
    if i < 0 || i >= chans.len() {
        (by_name, by_id)
    } else {
        let ch = chans[i];
        let names = spec_names_after(by_name.insert(lower_of(ch.name), ch), ch, 0);
        spec_fold_channels(names, by_id.insert(ch.id, ch), chans, i + 1)
    }
}

/// The guide map after folding a list of guide records: the first record
/// for each channel id wins; records without a channel are dropped.
pub open spec fn spec_fold_guides(
    m: Map<Seq<char>, GuideRecView>,
    guides: Seq<GuideRecView>,
    i: int,
) -> Map<Seq<char>, GuideRecView>
    decreases guides.len() - i,
{
    if i < 0 || i >= guides.len() {
        m
    } else {
        let g = guides[i];
        let m2 = match g.channel {
            Some(cid) => if m.contains_key(cid) {
                m
            } else {
                m.insert(cid, g)
            },
            None => m,
        };
        spec_fold_guides(m2, guides, i + 1)
    }
}

/// Cached index of directory channels and guides, refreshed lazily: both
/// name and id maps are rebuilt together on every update.
#[derive(Debug)]
pub struct IptvOrgIndex {
    /// Channels keyed by lowercased name or alternate name.
    by_name: KvMap<IptvOrgChannel>,
    /// Channels keyed by exact id.
    by_id: KvMap<IptvOrgChannel>,
    /// Guide records keyed by channel id, first record winning.
    guides_by_channel: KvMap<IptvOrgGuide>,
    /// When the index was last populated, in seconds since the epoch.
    last_updated: Option<u64>,
}

impl IptvOrgIndex {
    /// Well-formedness of the maps.
    pub closed spec fn wf(&self) -> bool {
        self.by_name.wf() && self.by_id.wf() && self.guides_by_channel.wf()
    }

    /// The name map this index denotes.
    pub closed spec fn spec_by_name(&self) -> Map<Seq<char>, ChannelRecView> {
        self.by_name@
    }

    /// The id map this index denotes.
    pub closed spec fn spec_by_id(&self) -> Map<Seq<char>, ChannelRecView> {
        self.by_id@
    }

    /// The guide map this index denotes.
    pub closed spec fn spec_guides(&self) -> Map<Seq<char>, GuideRecView> {
        self.guides_by_channel@
    }

    /// When the index was last populated.
    pub closed spec fn spec_last_updated(&self) -> Option<u64> {
        self.last_updated
    }

    /// Create an empty index, permanently stale until populated.
    pub fn new() -> (r: Self)
        ensures
            r.wf(),
            r.spec_by_name() == Map::<Seq<char>, ChannelRecView>::empty(),
            r.spec_by_id() == Map::<Seq<char>, ChannelRecView>::empty(),
            r.spec_guides() == Map::<Seq<char>, GuideRecView>::empty(),
            r.spec_last_updated() is None,
    {
        IptvOrgIndex {
            by_name: KvMap::new(),
            by_id: KvMap::new(),
            guides_by_channel: KvMap::new(),
            last_updated: None,
        }
    }

    /// Whether the index is stale at a given instant: never populated, or
    /// populated longer ago than the freshness window.
    pub closed spec fn spec_stale_at(&self, now: u64) -> bool {
        match self.last_updated {
            None => true,
            Some(t) => now > t && now - t > INDEX_TTL_SECS,
        }
    }

    /// Whether the index needs refreshing at instant `now`.
    pub fn is_stale_at(&self, now: u64) -> (r: bool)
        ensures
            r == self.spec_stale_at(now),
    {
        match self.last_updated {
            None => true,
            Some(t) => now > t && now - t > INDEX_TTL_SECS,
        }
    }

    /// Whether the index needs refreshing, read against the system clock.
    /// An index that was never populated is always stale, whatever the
    /// clock returns.
    pub fn is_stale(&self) -> (r: bool)
        ensures
            self.spec_last_updated() is None ==> r,
    {
        let now = now_seconds();
        self.is_stale_at(now)
    }

    /// Populate the index from fetched data, atomically replacing all
    /// three maps and resetting the freshness timer. To be invoked only
    /// after a successful fetch: a failed fetch leaves the index alone.
    pub fn update(&mut self, channels: Vec<IptvOrgChannel>, guides: Vec<IptvOrgGuide>)
        requires
            old(self).wf(),
        ensures
            final (self).wf(),
            ({
                let folded = spec_fold_channels(
                    Map::empty(),
                    Map::empty(),
                    channels.deep_view(),
                    0,
                );
                &&& final (self).spec_by_name() == folded.0
                &&& final (self).spec_by_id() == folded.1
                &&& final (self).spec_guides() == spec_fold_guides(
                    Map::empty(),
                    guides.deep_view(),
                    0,
                )
                &&& final (self).spec_last_updated() is Some
            }),
    {
        let ghost gchans = channels.deep_view();
        let ghost gguides = guides.deep_view();
        let mut by_name: KvMap<IptvOrgChannel> = KvMap::new();
        let mut by_id: KvMap<IptvOrgChannel> = KvMap::new();
        let mut guides_map: KvMap<IptvOrgGuide> = KvMap::new();
        let cn = channels.len();
        let mut i: usize = 0;
        while i < cn
            invariant
                0 <= i <= cn,
                cn == channels@.len(),
                gchans == channels.deep_view(),
                gchans.len() == cn,
                by_name.wf(),
                by_id.wf(),
                spec_fold_channels(Map::empty(), Map::empty(), gchans, 0) == spec_fold_channels(
                    by_name@,
                    by_id@,
                    gchans,
                    i as int,
                ),
            decreases cn - i,
        {
            let ch = &channels[i];
            proof {
                assert(gchans[i as int] == channels@[i as int]@);
            }
            let lname = lowercase(ch.name.as_str());
            by_name.insert(lname, clone_channel_rec(ch));
            let an = ch.alt_names.len();
            let mut j: usize = 0;
            while j < an
                invariant
                    0 <= j <= an,
                    an == ch.alt_names@.len(),
                    ch == &channels[i as int],
                    i < cn == channels@.len(),
                    gchans == channels.deep_view(),
                    gchans.len() == cn,
                    gchans[i as int] == channels@[i as int]@,
                    by_name.wf(),
                    spec_fold_channels(Map::empty(), Map::empty(), gchans, 0) == spec_fold_channels(
                        spec_names_after(by_name@, gchans[i as int], j as int),
                        by_id@.insert(gchans[i as int].id, gchans[i as int]),
                        gchans,
                        i + 1,
                    ),
                decreases an - j,
            {
                proof {
                    assert(gchans[i as int].alt_names[j as int] == ch.alt_names@[j as int]@);
                }
                let alt = lowercase(ch.alt_names[j].as_str());
                by_name.insert(alt, clone_channel_rec(ch));
                j = j + 1;
            }
            by_id.insert(ch.id.clone(), clone_channel_rec(ch));
            i = i + 1;
        }
        let gn = guides.len();
        let mut k: usize = 0;
        while k < gn
            invariant
                0 <= k <= gn,
                gn == guides@.len(),
                gguides == guides.deep_view(),
                gguides.len() == gn,
                guides_map.wf(),
                spec_fold_guides(Map::empty(), gguides, 0) == spec_fold_guides(
                    guides_map@,
                    gguides,
                    k as int,
                ),
            decreases gn - k,
        {
            proof {
                assert(gguides[k as int] == guides@[k as int]@);
            }
            let g = &guides[k];
            match &g.channel {
                Some(cid) => {
                    let gc = IptvOrgGuide {
                        channel: crate::epg::clone_opt_string(&g.channel),
                        site: g.site.clone(),
                        lang: g.lang.clone(),
                    };
                    guides_map.insert_if_absent(cid.clone(), gc);
                },
                None => {},
            }
            k = k + 1;
        }
        self.by_name = by_name;
        self.by_id = by_id;
        self.guides_by_channel = guides_map;
        self.last_updated = Some(now_seconds());
    }

    /// The id a lookup resolves to: an exact id match always wins over a
    /// case-insensitive name match.
    pub open spec fn spec_find(&self, tvg_id: Option<Seq<char>>, name: Seq<char>) -> Option<
        Seq<char>,
    > {
        if tvg_id is Some && self.spec_by_id().contains_key(tvg_id->0) {
            Some(tvg_id->0)
        } else if self.spec_by_name().contains_key(lower_of(name)) {
            Some(self.spec_by_name()[lower_of(name)].id)
        } else {
            None
        }
    }

    /// Find the directory channel id for a playlist channel: first an exact
    /// match on the explicit id, then a case-insensitive match on the name.
    pub fn find_iptv_org_id(&self, tvg_id: Option<&str>, name: &str) -> (r: Option<String>)
        requires
            self.wf(),
        ensures
            match r {
                Some(v) => self.spec_find(
                    match tvg_id {
                        Some(t) => Some(t@),
                        None => None,
                    },
                    name@,
                ) == Some(v@),
                None => self.spec_find(
                    match tvg_id {
                        Some(t) => Some(t@),
                        None => None,
                    },
                    name@,
                ) is None,
            },
    {
        match tvg_id {
            Some(t) => {
                if self.by_id.contains_key(t) {
                    return Some(t.to_owned());
                }
            },
            None => {},
        }
        let key = lowercase(name);
        match self.by_name.get(key.as_str()) {
            Some(ch) => Some(ch.id.clone()),
            None => None,
        }
    }

    /// The names a directory channel is known by: the primary name, then
    /// the alternates; empty when the id is unknown.
    pub open spec fn spec_names_for(&self, id: Seq<char>) -> Seq<Seq<char>> {
        if self.spec_by_id().contains_key(id) {
            seq![self.spec_by_id()[id].name] + self.spec_by_id()[id].alt_names
        } else {
            Seq::empty()
        }
    }

    /// All known names for a directory channel: the primary name followed
    /// by the alternate names, or nothing when the id is unknown.
    pub fn get_channel_names(&self, iptv_org_id: &str) -> (r: Vec<String>)
        requires
            self.wf(),
        ensures
            r.deep_view() == self.spec_names_for(iptv_org_id@),
    {
        match self.by_id.get(iptv_org_id) {
            Some(ch) => {
                let mut names: Vec<String> = Vec::new();
                names.push(ch.name.clone());
                let alts = clone_strings(&ch.alt_names);
                let an = alts.len();
                let mut j: usize = 0;
                let mut out = names;
                let ghost target = self.spec_names_for(iptv_org_id@);
                proof {
                    assert(out.deep_view() =~= target.take(1));
                }
                while j < an
                    invariant
                        0 <= j <= an,
                        an == alts@.len(),
                        alts.deep_view() == ch.alt_names.deep_view(),
                        ch@ == self.spec_by_id()[iptv_org_id@],
                        self.spec_by_id().contains_key(iptv_org_id@),
                        target == self.spec_names_for(iptv_org_id@),
                        target.len() == 1 + an,
                        out.deep_view() =~= target.take(j + 1),
                    decreases an - j,
                {
                    let ghost pre = out.deep_view();
                    let ghost prevec = out@;
                    let elem = alts[j].clone();
                    out.push(elem);
                    proof {
                        assert(alts.deep_view()[j as int] == alts@[j as int]@);
                        assert(ch@.alt_names == ch.alt_names.deep_view());
                        assert(ch@.alt_names[j as int] == alts.deep_view()[j as int]);
                        assert(target[j + 1] == ch@.alt_names[j as int]);
                        assert(pre.len() == j + 1);
                        assert(out@.len() == j + 2);
                        assert(out@[j + 1 as int]@ == alts@[j as int]@);
                        assert(out.deep_view() =~= target.take(j + 2)) by {
                            assert(out.deep_view().len() == j + 2);
                            assert forall|k: int|
                                0 <= k < j + 2 implies out.deep_view()[k] == target.take(
                                j + 2,
                            )[k] by {
                                assert(out.deep_view()[k] == out@[k]@);
                                if k <= j {
                                    assert(out@[k] == prevec[k]);
                                    assert(pre[k] == prevec[k]@);
                                    assert(pre[k] == target.take(j + 1)[k]);
                                    assert(pre[k] == target[k]);
                                } else {
                                    assert(out@[k]@ == alts@[j as int]@);
                                }
                            }
                        }
                    }
                    j = j + 1;
                }
                proof {
                    assert(target.take(an + 1 as int) =~= target);
                }
                out
            },
            None => Vec::new(),
        }
    }
}


/// An exact-id match always wins over a name match: whenever the explicit
/// id is a key of the id map, a lookup resolves to it, whatever the name
/// would have resolved to.
pub proof fn lemma_exact_id_wins(idx: &IptvOrgIndex, tvg: Seq<char>, name: Seq<char>)
    requires
        idx.spec_by_id().contains_key(tvg),
    ensures
        idx.spec_find(Some(tvg), name) == Some(tvg),
{
}

/// The portion of a channel id after its last dot: its country code
/// segment, or the whole id when it has no dot.
pub open spec fn spec_guide_suffix(b: Seq<u8>) -> Seq<u8> {
    match crate::m3u_parser::spec_rfind(b, 46) {
        Some(i) => b.subrange(i + 1, b.len() as int),
        None => b,
    }
}

/// The guide URL a channel id derives: a fixed pattern around the
/// lowercased country suffix. Derivation never fails.
pub open spec fn spec_guide_url(id: Seq<u8>) -> Seq<char> {
    let suf = spec_guide_suffix(id);
    let country = match chars_of(suf) {
        Some(c) => lower_of(c),
        None => lower_of(("us")@),
    };
    ("https://iptv-epg.org/files/epg-")@ + country + (".xml")@
}

impl IptvOrgIndex {
    /// The guide URL for a directory channel id: the country-level guide
    /// resource named by the id's trailing dot-segment, defaulting to `us`.
    pub fn get_guide_url(&self, iptv_org_id: &str) -> (r: Option<String>)
        ensures
            r is Some,
            (r->0)@ == spec_guide_url(iptv_org_id.spec_bytes()),
    {
        let bytes = iptv_org_id.as_bytes();
        let blen = bytes.len();
        let suffix: Vec<u8> = match crate::m3u_parser::rfind_byte(bytes, 46) {
            Some(i) => crate::strutil::sub_bytes(bytes, i + 1, blen),
            None => vstd::slice::slice_to_vec(bytes),
        };
        let country = match crate::strutil::utf8_to_string(suffix) {
            Some(s) => lowercase(s.as_str()),
            None => lowercase("us"),
        };
        let mut url = String::new();
        url.append("https://iptv-epg.org/files/epg-");
        url.append(country.as_str());
        url.append(".xml");
        proof {
            assert(Seq::<char>::empty() + ("https://iptv-epg.org/files/epg-")@ =~= (
            "https://iptv-epg.org/files/epg-")@);
        }
        Some(url)
    }
}

/// What `flate2`'s gzip decoder yields for a byte sequence: the
/// decompressed bytes, or nothing when the stream is not a well-formed
/// gzip stream. The result depends on the bytes alone.
pub uninterp spec fn inflate_of(b: Seq<u8>) -> Option<Seq<u8>>;

/// Relies on `flate2::read::GzDecoder` reading to the end: decompression
/// is a function of the input bytes alone; a malformed stream is an error.
#[verifier::external_body]
fn inflate(data: &[u8]) -> (r: Option<Vec<u8>>)
    ensures
        match r {
            Some(v) => inflate_of(data@) == Some(v@),
            None => inflate_of(data@) is None,
        },
{
    let mut decoder = flate2::read::GzDecoder::new(data);
    let mut decompressed = Vec::new();
    match decoder.read_to_end(&mut decompressed) {
        Ok(_) => Some(decompressed),
        Err(_) => None,
    }
}

/// Whether a body begins with the gzip magic bytes.
pub open spec fn spec_gzip_magic(b: Seq<u8>) -> bool {
    b.len() >= 2 && b[0] == 0x1f && b[1] == 0x8b
}

/// What decompressing a body yields: nothing unless it carries the gzip
/// magic, else whatever the gzip stream holds.
pub open spec fn spec_decompress(b: Seq<u8>) -> Option<Seq<u8>> {
    if spec_gzip_magic(b) {
        inflate_of(b)
    } else {
        None
    }
}

/// Attempt to decompress gzip data. Returns `None` when the data is not
/// gzipped (by magic-byte inspection) or the stream is malformed.
pub fn decompress_gzip(data: &[u8]) -> (r: Option<Vec<u8>>)
    ensures
        match r {
            Some(v) => spec_decompress(data@) == Some(v@),
            None => spec_decompress(data@) is None,
        },
{
    if data.len() < 2 || data[0] != 0x1f || data[1] != 0x8b {
        return None;
    }
    inflate(data)
}

/// The characters of a byte body, or empty when it is not valid UTF-8.
pub open spec fn utf8_or_empty(b: Seq<u8>) -> Seq<char> {
    match chars_of(b) {
        Some(c) => c,
        None => Seq::empty(),
    }
}

/// The text a fetched guide body decodes to: empty when the body is over
/// the size cap; otherwise the decompressed bytes when gzip framing is
/// present, else the body itself; a UTF-8 decode failure reads as empty
/// rather than an error.
pub open spec fn spec_guide_text(b: Seq<u8>) -> Seq<char> {
    if b.len() > MAX_GUIDE_SIZE {
        Seq::empty()
    } else {
        match spec_decompress(b) {
            Some(d) => utf8_or_empty(d),
            None => utf8_or_empty(b),
        }
    }
}

/// Decode a fetched guide body to text.
pub fn guide_body_text(bytes: &[u8]) -> (r: String)
    ensures
        r@ == spec_guide_text(bytes@),
{
    if bytes.len() > MAX_GUIDE_SIZE {
        return String::new();
    }
    match decompress_gzip(bytes) {
        Some(d) => match utf8_to_string(d) {
            Some(s) => s,
            None => String::new(),
        },
        None => {
            let own = vstd::slice::slice_to_vec(bytes);
            match utf8_to_string(own) {
                Some(s) => s,
                None => String::new(),
            }
        },
    }
}

/// Result of decoding and parsing one fetched guide: schedules plus a
/// display-name map for alias matching.
#[derive(Debug)]
pub struct FetchedEpg {
    /// Programme schedules keyed by XMLTV channel ID.
    pub schedules: KvMap<EpgSchedule>,
    /// Lowercased display name to XMLTV channel ID.
    pub display_names: KvMap<String>,
}

impl FetchedEpg {
    /// Well-formedness of the two maps.
    pub open spec fn wf(&self) -> bool {
        self.schedules.wf() && self.display_names.wf()
    }
}

/// Decode a fetched country guide body and parse every channel in it, with
/// the country code's standard offset as the default timezone. An
/// over-the-cap or undecodable body yields empty results, not an error;
/// only a body that decompresses beyond what the parser accepts is an
/// error.
pub fn parse_guide_body(bytes: &[u8], country_code: &str) -> (r: Result<FetchedEpg, EpgParseError>)
    ensures
        ({
            let text = spec_guide_text(bytes@);
            let xml = vstd::utf8::encode_utf8(text);
            if text.len() == 0 {
                &&& r is Ok
                &&& (r->Ok_0).wf()
                &&& (r->Ok_0).schedules@ == Map::<Seq<char>, crate::epg::ScheduleView>::empty()
                &&& (r->Ok_0).display_names@ == Map::<Seq<char>, Seq<char>>::empty()
            } else if xml.len() > crate::epg_parser::MAX_XML_SIZE {
                r is Err && (r->Err_0) is TooLarge
            } else {
                let out = crate::epg_parser::spec_run(
                    xml,
                    0,
                    crate::epg_parser::init_state(),
                    Seq::empty(),
                    true,
                    spec_country_offset(country_code@),
                );
                &&& r is Ok
                &&& (r->Ok_0).wf()
                &&& (r->Ok_0).schedules@ == crate::epg_parser::sorted_schedules(out.schedules)
                &&& (r->Ok_0).display_names@ == out.display_names
                &&& crate::epg::all_sorted((r->Ok_0).schedules@)
            }
        }),
{
    let text = guide_body_text(bytes);
    if text.as_str().is_empty() {
        return Ok(FetchedEpg { schedules: KvMap::new(), display_names: KvMap::new() });
    }
    let offset = country_utc_offset(country_code);
    let known: Vec<&str> = Vec::new();
    let ks = known.as_slice();
    proof {
        assert(ks.deep_view() =~= Seq::<Seq<char>>::empty());
    }
    match crate::epg_parser::parse_xmltv(text.as_str(), ks, offset) {
        Ok(parsed) => Ok(
            FetchedEpg { schedules: parsed.schedules, display_names: parsed.display_names },
        ),
        Err(e) => Err(e),
    }
}

} // verus!
