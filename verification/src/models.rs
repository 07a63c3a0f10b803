//! Plain data model of playlist channels, and the append-or-replace rule
//! for playlist uploads.
use crate::strutil::str_eq;
use vstd::prelude::*;

verus! {

/// Mathematical view of a channel.
pub struct ChannelView {
    pub id: Seq<char>,
    pub name: Seq<char>,
    pub group: Seq<char>,
    pub logo_url: Option<Seq<char>>,
    pub stream_url: Seq<char>,
    pub is_live: bool,
    pub tvg_id: Option<Seq<char>>,
}

/// A single IPTV channel from an M3U playlist.
#[derive(Debug)]
pub struct Channel {
    /// Unique identifier derived from the stream URL hash.
    pub id: String,
    /// Display name of the channel.
    pub name: String,
    /// Group or category the channel belongs to.
    pub group: String,
    /// Optional URL to the channel logo image.
    pub logo_url: Option<String>,
    /// The stream URL.
    pub stream_url: String,
    /// Whether the channel is currently reachable.
    pub is_live: bool,
    /// Optional guide identifier used to match against XMLTV data.
    pub tvg_id: Option<String>,
}

impl View for Channel {
    type V = ChannelView;

    open spec fn view(&self) -> ChannelView {
        ChannelView {
            id: self.id@,
            name: self.name@,
            group: self.group@,
            logo_url: self.logo_url.deep_view(),
            stream_url: self.stream_url@,
            is_live: self.is_live,
            tvg_id: self.tvg_id.deep_view(),
        }
    }
}

impl DeepView for Channel {
    type V = ChannelView;

    open spec fn deep_view(&self) -> ChannelView {
        self.view()
    }
}

/// Copy a channel, field by field.
pub fn clone_channel(c: &Channel) -> (r: Channel)
    ensures
        r@ == c@,
{
    Channel {
        id: c.id.clone(),
        name: c.name.clone(),
        group: c.group.clone(),
        logo_url: crate::epg::clone_opt_string(&c.logo_url),
        stream_url: c.stream_url.clone(),
        is_live: c.is_live,
        tvg_id: crate::epg::clone_opt_string(&c.tvg_id),
    }
}

/// Mathematical view of a playlist.
pub struct PlaylistView {
    pub name: Seq<char>,
    pub channels: Seq<ChannelView>,
    pub last_checked: Option<Seq<char>>,
    pub source: Seq<char>,
}

/// A collection of IPTV channels from a single M3U source.
#[derive(Debug)]
pub struct Playlist {
    /// Human-readable name for this playlist.
    pub name: String,
    /// All channels parsed from the M3U source.
    pub channels: Vec<Channel>,
    /// ISO-8601 timestamp of the last channel liveness check.
    pub last_checked: Option<String>,
    /// The original M3U source URL.
    pub source: String,
}

impl View for Playlist {
    type V = PlaylistView;

    open spec fn view(&self) -> PlaylistView {
        PlaylistView {
            name: self.name@,
            channels: self.channels.deep_view(),
            last_checked: self.last_checked.deep_view(),
            source: self.source@,
        }
    }
}

} // verus!

verus! {

/// Whether a channel list holds a channel with the given stream URL,
/// among its first `upto` entries.
pub open spec fn spec_url_known(chs: Seq<ChannelView>, upto: int, url: Seq<char>) -> bool {
    exists|j: int| 0 <= j < upto <= chs.len() && #[trigger] chs[j].stream_url == url
}

/// The channels of an uploaded batch that survive an append: those whose
/// stream URL no existing channel already has.
pub open spec fn spec_append_kept(
    existing: Seq<ChannelView>,
    batch: Seq<ChannelView>,
    i: int,
) -> Seq<ChannelView>
    decreases batch.len() - i,
{
    if i < 0 || i >= batch.len() {
        Seq::empty()
    } else if spec_url_known(existing, existing.len() as int, batch[i].stream_url) {
        spec_append_kept(existing, batch, i + 1)
    } else {
        seq![batch[i]] + spec_append_kept(existing, batch, i + 1)
    }
}

fn url_known(chs: &Vec<Channel>, upto: usize, url: &str) -> (r: bool)
    requires
        upto <= chs@.len(),
    ensures
        r == spec_url_known(chs.deep_view().take(upto as int), upto as int, url@),
{
    let ghost pre = chs.deep_view().take(upto as int);
    let mut j: usize = 0;
    while j < upto
        invariant
            0 <= j <= upto <= chs@.len(),
            pre == chs.deep_view().take(upto as int),
            pre.len() == upto,
            forall|k: int| 0 <= k < j ==> #[trigger] pre[k].stream_url != url@,
        decreases upto - j,
    {
        proof {
            assert(pre[j as int] == chs@[j as int]@);
        }
        if str_eq(chs[j].stream_url.as_str(), url) {
            proof {
                assert(pre[j as int].stream_url == url@);
            }
            return true;
        }
        j = j + 1;
    }
    proof {
        if spec_url_known(pre, upto as int, url@) {
            let k = choose|k: int| 0 <= k < upto && #[trigger] pre[k].stream_url == url@;
            assert(false);
        }
    }
    false
}

/// Append an uploaded batch to a playlist's channels, skipping any whose
/// stream URL the playlist already carries; returns how many were kept.
/// Duplicates are judged against the playlist as it stood before the
/// append, so a batch may still introduce repeats of its own.
pub fn append_unique_channels(existing: &mut Vec<Channel>, batch: Vec<Channel>) -> (appended:
    usize)
    ensures
        final (existing).deep_view() == old(existing).deep_view() + spec_append_kept(
            old(existing).deep_view(),
            batch.deep_view(),
            0,
        ),
        appended == spec_append_kept(old(existing).deep_view(), batch.deep_view(), 0).len(),
{
    let orig_len = existing.len();
    let ghost orig = existing.deep_view();
    let ghost gb = batch.deep_view();
    proof {
        assert(orig.take(orig_len as int) =~= orig);
    }
    let n = batch.len();
    let mut i: usize = 0;
    let mut appended: usize = 0;
    while i < n
        invariant
            0 <= i <= n,
            n == batch@.len(),
            gb == batch.deep_view(),
            gb.len() == n,
            orig_len <= existing@.len(),
            orig.len() == orig_len,
            existing.deep_view().take(orig_len as int) =~= orig,
            appended <= i,
            existing.deep_view().len() == orig_len + appended,
            spec_append_kept(orig, gb, 0) =~= existing.deep_view().skip(orig_len as int)
                + spec_append_kept(orig, gb, i as int),
        decreases n - i,
    {
        proof {
            assert(gb[i as int] == batch@[i as int]@);
        }
        let known = url_known(existing, orig_len, batch[i].stream_url.as_str());
        if !known {
            let ghost pre = existing.deep_view();
            existing.push(clone_channel(&batch[i]));
            appended = appended + 1;
            proof {
                assert(existing.deep_view() =~= pre.push(gb[i as int])) by {
                    assert forall|k: int|
                        0 <= k < existing.deep_view().len() implies existing.deep_view()[k]
                        == pre.push(gb[i as int])[k] by {
                        assert(existing.deep_view()[k] == existing@[k]@);
                        if k < pre.len() {
                            assert(pre[k] == existing@[k]@);
                        }
                    }
                }
                assert(existing.deep_view().take(orig_len as int) =~= orig);
                assert(existing.deep_view().skip(orig_len as int) =~= pre.skip(orig_len as int)
                    + seq![gb[i as int]]);
                assert(pre.skip(orig_len as int) + (seq![gb[i as int]] + spec_append_kept(
                    orig,
                    gb,
                    i + 1,
                )) =~= existing.deep_view().skip(orig_len as int) + spec_append_kept(
                    orig,
                    gb,
                    i + 1,
                ));
            }
        }
        i = i + 1;
    }
    proof {
        assert(spec_append_kept(orig, gb, n as int) =~= Seq::<ChannelView>::empty());
        assert(existing.deep_view().skip(orig_len as int) + spec_append_kept(orig, gb, n as int)
            =~= existing.deep_view().skip(orig_len as int));
        assert(existing.deep_view() =~= orig + existing.deep_view().skip(orig_len as int)) by {
            assert forall|k: int|
                0 <= k < existing.deep_view().len() implies existing.deep_view()[k] == (orig
                + existing.deep_view().skip(orig_len as int))[k] by {
                if k < orig_len {
                    assert(existing.deep_view().take(orig_len as int)[k]
                        == existing.deep_view()[k]);
                }
            }
        }
        assert(spec_append_kept(orig, gb, 0).len() == appended);
    }
    appended
}

} // verus!
