//! Parser for M3U/M3U8 playlists: `#EXTINF` directives with quoted
//! attributes, each followed by a stream URL line. Malformed entries are
//! silently skipped.
use crate::models::{Channel, ChannelView};
use crate::strutil::{bytes_eq, chars_of, spec_trim, trim_bytes, utf8_to_string};
use crate::xml::{lemma_find_bounds, spec_find};
use vstd::prelude::*;
use vstd::string::{StringExecFns, StringSliceAdditionalSpecFns};

verus! {

/// Whether `pat` is a prefix of `s`.
pub open spec fn spec_starts_with(s: Seq<u8>, pat: Seq<u8>) -> bool {
    pat.len() <= s.len() && s.take(pat.len() as int) == pat
}

fn starts_with_bytes(s: &[u8], pat: &[u8]) -> (r: bool)
    ensures
        r == spec_starts_with(s@, pat@),
{
    if pat.len() > s.len() {
        return false;
    }
    let head = vstd::slice::slice_subrange(s, 0, pat.len());
    let r = bytes_eq(head, pat);
    proof {
        assert(s@.take(pat@.len() as int) =~= s@.subrange(0, pat@.len() as int));
    }
    r
}

/// First position at or after `from` where `pat` occurs in `s`.
pub open spec fn spec_find_sub(s: Seq<u8>, pat: Seq<u8>, from: int) -> Option<int>
    decreases s.len() - from,
{
    if from < 0 || pat.len() == 0 || from + pat.len() > s.len() {
        None
    } else if s.subrange(from, from + pat.len()) == pat {
        Some(from)
    } else {
        spec_find_sub(s, pat, from + 1)
    }
}

proof fn lemma_find_sub_bounds(s: Seq<u8>, pat: Seq<u8>, from: int)
    requires
        0 <= from,
    ensures
        match spec_find_sub(s, pat, from) {
            Some(i) => from <= i && i + pat.len() <= s.len(),
            None => true,
        },
    decreases s.len() - from,
{
    if pat.len() != 0 && from + pat.len() <= s.len() && s.subrange(from, from + pat.len()) != pat {
        lemma_find_sub_bounds(s, pat, from + 1);
    }
}

fn find_sub(s: &[u8], pat: &[u8]) -> (r: Option<usize>)
    requires
        pat@.len() >= 1,
    ensures
        match r {
            Some(i) => spec_find_sub(s@, pat@, 0) == Some(i as int) && i + pat@.len() <= s@.len(),
            None => spec_find_sub(s@, pat@, 0) is None,
        },
{
    proof {
        lemma_find_sub_bounds(s@, pat@, 0);
    }
    let n = s.len();
    let m = pat.len();
    if m > n {
        return None;
    }
    let mut i: usize = 0;
    while i <= n - m
        invariant
            0 <= i <= n - m + 1,
            m <= n,
            n == s@.len(),
            m == pat@.len(),
            m >= 1,
            spec_find_sub(s@, pat@, 0) == spec_find_sub(s@, pat@, i as int),
        decreases n - i,
    {
        let window = vstd::slice::slice_subrange(s, i, i + m);
        if bytes_eq(window, pat) {
            return Some(i);
        }
        i = i + 1;
    }
    None
}

/// Last position of byte `b` in `s`.
pub open spec fn spec_rfind(s: Seq<u8>, b: u8) -> Option<int>
    decreases s.len(),
{
    if s.len() == 0 {
        None
    } else if s.last() == b {
        Some(s.len() - 1)
    } else {
        spec_rfind(s.drop_last(), b)
    }
}

pub(crate) fn rfind_byte(s: &[u8], b: u8) -> (r: Option<usize>)
    ensures
        match r {
            Some(i) => spec_rfind(s@, b) == Some(i as int) && i < s@.len(),
            None => spec_rfind(s@, b) is None,
        },
{
    let n = s.len();
    proof {
        assert(s@.take(n as int) =~= s@);
    }
    let mut i: usize = n;
    while i > 0
        invariant
            0 <= i <= n,
            n == s@.len(),
            spec_rfind(s@, b) == spec_rfind(s@.take(i as int), b),
        decreases i,
    {
        proof {
            assert(s@.take(i as int).last() == s@[i - 1]);
            assert(s@.take(i as int).drop_last() =~= s@.take(i - 1 as int));
        }
        if s[i - 1] == b {
            return Some(i - 1);
        }
        i = i - 1;
    }
    proof {
        assert(s@.take(0) =~= Seq::<u8>::empty());
    }
    None
}

/// The value of a quoted attribute `key="value"` on a line: the characters
/// between the quotes, or nothing when the attribute is absent, empty, or
/// not readable text.
pub open spec fn spec_attr(line: Seq<u8>, key: Seq<u8>) -> Option<Seq<char>> {
    let pat = key + seq![61u8, 34u8];
    match spec_find_sub(line, pat, 0) {
        None => None,
        Some(i) => {
            let vs = i + pat.len();
            let ve = spec_find(line, vs, 34);
            if ve >= line.len() {
                None
            } else {
                let v = line.subrange(vs, ve);
                if v.len() == 0 || chars_of(v) is None {
                    None
                } else {
                    Some(chars_of(v)->0)
                }
            }
        },
    }
}

fn extract_attr_bytes(line: &[u8], key: &str) -> (r: Option<String>)
    ensures
        match r {
            Some(v) => spec_attr(line@, key.spec_bytes()) == Some(v@),
            None => spec_attr(line@, key.spec_bytes()) is None,
        },
{
    let mut pat: Vec<u8> = vstd::slice::slice_to_vec(key.as_bytes());
    pat.push(61);
    pat.push(34);
    proof {
        assert(pat@ =~= key.spec_bytes() + seq![61u8, 34u8]);
        assert(pat@.len() >= 1);
    }
    let n = line.len();
    let i = match find_sub(line, pat.as_slice()) {
        Some(i) => i,
        None => {
            return None;
        },
    };
    let vs = i + pat.len();
    let ve = crate::xml::find_byte(line, vs, 34);
    if ve >= line.len() {
        return None;
    }
    let v = crate::strutil::sub_bytes(line, vs, ve);
    if v.len() == 0 {
        return None;
    }
    match utf8_to_string(v) {
        Some(s) => Some(s),
        None => None,
    }
}

/// Extract a quoted attribute value from an EXTINF line.
///
/// For a line like `#EXTINF:-1 tvg-name="CNN" ...` and key `tvg-name`,
/// this returns `Some("CNN")`.
pub fn extract_attribute(line: &str, key: &str) -> (r: Option<String>)
    ensures
        match r {
            Some(v) => spec_attr(line.spec_bytes(), key.spec_bytes()) == Some(v@),
            None => spec_attr(line.spec_bytes(), key.spec_bytes()) is None,
        },
{
    extract_attr_bytes(line.as_bytes(), key)
}

/// The display name after the last comma of an EXTINF line, whitespace
/// trimmed; nothing when absent or empty.
pub open spec fn spec_display_name(line: Seq<u8>) -> Option<Seq<char>> {
    match spec_rfind(line, 44) {
        None => None,
        Some(i) => {
            let name = spec_trim(line.subrange(i + 1, line.len() as int));
            if name.len() == 0 || chars_of(name) is None {
                None
            } else {
                Some(chars_of(name)->0)
            }
        },
    }
}

fn extract_display_name_bytes(line: &[u8]) -> (r: Option<String>)
    ensures
        match r {
            Some(v) => spec_display_name(line@) == Some(v@),
            None => spec_display_name(line@) is None,
        },
{
    let n = line.len();
    let i = match rfind_byte(line, 44) {
        Some(i) => i,
        None => {
            return None;
        },
    };
    let rest = crate::strutil::sub_bytes(line, i + 1, n);
    let name = trim_bytes(rest.as_slice());
    if name.len() == 0 {
        return None;
    }
    match utf8_to_string(name) {
        Some(s) => Some(s),
        None => None,
    }
}

/// Extract the display name after the last comma of an EXTINF line.
///
/// For `#EXTINF:-1 ...,My Channel Name` this returns `Some("My Channel Name")`.
pub fn extract_display_name(line: &str) -> (r: Option<String>)
    ensures
        match r {
            Some(v) => spec_display_name(line.spec_bytes()) == Some(v@),
            None => spec_display_name(line.spec_bytes()) is None,
        },
{
    extract_display_name_bytes(line.as_bytes())
}

/// One wrap-around multiply-by-33-and-add step over the bytes of a string,
/// starting from 5381: a deterministic 64-bit digest.
pub open spec fn spec_djb2(s: Seq<u8>, i: int, acc: int) -> int
    decreases s.len() - i,
{
    if i < 0 || i >= s.len() {
        acc
    } else {
        spec_djb2(s, i + 1, (((acc * 33) % 0x10000000000000000) + s[i]) % 0x10000000000000000)
    }
}

pub(crate) fn djb2_bytes(s: &[u8]) -> (r: u64)
    ensures
        r == spec_djb2(s@, 0, 5381),
{
    let n = s.len();
    let mut acc: u64 = 5381;
    let mut i: usize = 0;
    while i < n
        invariant
            0 <= i <= n,
            n == s@.len(),
            spec_djb2(s@, 0, 5381) == spec_djb2(s@, i as int, acc as int),
        decreases n - i,
    {
        acc = acc.wrapping_mul(33).wrapping_add(s[i] as u64);
        i = i + 1;
    }
    acc
}

/// The character for one hexadecimal digit.
pub open spec fn spec_hex_digit(d: int) -> char {
    if d == 0 {
        '0'
    } else if d == 1 {
        '1'
    } else if d == 2 {
        '2'
    } else if d == 3 {
        '3'
    } else if d == 4 {
        '4'
    } else if d == 5 {
        '5'
    } else if d == 6 {
        '6'
    } else if d == 7 {
        '7'
    } else if d == 8 {
        '8'
    } else if d == 9 {
        '9'
    } else if d == 10 {
        'a'
    } else if d == 11 {
        'b'
    } else if d == 12 {
        'c'
    } else if d == 13 {
        'd'
    } else if d == 14 {
        'e'
    } else {
        'f'
    }
}

/// The low `digits` hexadecimal digits of `n`, most significant first.
pub open spec fn spec_hex(n: int, digits: int) -> Seq<char>
    decreases digits,
{
    if digits <= 0 {
        Seq::empty()
    } else {
        spec_hex(n / 16, digits - 1) + seq![spec_hex_digit(n % 16)]
    }
}

fn hex_digit_str(d: u64) -> (r: &'static str)
    requires
        d < 16,
    ensures
        r@ == seq![spec_hex_digit(d as int)],
{
    proof {
        reveal_strlit("0");
        reveal_strlit("1");
        reveal_strlit("2");
        reveal_strlit("3");
        reveal_strlit("4");
        reveal_strlit("5");
        reveal_strlit("6");
        reveal_strlit("7");
        reveal_strlit("8");
        reveal_strlit("9");
        reveal_strlit("a");
        reveal_strlit("b");
        reveal_strlit("c");
        reveal_strlit("d");
        reveal_strlit("e");
        reveal_strlit("f");
    }
    if d == 0 {
        "0"
    } else if d == 1 {
        "1"
    } else if d == 2 {
        "2"
    } else if d == 3 {
        "3"
    } else if d == 4 {
        "4"
    } else if d == 5 {
        "5"
    } else if d == 6 {
        "6"
    } else if d == 7 {
        "7"
    } else if d == 8 {
        "8"
    } else if d == 9 {
        "9"
    } else if d == 10 {
        "a"
    } else if d == 11 {
        "b"
    } else if d == 12 {
        "c"
    } else if d == 13 {
        "d"
    } else if d == 14 {
        "e"
    } else {
        "f"
    }
}

fn push_hex(out: &mut String, n: u64, digits: u32)
    requires
        digits <= 16,
    ensures
        final (out)@ == old(out)@ + spec_hex(n as int, digits as int),
    decreases digits,
{
    if digits == 0 {
        proof {
            assert(old(out)@ + spec_hex(n as int, 0) =~= old(out)@);
        }
    } else {
        push_hex(out, n / 16, digits - 1);
        out.append(hex_digit_str(n % 16));
    }
}

/// Produce a deterministic 16-digit hexadecimal digest of the stream URL
/// to use as a channel id.
pub fn hash_url(url: &str) -> (r: String)
    ensures
        r@ == spec_hex(spec_djb2(url.spec_bytes(), 0, 5381), 16),
{
    let h = djb2_bytes(url.as_bytes());
    let mut out = String::new();
    push_hex(&mut out, h, 16);
    proof {
        assert(Seq::<char>::empty() + spec_hex(h as int, 16) =~= spec_hex(h as int, 16));
    }
    out
}

/// The byte sequences of a vector of byte vectors.
pub open spec fn views_of(v: Seq<Vec<u8>>) -> Seq<Seq<u8>> {
    Seq::new(v.len(), |i: int| v[i]@)
}

/// The lines of a byte text, split at line feeds, each with a trailing
/// carriage return removed; a trailing final newline yields no extra line.
pub open spec fn spec_lines_from(s: Seq<u8>, i: int) -> Seq<Seq<u8>>
    decreases s.len() - i,
    when true
    via spec_lines_decreases
{
    if i < 0 || i >= s.len() {
        Seq::empty()
    } else {
        let j = spec_find(s, i, 10);
        if j >= s.len() {
            seq![spec_strip_cr(s.subrange(i, s.len() as int))]
        } else {
            seq![spec_strip_cr(s.subrange(i, j))] + spec_lines_from(s, j + 1)
        }
    }
}

#[via_fn]
proof fn spec_lines_decreases(s: Seq<u8>, i: int) {
    if 0 <= i < s.len() {
        lemma_find_bounds(s, i, 10);
    }
}

/// A line with one trailing carriage return removed.
pub open spec fn spec_strip_cr(l: Seq<u8>) -> Seq<u8> {
    if l.len() > 0 && l.last() == 13 {
        l.drop_last()
    } else {
        l
    }
}

/// Split a byte text into lines.
fn split_lines(s: &[u8]) -> (r: Vec<Vec<u8>>)
    ensures
        views_of(r@) == spec_lines_from(s@, 0),
{
    let n = s.len();
    let mut out: Vec<Vec<u8>> = Vec::new();
    let mut i: usize = 0;
    while i < n
        invariant
            0 <= i <= n,
            n == s@.len(),
            spec_lines_from(s@, 0) =~= views_of(out@) + spec_lines_from(s@, i as int),
        decreases n - i,
    {
        let ghost pre = views_of(out@);
        let j = crate::xml::find_byte(s, i, 10);
        let stop = if j < n {
            j
        } else {
            n
        };
        let mut line = crate::strutil::sub_bytes(s, i, stop);
        if line.len() > 0 && line[line.len() - 1] == 13 {
            let _ = line.pop();
            proof {
                assert(line@ =~= spec_strip_cr(s@.subrange(i as int, stop as int)));
            }
        }
        proof {
            assert(line@ == spec_strip_cr(s@.subrange(i as int, stop as int)));
        }
        out.push(line);
        proof {
            let x = spec_strip_cr(s@.subrange(i as int, stop as int));
            assert(views_of(out@) =~= pre.push(x));
            if j < n {
                assert(spec_lines_from(s@, i as int) == seq![x] + spec_lines_from(
                    s@,
                    j + 1 as int,
                ));
            } else {
                assert(spec_lines_from(s@, j + 1 as int) =~= Seq::<Seq<u8>>::empty());
                assert(spec_lines_from(s@, i as int) =~= seq![x] + spec_lines_from(
                    s@,
                    j + 1 as int,
                ));
            }
            assert(pre + (seq![x] + spec_lines_from(s@, j + 1 as int)) =~= pre.push(x)
                + spec_lines_from(s@, j + 1 as int));
            assert(spec_lines_from(s@, 0) =~= views_of(out@) + spec_lines_from(
                s@,
                j + 1 as int,
            ));
        }
        i = if j < n {
            j + 1
        } else {
            n
        };
    }
    proof {
        assert(views_of(out@) + spec_lines_from(s@, i as int) =~= views_of(out@));
    }
    out
}

/// First line index at or after `k` whose trimmed form is non-empty and
/// does not start with `#`: the next stream URL candidate.
pub open spec fn spec_skip_to_url(lines: Seq<Seq<u8>>, k: int) -> int
    decreases lines.len() - k,
{
    if k < 0 || k >= lines.len() {
        lines.len() as int
    } else {
        let t = spec_trim(lines[k]);
        if t.len() == 0 || t[0] == 35 {
            spec_skip_to_url(lines, k + 1)
        } else {
            k
        }
    }
}

proof fn lemma_skip_to_url_bounds(lines: Seq<Seq<u8>>, k: int)
    requires
        0 <= k <= lines.len(),
    ensures
        k <= spec_skip_to_url(lines, k) <= lines.len(),
    decreases lines.len() - k,
{
    if k < lines.len() {
        let t = spec_trim(lines[k]);
        if t.len() == 0 || t[0] == 35 {
            lemma_skip_to_url_bounds(lines, k + 1);
        }
    }
}

/// The channel an EXTINF line and its stream URL line denote. The name
/// comes from the `tvg-name` attribute, or the text after the last comma;
/// the id is a hexadecimal digest of the URL.
pub open spec fn spec_channel_of(extinf: Seq<u8>, url: Seq<u8>) -> ChannelView {
    ChannelView {
        id: spec_hex(spec_djb2(url, 0, 5381), 16),
        name: match spec_attr(extinf, ("tvg-name").spec_bytes()) {
            Some(v) => v,
            None => match spec_display_name(extinf) {
                Some(v) => v,
                None => Seq::empty(),
            },
        },
        group: match spec_attr(extinf, ("group-title").spec_bytes()) {
            Some(v) => v,
            None => Seq::empty(),
        },
        logo_url: spec_attr(extinf, ("tvg-logo").spec_bytes()),
        stream_url: match chars_of(url) {
            Some(c) => c,
            None => Seq::empty(),
        },
        is_live: false,
        tvg_id: spec_attr(extinf, ("tvg-id").spec_bytes()),
    }
}

/// The channels an M3U line list denotes, read from position `i` on: each
/// `#EXTINF` line paired with the next non-blank, non-comment line as its
/// stream URL; entries without such a line are dropped.
pub open spec fn spec_m3u(lines: Seq<Seq<u8>>, i: int) -> Seq<ChannelView>
    decreases lines.len() - i,
    when true
    via spec_m3u_decreases
{
    if i < 0 || i >= lines.len() {
        Seq::empty()
    } else {
        let t = spec_trim(lines[i]);
        if spec_starts_with(t, ("#EXTINF:").spec_bytes()) {
            let j = spec_skip_to_url(lines, i + 1);
            if j < lines.len() {
                seq![spec_channel_of(t, spec_trim(lines[j]))] + spec_m3u(lines, j + 1)
            } else {
                Seq::empty()
            }
        } else {
            spec_m3u(lines, i + 1)
        }
    }
}

#[via_fn]
proof fn spec_m3u_decreases(lines: Seq<Seq<u8>>, i: int) {
    if 0 <= i < lines.len() {
        lemma_skip_to_url_bounds(lines, i + 1);
    }
}

/// Find the next stream URL line at or after `k`.
fn skip_to_url(lines: &Vec<Vec<u8>>, k: usize) -> (r: usize)
    requires
        k <= lines@.len(),
    ensures
        r == spec_skip_to_url(views_of(lines@), k as int),
        k <= r <= lines@.len(),
{
    proof {
        lemma_skip_to_url_bounds(views_of(lines@), k as int);
    }
    let n = lines.len();
    let mut j: usize = k;
    while j < n
        invariant
            k <= j <= n,
            n == lines@.len(),
            spec_skip_to_url(views_of(lines@), k as int) == spec_skip_to_url(
                views_of(lines@),
                j as int,
            ),
        decreases n - j,
    {
        proof {
            assert(views_of(lines@)[j as int] == lines@[j as int]@);
        }
        let u = trim_bytes(lines[j].as_slice());
        if !(u.len() == 0 || u[0] == 35) {
            proof {
                assert(spec_skip_to_url(views_of(lines@), j as int) == j as int);
            }
            return j;
        }
        j = j + 1;
    }
    n
}

/// Build the channel an EXTINF line and a URL line denote.
fn channel_of(extinf: &[u8], url: &[u8]) -> (r: Channel)
    ensures
        r@ == spec_channel_of(extinf@, url@),
{
    let name = match extract_attr_bytes(extinf, "tvg-name") {
        Some(v) => v,
        None => match extract_display_name_bytes(extinf) {
            Some(v) => v,
            None => String::new(),
        },
    };
    let group = match extract_attr_bytes(extinf, "group-title") {
        Some(v) => v,
        None => String::new(),
    };
    let logo_url = extract_attr_bytes(extinf, "tvg-logo");
    let tvg_id = extract_attr_bytes(extinf, "tvg-id");
    let stream_url = match utf8_to_string(vstd::slice::slice_to_vec(url)) {
        Some(s) => s,
        None => String::new(),
    };
    let mut id = String::new();
    push_hex(&mut id, djb2_bytes(url), 16);
    proof {
        assert(Seq::<char>::empty() + spec_hex(spec_djb2(url@, 0, 5381), 16) =~= spec_hex(
            spec_djb2(url@, 0, 5381),
            16,
        ));
    }
    Channel { id, name, group, logo_url, stream_url, is_live: false, tvg_id }
}

/// Parse raw M3U content into a list of channels. The parser reads
/// `#EXTINF` directives, takes the next non-blank, non-comment line as the
/// stream URL, and silently skips malformed entries.
pub fn parse_m3u(content: &str) -> (r: Vec<Channel>)
    ensures
        r.deep_view() == spec_m3u(spec_lines_from(content.spec_bytes(), 0), 0),
{
    let bytes = content.as_bytes();
    let lines = split_lines(bytes);
    let ghost glines = spec_lines_from(content.spec_bytes(), 0);
    let n = lines.len();
    let mut out: Vec<Channel> = Vec::new();
    let mut i: usize = 0;
    while i < n
        invariant
            0 <= i <= n,
            n == lines@.len(),
            views_of(lines@) == glines,
            glines.len() == n,
            spec_m3u(glines, 0) =~= out.deep_view() + spec_m3u(glines, i as int),
        decreases n - i,
    {
        let ghost pre = out.deep_view();
        proof {
            assert(views_of(lines@)[i as int] == lines@[i as int]@);
        }
        let t = trim_bytes(lines[i].as_slice());
        if starts_with_bytes(t.as_slice(), "#EXTINF:".as_bytes()) {
            let j = skip_to_url(&lines, i + 1);
            if j < n {
                proof {
                    assert(views_of(lines@)[j as int] == lines@[j as int]@);
                }
                let u = trim_bytes(lines[j].as_slice());
                let ch = channel_of(t.as_slice(), u.as_slice());
                out.push(ch);
                proof {
                    let x = spec_channel_of(spec_trim(glines[i as int]), spec_trim(glines[j as int]));
                    assert(ch@ == x);
                    assert(out.deep_view() =~= pre.push(x));
                    assert(spec_m3u(glines, i as int) == seq![x] + spec_m3u(glines, j + 1 as int));
                    assert(pre + (seq![x] + spec_m3u(glines, j + 1 as int)) =~= pre.push(x)
                        + spec_m3u(glines, j + 1 as int));
                    assert(spec_m3u(glines, 0) =~= out.deep_view() + spec_m3u(
                        glines,
                        j + 1 as int,
                    ));
                }
                i = j + 1;
            } else {
                proof {
                    assert(spec_m3u(glines, i as int) =~= Seq::<ChannelView>::empty());
                    assert(out.deep_view() + spec_m3u(glines, i as int) =~= out.deep_view());
                }
                i = n;
            }
        } else {
            proof {
                assert(spec_m3u(glines, i as int) == spec_m3u(glines, i + 1 as int));
            }
            i = i + 1;
        }
    }
    proof {
        assert(out.deep_view() + spec_m3u(glines, i as int) =~= out.deep_view());
        assert(spec_m3u(glines, 0) =~= out.deep_view());
    }
    out
}

} // verus!
