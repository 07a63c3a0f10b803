//! A total, single-forward-pass tokenizer for the XMLTV subset of XML:
//! start tags with quoted attributes, end tags, self-closing tags, text with
//! the five named character entities, comments, and processing
//! instructions. Malformed constructs are skipped, never an error: the
//! guide reader is a streaming ingester, not a validator.
use crate::strutil::{bytes_eq, is_ws, spec_is_ws, spec_trim, sub_bytes, trim_bytes};
use vstd::prelude::*;
use vstd::string::StringSliceAdditionalSpecFns;

verus! {

/// Mathematical view of one tokenizer event.
pub enum GEvent {
    /// An opening or self-closing tag with its attributes.
    Start { name: Seq<u8>, attrs: Seq<(Seq<u8>, Seq<u8>)>, empty: bool },
    /// A closing tag.
    End { name: Seq<u8> },
    /// A text run between tags, whitespace-trimmed and entity-unescaped.
    Text { content: Seq<u8> },
}

/// One tokenizer event, holding copies of the name, attribute and text
/// bytes it covers.
pub enum RawEvent {
    /// An opening or self-closing tag with its attributes.
    StartTag { name: Vec<u8>, attrs: Vec<(Vec<u8>, Vec<u8>)>, empty: bool },
    /// A closing tag.
    EndTag { name: Vec<u8> },
    /// A text run between tags, whitespace-trimmed and entity-unescaped.
    TextRun { content: Vec<u8> },
}

impl View for RawEvent {
    type V = GEvent;

    open spec fn view(&self) -> GEvent {
        match self {
            RawEvent::StartTag { name, attrs, empty } => GEvent::Start {
                name: name@,
                attrs: Seq::new(attrs@.len(), |i: int| (attrs@[i].0@, attrs@[i].1@)),
                empty: *empty,
            },
            RawEvent::EndTag { name } => GEvent::End { name: name@ },
            RawEvent::TextRun { content } => GEvent::Text { content: content@ },
        }
    }
}

/// First position at or after `from` holding byte `b`, or the length.
pub open spec fn spec_find(s: Seq<u8>, from: int, b: u8) -> int
    decreases s.len() - from,
{
    if from < 0 || from >= s.len() {
        s.len() as int
    } else if s[from] == b {
        from
    } else {
        spec_find(s, from + 1, b)
    }
}

pub proof fn lemma_find_bounds(s: Seq<u8>, from: int, b: u8)
    requires
        0 <= from <= s.len(),
    ensures
        from <= spec_find(s, from, b) <= s.len(),
        spec_find(s, from, b) < s.len() ==> s[spec_find(s, from, b)] == b,
        forall|k: int| from <= k < spec_find(s, from, b) ==> s[k] != b,
    decreases s.len() - from,
{
    if from < s.len() && s[from] != b {
        lemma_find_bounds(s, from + 1, b);
    }
}

pub(crate) fn find_byte(s: &[u8], from: usize, b: u8) -> (r: usize)
    requires
        from <= s@.len(),
    ensures
        r == spec_find(s@, from as int, b),
        from <= r <= s@.len(),
{
    proof {
        lemma_find_bounds(s@, from as int, b);
    }
    let n = s.len();
    let mut i: usize = from;
    while i < n
        invariant
            from <= i <= n,
            n == s@.len(),
            spec_find(s@, from as int, b) == spec_find(s@, i as int, b),
        decreases n - i,
    {
        if s[i] == b {
            return i;
        }
        i = i + 1;
    }
    n
}

/// First position at or after `from` where the comment terminator `-->`
/// begins, or the length when there is none.
pub open spec fn spec_find_comment_end(s: Seq<u8>, from: int) -> int
    decreases s.len() - from,
{
    if from < 0 || from + 3 > s.len() {
        s.len() as int
    } else if s[from] == 45 && s[from + 1] == 45 && s[from + 2] == 62 {
        from
    } else {
        spec_find_comment_end(s, from + 1)
    }
}

pub proof fn lemma_find_comment_end_bounds(s: Seq<u8>, from: int)
    requires
        0 <= from <= s.len(),
    ensures
        from <= spec_find_comment_end(s, from) <= s.len(),
        spec_find_comment_end(s, from) < s.len() ==> spec_find_comment_end(s, from) + 3 <= s.len(),
    decreases s.len() - from,
{
    if from + 3 <= s.len() && !(s[from] == 45 && s[from + 1] == 45 && s[from + 2] == 62) {
        lemma_find_comment_end_bounds(s, from + 1);
    }
}

fn find_comment_end(s: &[u8], from: usize) -> (r: usize)
    requires
        from <= s@.len(),
        s@.len() < usize::MAX - 8,
    ensures
        r == spec_find_comment_end(s@, from as int),
        from <= r <= s@.len(),
{
    proof {
        lemma_find_comment_end_bounds(s@, from as int);
    }
    let n = s.len();
    let mut i: usize = from;
    while n - i >= 3
        invariant
            from <= i <= n,
            n == s@.len(),
            spec_find_comment_end(s@, from as int) == spec_find_comment_end(s@, i as int),
        decreases n - i,
    {
        if s[i] == 45 && s[i + 1] == 45 && s[i + 2] == 62 {
            return i;
        }
        i = i + 1;
    }
    n
}

/// First position at or after `from` holding a byte that is not ASCII
/// whitespace, or the length.
pub open spec fn spec_skip_ws(s: Seq<u8>, from: int) -> int
    decreases s.len() - from,
{
    if from < 0 || from >= s.len() {
        s.len() as int
    } else if spec_is_ws(s[from]) {
        spec_skip_ws(s, from + 1)
    } else {
        from
    }
}

pub proof fn lemma_skip_ws_bounds(s: Seq<u8>, from: int)
    requires
        0 <= from <= s.len(),
    ensures
        from <= spec_skip_ws(s, from) <= s.len(),
        spec_skip_ws(s, from) < s.len() ==> !spec_is_ws(s[spec_skip_ws(s, from)]),
    decreases s.len() - from,
{
    if from < s.len() && spec_is_ws(s[from]) {
        lemma_skip_ws_bounds(s, from + 1);
    }
}

fn skip_ws(s: &[u8], from: usize) -> (r: usize)
    requires
        from <= s@.len(),
    ensures
        r == spec_skip_ws(s@, from as int),
        from <= r <= s@.len(),
{
    proof {
        lemma_skip_ws_bounds(s@, from as int);
    }
    let n = s.len();
    let mut i: usize = from;
    while i < n
        invariant
            from <= i <= n,
            n == s@.len(),
            spec_skip_ws(s@, from as int) == spec_skip_ws(s@, i as int),
        decreases n - i,
    {
        if !is_ws(s[i]) {
            return i;
        }
        i = i + 1;
    }
    n
}

/// Whether a byte ends an XML name: whitespace, `=`, `/` or `>`.
pub open spec fn spec_is_name_end(b: u8) -> bool {
    spec_is_ws(b) || b == 61 || b == 47 || b == 62
}

/// First position at or after `from` holding a name-ending byte, or the
/// length.
pub open spec fn spec_name_end(s: Seq<u8>, from: int) -> int
    decreases s.len() - from,
{
    if from < 0 || from >= s.len() {
        s.len() as int
    } else if spec_is_name_end(s[from]) {
        from
    } else {
        spec_name_end(s, from + 1)
    }
}

pub proof fn lemma_name_end_bounds(s: Seq<u8>, from: int)
    requires
        0 <= from <= s.len(),
    ensures
        from <= spec_name_end(s, from) <= s.len(),
    decreases s.len() - from,
{
    if from < s.len() && !spec_is_name_end(s[from]) {
        lemma_name_end_bounds(s, from + 1);
    }
}

fn name_end(s: &[u8], from: usize) -> (r: usize)
    requires
        from <= s@.len(),
    ensures
        r == spec_name_end(s@, from as int),
        from <= r <= s@.len(),
{
    proof {
        lemma_name_end_bounds(s@, from as int);
    }
    let n = s.len();
    let mut i: usize = from;
    while i < n
        invariant
            from <= i <= n,
            n == s@.len(),
            spec_name_end(s@, from as int) == spec_name_end(s@, i as int),
        decreases n - i,
    {
        let b = s[i];
        if is_ws(b) || b == 61 || b == 47 || b == 62 {
            return i;
        }
        i = i + 1;
    }
    n
}

/// The named character entity beginning at `i`, as the replacement byte and
/// the position just past the entity, when one of the five XML entities
/// stands there.
pub open spec fn spec_entity_at(s: Seq<u8>, i: int) -> Option<(u8, int)> {
    if i + 4 <= s.len() && s[i] == 38 && s[i + 1] == 108 && s[i + 2] == 116 && s[i + 3] == 59 {
        // &lt;
        Some((60u8, i + 4))
    } else if i + 4 <= s.len() && s[i] == 38 && s[i + 1] == 103 && s[i + 2] == 116 && s[i + 3]
        == 59 {
        // &gt;
        Some((62u8, i + 4))
    } else if i + 5 <= s.len() && s[i] == 38 && s[i + 1] == 97 && s[i + 2] == 109 && s[i + 3] == 112
        && s[i + 4] == 59 {
        // &amp;
        Some((38u8, i + 5))
    } else if i + 6 <= s.len() && s[i] == 38 && s[i + 1] == 97 && s[i + 2] == 112 && s[i + 3] == 111
        && s[i + 4] == 115 && s[i + 5] == 59 {
        // &apos;
        Some((39u8, i + 6))
    } else if i + 6 <= s.len() && s[i] == 38 && s[i + 1] == 113 && s[i + 2] == 117 && s[i + 3]
        == 111 && s[i + 4] == 116 && s[i + 5] == 59 {
        // &quot;
        Some((34u8, i + 6))
    } else {
        None
    }
}

fn entity_at(s: &[u8], i: usize) -> (r: Option<(u8, usize)>)
    requires
        i <= s@.len(),
        s@.len() < usize::MAX - 8,
    ensures
        match r {
            Some((b, j)) => spec_entity_at(s@, i as int) == Some((b, j as int)) && i < j
                <= s@.len(),
            None => spec_entity_at(s@, i as int) is None,
        },
{
    let n = s.len();
    if i + 4 <= n && s[i] == 38 && s[i + 1] == 108 && s[i + 2] == 116 && s[i + 3] == 59 {
        Some((60u8, i + 4))
    } else if i + 4 <= n && s[i] == 38 && s[i + 1] == 103 && s[i + 2] == 116 && s[i + 3] == 59 {
        Some((62u8, i + 4))
    } else if i + 5 <= n && s[i] == 38 && s[i + 1] == 97 && s[i + 2] == 109 && s[i + 3] == 112 && s[i
        + 4] == 59 {
        Some((38u8, i + 5))
    } else if i + 6 <= n && s[i] == 38 && s[i + 1] == 97 && s[i + 2] == 112 && s[i + 3] == 111 && s[i
        + 4] == 115 && s[i + 5] == 59 {
        Some((39u8, i + 6))
    } else if i + 6 <= n && s[i] == 38 && s[i + 1] == 113 && s[i + 2] == 117 && s[i + 3] == 111 && s[i
        + 4] == 116 && s[i + 5] == 59 {
        Some((34u8, i + 6))
    } else {
        None
    }
}

/// The bytes from `i` on with the five named entities replaced; an
/// unrecognized `&` sequence is kept as it stands.
pub open spec fn spec_unescape_from(s: Seq<u8>, i: int) -> Seq<u8>
    decreases s.len() - i,
{
    if i < 0 || i >= s.len() {
        Seq::empty()
    } else {
        match spec_entity_at(s, i) {
            Some((b, j)) => seq![b] + spec_unescape_from(s, j),
            None => seq![s[i]] + spec_unescape_from(s, i + 1),
        }
    }
}

/// A text run with leading and trailing whitespace removed and the five
/// named entities replaced.
pub open spec fn spec_text(raw: Seq<u8>) -> Seq<u8> {
    spec_unescape_from(spec_trim(raw), 0)
}

fn unescape(s: &[u8]) -> (r: Vec<u8>)
    requires
        s@.len() < usize::MAX - 8,
    ensures
        r@ == spec_unescape_from(s@, 0),
{
    let n = s.len();
    let mut out: Vec<u8> = Vec::new();
    let mut i: usize = 0;
    while i < n
        invariant
            0 <= i <= n,
            n == s@.len(),
            n < usize::MAX - 8,
            spec_unescape_from(s@, 0) == out@ + spec_unescape_from(s@, i as int),
        decreases n - i,
    {
        match entity_at(s, i) {
            Some((b, j)) => {
                out.push(b);
                i = j;
            },
            None => {
                out.push(s[i]);
                i = i + 1;
            },
        }
        assert(spec_unescape_from(s@, 0) == out@ + spec_unescape_from(s@, i as int));
    }
    assert(out@ =~= out@ + spec_unescape_from(s@, i as int));
    out
}

/// Attributes parsed from position `p` to the end of the tag: the
/// attribute list, whether the tag is self-closing, and the position just
/// past the closing `>`. `None` when the input ends inside the tag. A
/// malformed attribute drops the rest of the tag's attributes, as a
/// forgiving reader does.
pub open spec fn spec_attrs(s: Seq<u8>, p: int) -> Option<(Seq<(Seq<u8>, Seq<u8>)>, bool, int)>
    decreases s.len() - p,
    when 0 <= p <= s.len()
    via spec_attrs_decreases
{
    let q = spec_skip_ws(s, p);
    if q >= s.len() {
        None
    } else if s[q] == 62 {
        // '>'
        Some((Seq::empty(), false, q + 1))
    } else if s[q] == 47 {
        // '/'
        if q + 1 < s.len() && s[q + 1] == 62 {
            Some((Seq::empty(), true, q + 2))
        } else {
            let j = spec_find(s, q, 62);
            if j >= s.len() {
                None
            } else {
                Some((Seq::empty(), false, j + 1))
            }
        }
    } else {
        let ae = spec_name_end(s, q);
        let e = spec_skip_ws(s, ae);
        if e >= s.len() {
            None
        } else if s[e] != 61 {
            // no '=': malformed, skip to '>'
            let j = spec_find(s, e, 62);
            if j >= s.len() {
                None
            } else {
                Some((Seq::empty(), false, j + 1))
            }
        } else {
            let v = spec_skip_ws(s, e + 1);
            if v >= s.len() {
                None
            } else if s[v] == 34 || s[v] == 39 {
                let vend = spec_find(s, v + 1, s[v]);
                if vend >= s.len() {
                    None
                } else {
                    match spec_attrs(s, vend + 1) {
                        None => None,
                        Some((rest, em, nx)) => Some(
                            (
                                seq![(s.subrange(q, ae), s.subrange(v + 1, vend))] + rest,
                                em,
                                nx,
                            ),
                        ),
                    }
                }
            } else {
                // unquoted value: malformed, skip to '>'
                let j = spec_find(s, v, 62);
                if j >= s.len() {
                    None
                } else {
                    Some((Seq::empty(), false, j + 1))
                }
            }
        }
    }
}

#[via_fn]
proof fn spec_attrs_decreases(s: Seq<u8>, p: int) {
    lemma_skip_ws_bounds(s, p);
    let q = spec_skip_ws(s, p);
    if q < s.len() && s[q] != 62 && s[q] != 47 {
        lemma_name_end_bounds(s, q);
        let ae = spec_name_end(s, q);
        lemma_skip_ws_bounds(s, ae);
        let e = spec_skip_ws(s, ae);
        if e < s.len() && s[e] == 61 {
            lemma_skip_ws_bounds(s, e + 1);
            let v = spec_skip_ws(s, e + 1);
            if v < s.len() && (s[v] == 34 || s[v] == 39) {
                lemma_find_bounds(s, v + 1, s[v]);
            }
        }
    }
}

pub proof fn lemma_attrs_bounds(s: Seq<u8>, p: int)
    requires
        0 <= p <= s.len(),
    ensures
        match spec_attrs(s, p) {
            Some((_, _, nx)) => p < nx <= s.len(),
            None => true,
        },
    decreases s.len() - p,
{
    lemma_skip_ws_bounds(s, p);
    let q = spec_skip_ws(s, p);
    if q >= s.len() {
    } else if s[q] == 62 {
    } else if s[q] == 47 {
        lemma_find_bounds(s, q, 62);
    } else {
        lemma_name_end_bounds(s, q);
        let ae = spec_name_end(s, q);
        lemma_skip_ws_bounds(s, ae);
        let e = spec_skip_ws(s, ae);
        if e >= s.len() {
        } else if s[e] != 61 {
            lemma_find_bounds(s, e, 62);
        } else {
            lemma_skip_ws_bounds(s, e + 1);
            let v = spec_skip_ws(s, e + 1);
            if v >= s.len() {
            } else if s[v] == 34 || s[v] == 39 {
                lemma_find_bounds(s, v + 1, s[v]);
                let vend = spec_find(s, v + 1, s[v]);
                if vend < s.len() {
                    lemma_attrs_bounds(s, vend + 1);
                }
            } else {
                lemma_find_bounds(s, v, 62);
            }
        }
    }
}

/// Parse the attributes of a tag, mirroring `spec_attrs`.
fn parse_attrs(s: &[u8], p: usize) -> (r: Option<(Vec<(Vec<u8>, Vec<u8>)>, bool, usize)>)
    requires
        p <= s@.len(),
    ensures
        match r {
            Some((attrs, em, nx)) => {
                &&& spec_attrs(s@, p as int) matches Some((sattrs, sem, snx))
                &&& Seq::new(attrs@.len(), |i: int| (attrs@[i].0@, attrs@[i].1@)) == sattrs
                &&& em == sem
                &&& nx as int == snx
                &&& p < nx <= s@.len()
            },
            None => spec_attrs(s@, p as int) is None,
        },
{
    proof {
        lemma_attrs_bounds(s@, p as int);
    }
    let n = s.len();
    let mut attrs: Vec<(Vec<u8>, Vec<u8>)> = Vec::new();
    let mut cur: usize = p;
    loop
        invariant
            0 <= cur <= n,
            p <= cur,
            n == s@.len(),
            match spec_attrs(s@, p as int) {
                Some((sattrs, sem, snx)) => spec_attrs(s@, cur as int) matches Some(
                    (srest, sem2, snx2),
                ) && sattrs == Seq::new(attrs@.len(), |i: int| (attrs@[i].0@, attrs@[i].1@))
                    + srest && sem == sem2 && snx == snx2,
                None => spec_attrs(s@, cur as int) is None,
            },
        decreases n - cur,
    {
        proof {
            lemma_attrs_bounds(s@, cur as int);
            lemma_skip_ws_bounds(s@, cur as int);
        }
        let ghost srec = spec_attrs(s@, cur as int);
        let q = skip_ws(s, cur);
        if q >= n {
            return None;
        }
        if s[q] == 62 {
            proof {
                assert(Seq::new(attrs@.len(), |i: int| (attrs@[i].0@, attrs@[i].1@))
                    + Seq::<(Seq<u8>, Seq<u8>)>::empty() =~= Seq::new(
                    attrs@.len(),
                    |i: int| (attrs@[i].0@, attrs@[i].1@),
                ));
            }
            return Some((attrs, false, q + 1));
        }
        if s[q] == 47 {
            if q + 1 < n && s[q + 1] == 62 {
                proof {
                    assert(Seq::new(attrs@.len(), |i: int| (attrs@[i].0@, attrs@[i].1@))
                        + Seq::<(Seq<u8>, Seq<u8>)>::empty() =~= Seq::new(
                        attrs@.len(),
                        |i: int| (attrs@[i].0@, attrs@[i].1@),
                    ));
                }
                return Some((attrs, true, q + 2));
            }
            let j = find_byte(s, q, 62);
            if j >= n {
                return None;
            }
            proof {
                assert(Seq::new(attrs@.len(), |i: int| (attrs@[i].0@, attrs@[i].1@))
                    + Seq::<(Seq<u8>, Seq<u8>)>::empty() =~= Seq::new(
                    attrs@.len(),
                    |i: int| (attrs@[i].0@, attrs@[i].1@),
                ));
            }
            return Some((attrs, false, j + 1));
        }
        let ae = name_end(s, q);
        proof {
            lemma_name_end_bounds(s@, q as int);
            lemma_skip_ws_bounds(s@, ae as int);
        }
        let e = skip_ws(s, ae);
        if e >= n {
            return None;
        }
        if s[e] != 61 {
            let j = find_byte(s, e, 62);
            if j >= n {
                return None;
            }
            proof {
                assert(Seq::new(attrs@.len(), |i: int| (attrs@[i].0@, attrs@[i].1@))
                    + Seq::<(Seq<u8>, Seq<u8>)>::empty() =~= Seq::new(
                    attrs@.len(),
                    |i: int| (attrs@[i].0@, attrs@[i].1@),
                ));
            }
            return Some((attrs, false, j + 1));
        }
        proof {
            lemma_skip_ws_bounds(s@, e + 1 as int);
        }
        let v = skip_ws(s, e + 1);
        if v >= n {
            return None;
        }
        if s[v] == 34 || s[v] == 39 {
            let vend = find_byte(s, v + 1, s[v]);
            if vend >= n {
                return None;
            }
            let aname = sub_bytes(s, q, ae);
            let aval = sub_bytes(s, v + 1, vend);
            let ghost old_attrs = attrs@;
            attrs.push((aname, aval));
            proof {
                let f = |i: int| (attrs@[i].0@, attrs@[i].1@);
                let fo = |i: int| (old_attrs[i].0@, old_attrs[i].1@);
                let nv = (s@.subrange(q as int, ae as int), s@.subrange(v + 1 as int, vend as int));
                assert(Seq::new(attrs@.len(), f) =~= Seq::new(old_attrs.len(), fo).push(nv));
                let rec = spec_attrs(s@, vend + 1 as int);
                // Unfold one step of the attribute grammar at `cur`.
                if srec is Some {
                    assert(rec is Some);
                    assert(srec == Some(((seq![nv] + (rec->0).0), (rec->0).1, (rec->0).2)));
                    let rest = (rec->0).0;
                    if spec_attrs(s@, p as int) is Some {
                        let sattrs = (spec_attrs(s@, p as int)->0).0;
                        assert(sattrs == Seq::new(old_attrs.len(), fo) + (seq![nv] + rest));
                        assert(Seq::new(old_attrs.len(), fo) + (seq![nv] + rest) =~= Seq::new(
                            old_attrs.len(),
                            fo,
                        ).push(nv) + rest);
                    }
                } else {
                    assert(rec is None);
                }
            }
            cur = vend + 1;
        } else {
            let j = find_byte(s, v, 62);
            if j >= n {
                return None;
            }
            proof {
                assert(Seq::new(attrs@.len(), |i: int| (attrs@[i].0@, attrs@[i].1@))
                    + Seq::<(Seq<u8>, Seq<u8>)>::empty() =~= Seq::new(
                    attrs@.len(),
                    |i: int| (attrs@[i].0@, attrs@[i].1@),
                ));
            }
            return Some((attrs, false, j + 1));
        }
    }
}

/// The next event at or after position `i`: `None` when the document ends
/// inside a construct, otherwise the optional event (skipped constructs
/// such as comments yield none) and the position to resume from, strictly
/// beyond `i`.
pub open spec fn spec_next_event(s: Seq<u8>, i: int) -> Option<(Option<GEvent>, int)> {
    if s[i] != 60 {
        // text run up to the next '<'
        let j = spec_find(s, i, 60);
        Some((Some(GEvent::Text { content: spec_text(s.subrange(i, j)) }), j))
    } else if i + 1 >= s.len() {
        None
    } else if s[i + 1] == 47 {
        // '</'
        let j = spec_find(s, i + 2, 62);
        if j >= s.len() {
            None
        } else {
            Some(
                (
                    Some(GEvent::End { name: s.subrange(i + 2, spec_name_end_before(s, i + 2, j)) }),
                    j + 1,
                ),
            )
        }
    } else if s[i + 1] == 33 {
        // '<!'
        if i + 4 <= s.len() && s[i + 2] == 45 && s[i + 3] == 45 {
            let j = spec_find_comment_end(s, i + 4);
            if j >= s.len() {
                None
            } else {
                Some((None, j + 3))
            }
        } else {
            let j = spec_find(s, i + 2, 62);
            if j >= s.len() {
                None
            } else {
                Some((None, j + 1))
            }
        }
    } else if s[i + 1] == 63 {
        // '<?'
        let j = spec_find(s, i + 2, 62);
        if j >= s.len() {
            None
        } else {
            Some((None, j + 1))
        }
    } else {
        let ne = spec_name_end(s, i + 1);
        match spec_attrs(s, ne) {
            None => None,
            Some((attrs, empty, nx)) => Some(
                (Some(GEvent::Start { name: s.subrange(i + 1, ne), attrs, empty }), nx),
            ),
        }
    }
}

/// The end of a tag name within a closing tag, bounded by `stop`.
pub open spec fn spec_name_end_before(s: Seq<u8>, from: int, stop: int) -> int {
    if spec_name_end(s, from) < stop {
        spec_name_end(s, from)
    } else {
        stop
    }
}

pub proof fn lemma_next_event_progress(s: Seq<u8>, i: int)
    requires
        0 <= i < s.len(),
    ensures
        match spec_next_event(s, i) {
            Some((_, j)) => i < j <= s.len(),
            None => true,
        },
{
    lemma_find_bounds(s, i, 60);
    if s[i] == 60 {
        if i + 1 < s.len() {
            lemma_find_bounds(s, i + 2, 62);
            if s[i + 1] == 33 && i + 4 <= s.len() && s[i + 2] == 45 && s[i + 3] == 45 {
                lemma_find_comment_end_bounds(s, i + 4);
            }
            if !(s[i + 1] == 47 || s[i + 1] == 33 || s[i + 1] == 63) {
                lemma_name_end_bounds(s, i + 1);
                lemma_attrs_bounds(s, spec_name_end(s, i + 1));
            }
        }
    }
}

/// Scan the next event, mirroring `spec_next_event`.
pub(crate) fn next_event(s: &[u8], i: usize) -> (r: Option<(Option<RawEvent>, usize)>)
    requires
        i < s@.len(),
        s@.len() < usize::MAX - 8,
    ensures
        match r {
            Some((ev, j)) => {
                &&& spec_next_event(s@, i as int) matches Some((sev, sj))
                &&& match ev {
                    Some(e) => sev == Some(e@),
                    None => sev is None,
                }
                &&& j as int == sj
                &&& i < j <= s@.len()
            },
            None => spec_next_event(s@, i as int) is None,
        },
{
    proof {
        lemma_next_event_progress(s@, i as int);
    }
    let n = s.len();
    if s[i] != 60 {
        let j = find_byte(s, i, 60);
        let raw = sub_bytes(s, i, j);
        let trimmed = trim_bytes(raw.as_slice());
        let content = unescape(trimmed.as_slice());
        return Some((Some(RawEvent::TextRun { content }), j));
    }
    if i + 1 >= n {
        return None;
    }
    if s[i + 1] == 47 {
        let j = find_byte(s, i + 2, 62);
        if j >= n {
            return None;
        }
        let ne = name_end(s, i + 2);
        let stop = if ne < j {
            ne
        } else {
            j
        };
        let name = sub_bytes(s, i + 2, stop);
        return Some((Some(RawEvent::EndTag { name }), j + 1));
    }
    if s[i + 1] == 33 {
        if i + 4 <= n && s[i + 2] == 45 && s[i + 3] == 45 {
            let j = find_comment_end(s, i + 4);
            if j >= n {
                return None;
            }
            return Some((None, j + 3));
        }
        let j = find_byte(s, i + 2, 62);
        if j >= n {
            return None;
        }
        return Some((None, j + 1));
    }
    if s[i + 1] == 63 {
        let j = find_byte(s, i + 2, 62);
        if j >= n {
            return None;
        }
        return Some((None, j + 1));
    }
    let ne = name_end(s, i + 1);
    match parse_attrs(s, ne) {
        None => None,
        Some((attrs, empty, nx)) => {
            let name = sub_bytes(s, i + 1, ne);
            Some((Some(RawEvent::StartTag { name, attrs, empty }), nx))
        },
    }
}

/// Whether a byte-name equals the bytes of an ASCII tag or attribute name.
pub(crate) fn tag_is(name: &[u8], tag: &str) -> (r: bool)
    ensures
        r == (name@ == tag.spec_bytes()),
{
    bytes_eq(name, tag.as_bytes())
}

} // verus!
