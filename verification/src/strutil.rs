//! Byte-string helpers shared by the guide parser and the channel index:
//! conversions between raw bytes and `String`, case folding, and small
//! verified scanning utilities.
use vstd::prelude::*;
use vstd::string::{StringExecFns, StringSliceAdditionalSpecFns};
use vstd::utf8::{decode_utf8, valid_utf8};

verus! {

/// What `str::to_lowercase` returns for a given character sequence.
pub uninterp spec fn lower_of(s: Seq<char>) -> Seq<char>;

/// Relies on `str::to_lowercase`: the result depends on the characters alone,
/// and lowercasing an empty string yields an empty string.
#[verifier::external_body]
pub(crate) fn lowercase(s: &str) -> (r: String)
    ensures
        r@ == lower_of(s@),
        s@.len() == 0 ==> r@.len() == 0,
{
    s.to_lowercase()
}

/// The characters of a byte sequence when it is valid UTF-8.
pub open spec fn chars_of(b: Seq<u8>) -> Option<Seq<char>> {
    if valid_utf8(b) {
        Some(decode_utf8(b))
    } else {
        None
    }
}

/// Relies on `String::from_utf8`: returns `Ok` exactly when the bytes are
/// valid UTF-8, and the resulting string holds the decoded characters.
#[verifier::external_body]
pub(crate) fn utf8_to_string(b: Vec<u8>) -> (r: Option<String>)
    ensures
        r is Some <==> valid_utf8(b@),
        r is Some ==> (r->0)@ == decode_utf8(b@),
{
    match String::from_utf8(b) {
        Ok(s) => Some(s),
        Err(_) => None,
    }
}

/// Whether a byte is ASCII whitespace as XML counts it: space, tab,
/// carriage return or line feed.
pub open spec fn spec_is_ws(b: u8) -> bool {
    b == 32 || b == 9 || b == 13 || b == 10
}

pub(crate) fn is_ws(b: u8) -> (r: bool)
    ensures
        r == spec_is_ws(b),
{
    b == 32 || b == 9 || b == 13 || b == 10
}

/// Length of the run of leading whitespace bytes.
pub open spec fn spec_ws_prefix(s: Seq<u8>) -> int
    decreases s.len(),
{
    if s.len() == 0 || !spec_is_ws(s[0]) {
        0
    } else {
        1 + spec_ws_prefix(s.drop_first())
    }
}

/// Length of the run of trailing whitespace bytes.
pub open spec fn spec_ws_suffix(s: Seq<u8>) -> int
    decreases s.len(),
{
    if s.len() == 0 || !spec_is_ws(s.last()) {
        0
    } else {
        1 + spec_ws_suffix(s.drop_last())
    }
}

pub proof fn lemma_ws_prefix_bounds(s: Seq<u8>)
    ensures
        0 <= spec_ws_prefix(s) <= s.len(),
        forall|i: int| 0 <= i < spec_ws_prefix(s) ==> spec_is_ws(s[i]),
        spec_ws_prefix(s) < s.len() ==> !spec_is_ws(s[spec_ws_prefix(s)]),
    decreases s.len(),
{
    if s.len() == 0 || !spec_is_ws(s[0]) {
    } else {
        lemma_ws_prefix_bounds(s.drop_first());
        assert forall|i: int| 0 <= i < spec_ws_prefix(s) implies spec_is_ws(s[i]) by {
            if i > 0 {
                assert(s.drop_first()[i - 1] == s[i]);
            }
        }
    }
}

pub proof fn lemma_ws_suffix_bounds(s: Seq<u8>)
    ensures
        0 <= spec_ws_suffix(s) <= s.len(),
        forall|i: int| s.len() - spec_ws_suffix(s) <= i < s.len() ==> spec_is_ws(s[i]),
        spec_ws_suffix(s) < s.len() ==> !spec_is_ws(s[s.len() - spec_ws_suffix(s) - 1]),
    decreases s.len(),
{
    if s.len() == 0 || !spec_is_ws(s.last()) {
    } else {
        lemma_ws_suffix_bounds(s.drop_last());
        assert forall|i: int| s.len() - spec_ws_suffix(s) <= i < s.len() implies spec_is_ws(
            s[i],
        ) by {
            if i < s.len() - 1 {
                assert(s.drop_last()[i] == s[i]);
            }
        }
    }
}

/// A byte sequence with leading and trailing whitespace removed.
pub open spec fn spec_trim(s: Seq<u8>) -> Seq<u8> {
    if spec_ws_prefix(s) == s.len() {
        Seq::empty()
    } else {
        s.subrange(spec_ws_prefix(s), s.len() - spec_ws_suffix(s))
    }
}

/// Strip leading and trailing ASCII whitespace from a byte slice.
pub(crate) fn trim_bytes(s: &[u8]) -> (r: Vec<u8>)
    ensures
        r@ == spec_trim(s@),
        r@.len() <= s@.len(),
{
    proof {
        lemma_ws_prefix_bounds(s@);
        lemma_ws_suffix_bounds(s@);
    }
    let n = s.len();
    let mut a: usize = 0;
    while a < n && is_ws(s[a])
        invariant
            0 <= a <= n,
            n == s@.len(),
            forall|i: int| 0 <= i < a ==> spec_is_ws(s@[i]),
        decreases n - a,
    {
        a = a + 1;
    }
    proof {
        // a is the length of the leading whitespace run
        if a < n {
            assert(spec_ws_prefix(s@) <= a || !spec_is_ws(s@[spec_ws_prefix(s@)]));
        }
        assert(a == spec_ws_prefix(s@)) by {
            lemma_ws_prefix_bounds(s@);
            if a < spec_ws_prefix(s@) {
                assert(spec_is_ws(s@[a as int]));
            }
            if spec_ws_prefix(s@) < a {
                assert(spec_is_ws(s@[spec_ws_prefix(s@)]));
            }
        }
    }
    if a == n {
        return Vec::new();
    }
    let mut b: usize = n;
    while b > a && is_ws(s[b - 1])
        invariant
            a <= b <= n,
            n == s@.len(),
            a == spec_ws_prefix(s@),
            a < n,
            !spec_is_ws(s@[a as int]),
            forall|i: int| b <= i < n ==> spec_is_ws(s@[i]),
        decreases b,
    {
        b = b - 1;
    }
    proof {
        lemma_ws_suffix_bounds(s@);
        assert(b == n - spec_ws_suffix(s@)) by {
            if b < n - spec_ws_suffix(s@) {
                assert(spec_is_ws(s@[b as int]));
            }
            if n - spec_ws_suffix(s@) < b {
                assert(spec_is_ws(s@[n - spec_ws_suffix(s@) - 1]));
            }
        }
    }
    let mut out: Vec<u8> = Vec::new();
    let mut i: usize = a;
    while i < b
        invariant
            a <= i <= b <= n,
            n == s@.len(),
            out@ == s@.subrange(a as int, i as int),
        decreases b - i,
    {
        out.push(s[i]);
        assert(out@ == s@.subrange(a as int, i + 1 as int));
        i = i + 1;
    }
    out
}

/// Whether two byte slices hold the same bytes.
pub(crate) fn bytes_eq(a: &[u8], b: &[u8]) -> (r: bool)
    ensures
        r == (a@ == b@),
{
    if a.len() != b.len() {
        assert(a@ != b@) by {
            assert(a@.len() != b@.len());
        }
        return false;
    }
    let n = a.len();
    let mut i: usize = 0;
    while i < n
        invariant
            0 <= i <= n,
            n == a@.len() == b@.len(),
            forall|j: int| 0 <= j < i ==> a@[j] == b@[j],
        decreases n - i,
    {
        if a[i] != b[i] {
            assert(a@ != b@);
            return false;
        }
        i = i + 1;
    }
    assert(a@ =~= b@);
    true
}

/// Whether two string slices hold the same characters.
pub(crate) fn str_eq(a: &str, b: &str) -> (r: bool)
    ensures
        r == (a@ == b@),
{
    let r = bytes_eq(a.as_bytes(), b.as_bytes());
    proof {
        if a.spec_bytes() == b.spec_bytes() {
            vstd::utf8::encode_utf8_decode_utf8(a@);
            vstd::utf8::encode_utf8_decode_utf8(b@);
        }
    }
    r
}

/// Copy a subrange of a byte slice into a fresh vector.
pub(crate) fn sub_bytes(s: &[u8], from: usize, to: usize) -> (r: Vec<u8>)
    requires
        from <= to <= s@.len(),
    ensures
        r@ == s@.subrange(from as int, to as int),
{
    let mut out: Vec<u8> = Vec::new();
    let mut i: usize = from;
    while i < to
        invariant
            from <= i <= to <= s@.len(),
            out@ == s@.subrange(from as int, i as int),
        decreases to - i,
    {
        out.push(s[i]);
        assert(out@ == s@.subrange(from as int, i + 1 as int));
        i = i + 1;
    }
    out
}

/// The decimal digit sequence of a natural number, most significant first.
pub open spec fn spec_dec(n: int) -> Seq<char>
    decreases n,
{
    if n < 0 {
        Seq::empty()
    } else if n < 10 {
        seq![spec_digit(n)]
    } else {
        spec_dec(n / 10).push(spec_digit(n % 10))
    }
}

/// The character for one decimal digit.
pub open spec fn spec_digit(d: int) -> char {
    if d == 0 {
        '0'
    } else if d == 1 {
        '1'
    } else if d == 2 {
        '2'
    } else if d == 3 {
        '3'
    } else if d == 4 {
        '4'
    } else if d == 5 {
        '5'
    } else if d == 6 {
        '6'
    } else if d == 7 {
        '7'
    } else if d == 8 {
        '8'
    } else {
        '9'
    }
}

fn digit_str(d: u64) -> (r: &'static str)
    requires
        d < 10,
    ensures
        r@ == seq![spec_digit(d as int)],
{
    proof {
        reveal_strlit("0");
        reveal_strlit("1");
        reveal_strlit("2");
        reveal_strlit("3");
        reveal_strlit("4");
        reveal_strlit("5");
        reveal_strlit("6");
        reveal_strlit("7");
        reveal_strlit("8");
        reveal_strlit("9");
    }
    if d == 0 {
        "0"
    } else if d == 1 {
        "1"
    } else if d == 2 {
        "2"
    } else if d == 3 {
        "3"
    } else if d == 4 {
        "4"
    } else if d == 5 {
        "5"
    } else if d == 6 {
        "6"
    } else if d == 7 {
        "7"
    } else if d == 8 {
        "8"
    } else {
        "9"
    }
}

/// Append the decimal digits of `n` to `out`.
pub(crate) fn push_dec(out: &mut String, n: u64)
    ensures
        final(out)@ == old(out)@ + spec_dec(n as int),
    decreases n,
{
    if n < 10 {
        out.append(digit_str(n));
    } else {
        push_dec(out, n / 10);
        out.append(digit_str(n % 10));
    }
}

/// The decimal form of a signed number: a minus sign for negatives,
/// then the digits of the magnitude.
pub open spec fn spec_dec_i64(n: int) -> Seq<char> {
    if n < 0 {
        seq!['-'] + spec_dec(-n)
    } else {
        spec_dec(n)
    }
}

/// Append the decimal form of a signed number to `out`.
pub(crate) fn push_dec_i64(out: &mut String, n: i64)
    ensures
        final(out)@ == old(out)@ + spec_dec_i64(n as int),
{
    proof {
        reveal_strlit("-");
    }
    if n < 0 {
        out.append("-");
        let mag: u64 = ((-(n + 1)) as u64) + 1;
        assert(mag == -(n as int));
        push_dec(out, mag);
    } else {
        push_dec(out, n as u64);
    }
}

} // verus!
