//! Streaming XMLTV-to-schedule converter: a single forward pass over the
//! guide bytes, with timezone-aware datetime decoding, a size guard, and a
//! display-name index for fuzzy channel matching.
use crate::epg::{
    sort_programs, sort_programs_spec, EpgProgram, EpgSchedule, ProgramView, ScheduleView,
};
use crate::kvmap::KvMap;
use crate::strutil::{
    chars_of, lower_of, lowercase, spec_dec_i64, spec_trim, push_dec_i64, trim_bytes,
    utf8_to_string,
};
use crate::timeutil::{spec_civil_secs, spec_civil_valid, timestamp_utc};
use vstd::prelude::*;
use vstd::string::{StrSliceExecFns, StringSliceAdditionalSpecFns};

verus! {

/// Maximum allowed XML input size (50 MB), a guard against decompression
/// bombs: larger inputs are rejected before any parsing begins.
pub const MAX_XML_SIZE: usize = 52428800;

/// Errors the guide parser can report.
#[derive(Debug)]
pub enum EpgParseError {
    /// The input exceeds the maximum allowed size.
    TooLarge,
}

/// The uppercase image of an ASCII letter's code point; other code points
/// are left as they stand.
pub open spec fn spec_ascii_up(c: char) -> u32 {
    if 97 <= c as u32 <= 122 {
        (c as u32 - 32) as u32
    } else {
        c as u32
    }
}

/// Whether a two-letter code matches a pair of uppercase letters, up to
/// ASCII case.
pub open spec fn code_is(a: u32, b: u32, x: char, y: char) -> bool {
    a == x as u32 && b == y as u32
}

/// The fixed standard-time UTC offset, in seconds, of a two-letter country
/// code, compared without regard to ASCII case; unknown codes map to 0.
pub open spec fn spec_country_offset(s: Seq<char>) -> int {
    if s.len() != 2 {
        0
    } else {
        let a = spec_ascii_up(s[0]);
        let b = spec_ascii_up(s[1]);
        if code_is(a, b, 'G', 'B') || code_is(a, b, 'U', 'K') || code_is(a, b, 'I', 'E') || code_is(
            a,
            b,
            'I',
            'S',
        ) || code_is(a, b, 'P', 'T') {
            0
        } else if code_is(a, b, 'F', 'R') || code_is(a, b, 'D', 'E') || code_is(a, b, 'I', 'T')
            || code_is(a, b, 'E', 'S') || code_is(a, b, 'N', 'L') || code_is(a, b, 'B', 'E')
            || code_is(a, b, 'A', 'T') || code_is(a, b, 'C', 'H') || code_is(a, b, 'P', 'L')
            || code_is(a, b, 'C', 'Z') || code_is(a, b, 'H', 'U') || code_is(a, b, 'S', 'E')
            || code_is(a, b, 'N', 'O') || code_is(a, b, 'D', 'K') || code_is(a, b, 'H', 'R')
            || code_is(a, b, 'R', 'S') || code_is(a, b, 'S', 'I') || code_is(a, b, 'S', 'K')
            || code_is(a, b, 'B', 'A') || code_is(a, b, 'M', 'E') || code_is(a, b, 'M', 'K')
            || code_is(a, b, 'A', 'L') || code_is(a, b, 'M', 'T') || code_is(a, b, 'L', 'U')
            || code_is(a, b, 'L', 'I') {
            3600
        } else if code_is(a, b, 'F', 'I') || code_is(a, b, 'R', 'O') || code_is(a, b, 'B', 'G')
            || code_is(a, b, 'G', 'R') || code_is(a, b, 'E', 'E') || code_is(a, b, 'L', 'V')
            || code_is(a, b, 'L', 'T') || code_is(a, b, 'U', 'A') || code_is(a, b, 'M', 'D')
            || code_is(a, b, 'C', 'Y') || code_is(a, b, 'Z', 'A') {
            7200
        } else if code_is(a, b, 'R', 'U') || code_is(a, b, 'T', 'R') || code_is(a, b, 'B', 'Y')
            || code_is(a, b, 'K', 'E') || code_is(a, b, 'T', 'Z') || code_is(a, b, 'S', 'A')
            || code_is(a, b, 'Q', 'A') || code_is(a, b, 'B', 'H') || code_is(a, b, 'K', 'W')
            || code_is(a, b, 'I', 'Q') {
            10800
        } else if code_is(a, b, 'I', 'N') || code_is(a, b, 'L', 'K') {
            19800
        } else if code_is(a, b, 'V', 'N') || code_is(a, b, 'T', 'H') || code_is(a, b, 'I', 'D')
            || code_is(a, b, 'K', 'H') || code_is(a, b, 'L', 'A') {
            25200
        } else if code_is(a, b, 'C', 'N') || code_is(a, b, 'H', 'K') || code_is(a, b, 'T', 'W')
            || code_is(a, b, 'S', 'G') || code_is(a, b, 'M', 'Y') || code_is(a, b, 'P', 'H')
            || code_is(a, b, 'B', 'N') {
            28800
        } else if code_is(a, b, 'J', 'P') || code_is(a, b, 'K', 'R') {
            32400
        } else if code_is(a, b, 'A', 'U') {
            36000
        } else if code_is(a, b, 'N', 'Z') {
            43200
        } else if code_is(a, b, 'B', 'R') || code_is(a, b, 'A', 'R') || code_is(a, b, 'U', 'Y') {
            -10800
        } else if code_is(a, b, 'V', 'E') || code_is(a, b, 'C', 'L') || code_is(a, b, 'P', 'Y')
            || code_is(a, b, 'B', 'O') {
            -14400
        } else if code_is(a, b, 'U', 'S') || code_is(a, b, 'C', 'A') || code_is(a, b, 'C', 'O')
            || code_is(a, b, 'P', 'E') || code_is(a, b, 'E', 'C') || code_is(a, b, 'P', 'A') {
            -18000
        } else if code_is(a, b, 'M', 'X') || code_is(a, b, 'C', 'R') || code_is(a, b, 'S', 'V')
            || code_is(a, b, 'G', 'T') || code_is(a, b, 'H', 'N') || code_is(a, b, 'N', 'I') {
            -21600
        } else {
            0
        }
    }
}

fn ascii_up(c: char) -> (r: u32)
    ensures
        r == spec_ascii_up(c),
{
    let u = c as u32;
    if 97 <= u && u <= 122 {
        u - 32
    } else {
        u
    }
}

fn ce(a: u32, b: u32, x: char, y: char) -> (r: bool)
    ensures
        r == code_is(a, b, x, y),
{
    a == x as u32 && b == y as u32
}

/// Map a two-letter country code to its standard (winter) UTC offset in
/// seconds. Guide timestamps carrying an explicit offset override this
/// default. Unknown codes map to offset 0.
pub fn country_utc_offset(country_code: &str) -> (r: i32)
    ensures
        r == spec_country_offset(country_code@),
{
    let n = country_code.unicode_len();
    if n != 2 {
        return 0;
    }
    let a = ascii_up(country_code.get_char(0));
    let b = ascii_up(country_code.get_char(1));
    if ce(a, b, 'G', 'B') || ce(a, b, 'U', 'K') || ce(a, b, 'I', 'E') || ce(a, b, 'I', 'S') || ce(
        a,
        b,
        'P',
        'T',
    ) {
        0
    } else if ce(a, b, 'F', 'R') || ce(a, b, 'D', 'E') || ce(a, b, 'I', 'T') || ce(a, b, 'E', 'S')
        || ce(a, b, 'N', 'L') || ce(a, b, 'B', 'E') || ce(a, b, 'A', 'T') || ce(a, b, 'C', 'H')
        || ce(a, b, 'P', 'L') || ce(a, b, 'C', 'Z') || ce(a, b, 'H', 'U') || ce(a, b, 'S', 'E')
        || ce(a, b, 'N', 'O') || ce(a, b, 'D', 'K') || ce(a, b, 'H', 'R') || ce(a, b, 'R', 'S')
        || ce(a, b, 'S', 'I') || ce(a, b, 'S', 'K') || ce(a, b, 'B', 'A') || ce(a, b, 'M', 'E')
        || ce(a, b, 'M', 'K') || ce(a, b, 'A', 'L') || ce(a, b, 'M', 'T') || ce(a, b, 'L', 'U')
        || ce(a, b, 'L', 'I') {
        3600
    } else if ce(a, b, 'F', 'I') || ce(a, b, 'R', 'O') || ce(a, b, 'B', 'G') || ce(a, b, 'G', 'R')
        || ce(a, b, 'E', 'E') || ce(a, b, 'L', 'V') || ce(a, b, 'L', 'T') || ce(a, b, 'U', 'A')
        || ce(a, b, 'M', 'D') || ce(a, b, 'C', 'Y') || ce(a, b, 'Z', 'A') {
        7200
    } else if ce(a, b, 'R', 'U') || ce(a, b, 'T', 'R') || ce(a, b, 'B', 'Y') || ce(a, b, 'K', 'E')
        || ce(a, b, 'T', 'Z') || ce(a, b, 'S', 'A') || ce(a, b, 'Q', 'A') || ce(a, b, 'B', 'H')
        || ce(a, b, 'K', 'W') || ce(a, b, 'I', 'Q') {
        10800
    } else if ce(a, b, 'I', 'N') || ce(a, b, 'L', 'K') {
        19800
    } else if ce(a, b, 'V', 'N') || ce(a, b, 'T', 'H') || ce(a, b, 'I', 'D') || ce(a, b, 'K', 'H')
        || ce(a, b, 'L', 'A') {
        25200
    } else if ce(a, b, 'C', 'N') || ce(a, b, 'H', 'K') || ce(a, b, 'T', 'W') || ce(a, b, 'S', 'G')
        || ce(a, b, 'M', 'Y') || ce(a, b, 'P', 'H') || ce(a, b, 'B', 'N') {
        28800
    } else if ce(a, b, 'J', 'P') || ce(a, b, 'K', 'R') {
        32400
    } else if ce(a, b, 'A', 'U') {
        36000
    } else if ce(a, b, 'N', 'Z') {
        43200
    } else if ce(a, b, 'B', 'R') || ce(a, b, 'A', 'R') || ce(a, b, 'U', 'Y') {
        -10800
    } else if ce(a, b, 'V', 'E') || ce(a, b, 'C', 'L') || ce(a, b, 'P', 'Y') || ce(a, b, 'B', 'O') {
        -14400
    } else if ce(a, b, 'U', 'S') || ce(a, b, 'C', 'A') || ce(a, b, 'C', 'O') || ce(a, b, 'P', 'E')
        || ce(a, b, 'E', 'C') || ce(a, b, 'P', 'A') {
        -18000
    } else if ce(a, b, 'M', 'X') || ce(a, b, 'C', 'R') || ce(a, b, 'S', 'V') || ce(a, b, 'G', 'T')
        || ce(a, b, 'H', 'N') || ce(a, b, 'N', 'I') {
        -21600
    } else {
        0
    }
}

/// Whether a byte is an ASCII decimal digit.
pub open spec fn spec_is_digit(b: u8) -> bool {
    48 <= b <= 57
}

/// The numeric value of a digit byte.
pub open spec fn spec_digit_val(b: u8) -> int {
    b - 48
}

/// Whether the bytes in `[from, to)` are all digits.
pub open spec fn spec_all_digits(s: Seq<u8>, from: int, to: int) -> bool {
    forall|k: int| from <= k < to ==> spec_is_digit(#[trigger] s[k])
}

/// The number the digit bytes in `[from, to)` denote, most significant
/// first.
pub open spec fn spec_num(s: Seq<u8>, from: int, to: int) -> int
    decreases to - from,
{
    if from >= to {
        0
    } else {
        spec_num(s, from, to - 1) * 10 + spec_digit_val(s[to - 1])
    }
}

/// Read the digits in `[from, to)` as a number. The span is at most four
/// digits wide, so the result fits comfortably.
fn read_num(s: &[u8], from: usize, to: usize) -> (r: Option<u32>)
    requires
        from <= to <= s@.len(),
        to - from <= 4,
    ensures
        r is Some <==> spec_all_digits(s@, from as int, to as int),
        r is Some ==> r->0 == spec_num(s@, from as int, to as int) && r->0 <= 9999,
        (r is Some && to - from <= 2) ==> r->0 <= 99,
{
    proof {
        lemma_num_bounds(s@, from as int, to as int);
    }
    let mut acc: u32 = 0;
    let mut i: usize = from;
    while i < to
        invariant
            from <= i <= to <= s@.len(),
            to - from <= 4,
            spec_all_digits(s@, from as int, i as int),
            acc == spec_num(s@, from as int, i as int),
            acc <= 9999,
        decreases to - i,
    {
        let b = s[i];
        if b < 48 || b > 57 {
            return None;
        }
        proof {
            lemma_num_bounds(s@, from as int, i as int);
            assert(acc <= 999);
            lemma_num_bounds(s@, from as int, i + 1 as int);
        }
        acc = acc * 10 + (b - 48) as u32;
        i = i + 1;
    }
    Some(acc)
}

proof fn lemma_num_bounds(s: Seq<u8>, from: int, to: int)
    requires
        from <= to,
    ensures
        spec_all_digits(s, from, to) ==> 0 <= spec_num(s, from, to),
        (spec_all_digits(s, from, to) && to - from <= 1) ==> spec_num(s, from, to) <= 9,
        (spec_all_digits(s, from, to) && to - from <= 2) ==> spec_num(s, from, to) <= 99,
        (spec_all_digits(s, from, to) && to - from <= 3) ==> spec_num(s, from, to) <= 999,
        (spec_all_digits(s, from, to) && to - from <= 4) ==> spec_num(s, from, to) <= 9999,
    decreases to - from,
{
    if from < to {
        lemma_num_bounds(s, from, to - 1);
        if spec_all_digits(s, from, to) {
            assert(spec_all_digits(s, from, to - 1));
        }
    }
}

/// Parse a timezone offset of the form `+HHMM` / `-HHMM` (the sign
/// optional) into total seconds east of UTC. Whitespace around the offset
/// is ignored; an empty offset means zero; anything else malformed yields
/// `None`. Trailing bytes after the four digits are ignored.
pub open spec fn spec_parse_tz(b: Seq<u8>) -> Option<int> {
    let t = spec_trim(b);
    if t.len() == 0 {
        Some(0)
    } else {
        let sign: int = if t[0] == 45 {
            -1
        } else {
            1
        };
        let r = if t[0] == 43 || t[0] == 45 {
            t.drop_first()
        } else {
            t
        };
        if r.len() < 4 || !spec_all_digits(r, 0, 4) {
            None
        } else {
            Some(sign * (spec_num(r, 0, 2) * 3600 + spec_num(r, 2, 4) * 60))
        }
    }
}

/// Parse a timezone offset string like `+0100` or `-0530` into total
/// seconds.
pub fn parse_tz_offset(s: &str) -> (r: Option<i32>)
    ensures
        match r {
            Some(v) => spec_parse_tz(s.spec_bytes()) == Some(v as int),
            None => spec_parse_tz(s.spec_bytes()) is None,
        },
{
    let bytes = s.as_bytes();
    parse_tz_bytes(bytes)
}

/// Parse a timezone offset from raw bytes.
pub(crate) fn parse_tz_bytes(bytes: &[u8]) -> (r: Option<i32>)
    ensures
        match r {
            Some(v) => spec_parse_tz(bytes@) == Some(v as int) && -400_000 <= v <= 400_000,
            None => spec_parse_tz(bytes@) is None,
        },
{
    let t = trim_bytes(bytes);
    if t.len() == 0 {
        return Some(0);
    }
    let (neg, skip): (bool, usize) = if t[0] == 45 {
        (true, 1)
    } else if t[0] == 43 {
        (false, 1)
    } else {
        (false, 0)
    };
    let ghost rr = if t@[0] == 43 || t@[0] == 45 {
        t@.drop_first()
    } else {
        t@
    };
    if t.len() - skip < 4 {
        return None;
    }
    let hours = match read_num(t.as_slice(), skip, skip + 2) {
        Some(h) => h,
        None => {
            proof {
                let k = choose|k: int| skip <= k < skip + 2 && !spec_is_digit(t@[k]);
                assert(!spec_is_digit(rr[k - skip]));
            }
            return None;
        },
    };
    let mins = match read_num(t.as_slice(), skip + 2, skip + 4) {
        Some(m) => m,
        None => {
            proof {
                let k = choose|k: int| skip + 2 <= k < skip + 4 && !spec_is_digit(t@[k]);
                assert(!spec_is_digit(rr[k - skip]));
            }
            return None;
        },
    };
    let total: i32 = (hours as i32) * 3600 + (mins as i32) * 60;
    let signed: i32 = if neg {
        -total
    } else {
        total
    };
    proof {
        assert(spec_all_digits(rr, 0, 4)) by {
            assert forall|k: int| 0 <= k < 4 implies spec_is_digit(rr[k]) by {
                if skip == 1 {
                    assert(rr[k] == t@[k + 1]);
                    assert(spec_is_digit(t@[k + 1]));
                } else {
                    assert(spec_is_digit(t@[k]));
                }
            }
        }
        assert(spec_num(rr, 0, 2) == spec_num(t@, skip as int, skip + 2)) by {
            lemma_num_shift(t@, rr, skip as int, 0, 2);
        }
        assert(spec_num(rr, 2, 4) == spec_num(t@, skip + 2 as int, skip + 4)) by {
            lemma_num_shift(t@, rr, skip as int, 2, 4);
        }
        let sgn: int = if t@[0] == 45 {
            -1
        } else {
            1
        };
        assert(hours == spec_num(rr, 0, 2) && mins == spec_num(rr, 2, 4));
        assert(signed as int == sgn * (spec_num(rr, 0, 2) * 3600 + spec_num(rr, 2, 4) * 60));
        assert(spec_parse_tz(bytes@) == Some(sgn * (spec_num(rr, 0, 2) * 3600 + spec_num(rr, 2, 4) * 60)));
    }
    Some(signed)
}

proof fn lemma_num_shift(t: Seq<u8>, r: Seq<u8>, skip: int, from: int, to: int)
    requires
        skip == 0 ==> r == t,
        skip == 1 ==> t.len() >= 1 && r == t.drop_first(),
        0 <= skip <= 1,
        0 <= from <= to,
        to + skip <= t.len(),
    ensures
        spec_num(r, from, to) == spec_num(t, from + skip, to + skip),
    decreases to - from,
{
    if from < to {
        lemma_num_shift(t, r, skip, from, to - 1);
        if skip == 1 {
            assert(r[to - 1] == t[to - 1 + 1]);
        }
    }
}

/// Decode an XMLTV datetime: a 14-digit local timestamp `YYYYMMDDHHmmss`,
/// optionally followed by a `+HHMM`/`-HHMM` offset. A well-formed explicit
/// offset wins; otherwise `default_offset` applies. The local time combined
/// with the resolved offset yields the UTC instant; a malformed timestamp,
/// an impossible date, or an offset of a day or more yields `None`.
pub open spec fn spec_parse_dt(b: Seq<u8>, default_offset: int) -> Option<int> {
    let t = spec_trim(b);
    let off: int = if t.len() > 14 {
        match spec_parse_tz(t.skip(14)) {
            Some(o) => o,
            None => default_offset,
        }
    } else {
        default_offset
    };
    if t.len() < 14 || !spec_all_digits(t, 0, 14) {
        None
    } else {
        let y = spec_num(t, 0, 4);
        let mo = spec_num(t, 4, 6);
        let d = spec_num(t, 6, 8);
        let h = spec_num(t, 8, 10);
        let mi = spec_num(t, 10, 12);
        let sec = spec_num(t, 12, 14);
        if !(spec_civil_valid(y, mo, d) && h < 24 && mi < 60 && sec < 60) {
            None
        } else if !(-86400 < off < 86400) {
            None
        } else {
            Some(spec_civil_secs(y, mo, d, h, mi, sec) - off)
        }
    }
}

/// Parse an XMLTV datetime into a UTC instant, in seconds since the epoch.
pub fn parse_xmltv_datetime(b: &[u8], default_offset_secs: i32) -> (r: Option<i64>)
    ensures
        match r {
            Some(v) => spec_parse_dt(b@, default_offset_secs as int) == Some(v as int),
            None => spec_parse_dt(b@, default_offset_secs as int) is None,
        },
{
    let t = trim_bytes(b);
    let off: i64 = if t.len() > 14 {
        let rest: Vec<u8> = crate::strutil::sub_bytes(t.as_slice(), 14, t.len());
        proof {
            assert(rest@ =~= t@.skip(14));
        }
        match parse_tz_bytes(rest.as_slice()) {
            Some(o) => o as i64,
            None => default_offset_secs as i64,
        }
    } else {
        default_offset_secs as i64
    };
    if t.len() < 14 {
        return None;
    }
    let y = match read_num(t.as_slice(), 0, 4) {
        Some(v) => v,
        None => {
            return None;
        },
    };
    let mo = match read_num(t.as_slice(), 4, 6) {
        Some(v) => v,
        None => {
            return None;
        },
    };
    let d = match read_num(t.as_slice(), 6, 8) {
        Some(v) => v,
        None => {
            return None;
        },
    };
    let h = match read_num(t.as_slice(), 8, 10) {
        Some(v) => v,
        None => {
            return None;
        },
    };
    let mi = match read_num(t.as_slice(), 10, 12) {
        Some(v) => v,
        None => {
            return None;
        },
    };
    let sec = match read_num(t.as_slice(), 12, 14) {
        Some(v) => v,
        None => {
            return None;
        },
    };
    let base = match timestamp_utc(y as u64, mo as u64, d as u64, h as u64, mi as u64, sec as u64) {
        Some(v) => v,
        None => {
            return None;
        },
    };
    if !(-86400 < off && off < 86400) {
        return None;
    }
    proof {
        assert(spec_all_digits(t@, 0, 14));
    }
    Some(base - off)
}

/// Mathematical state of the streaming pass: the nesting flags, the fields
/// of the programme being read, and the two result maps.
pub struct PState {
    pub in_programme: bool,
    pub cur_channel: Seq<char>,
    pub cur_start: Option<int>,
    pub cur_stop: Option<int>,
    pub in_title: bool,
    pub in_desc: bool,
    pub in_category: bool,
    pub cur_title: Seq<char>,
    pub cur_desc: Seq<char>,
    pub cur_category: Seq<char>,
    pub cur_icon: Option<Seq<char>>,
    pub in_channel: bool,
    pub channel_elem_id: Seq<char>,
    pub in_display_name: bool,
    pub schedules: Map<Seq<char>, ScheduleView>,
    pub display_names: Map<Seq<char>, Seq<char>>,
}

/// The state before the first event: outside every element, with empty
/// results.
pub open spec fn init_state() -> PState {
    PState {
        in_programme: false,
        cur_channel: Seq::empty(),
        cur_start: None,
        cur_stop: None,
        in_title: false,
        in_desc: false,
        in_category: false,
        cur_title: Seq::empty(),
        cur_desc: Seq::empty(),
        cur_category: Seq::empty(),
        cur_icon: None,
        in_channel: false,
        channel_elem_id: Seq::empty(),
        in_display_name: false,
        schedules: Map::empty(),
        display_names: Map::empty(),
    }
}

/// Fold the attributes of a channel element: each readable `id` attribute
/// overwrites the captured channel id.
pub open spec fn fold_channel_id(attrs: Seq<(Seq<u8>, Seq<u8>)>, i: int, cur: Seq<char>) -> Seq<
    char,
>
    decreases attrs.len() - i,
{
    if i < 0 || i >= attrs.len() {
        cur
    } else {
        let next = if attrs[i].0 == ("id").spec_bytes() && chars_of(attrs[i].1) is Some {
            chars_of(attrs[i].1)->0
        } else {
            cur
        };
        fold_channel_id(attrs, i + 1, next)
    }
}

/// Fold the attributes of a programme element: the channel reference and
/// the decoded start and stop instants. An unreadable channel reference
/// reads as empty; a malformed timestamp reads as absent.
pub open spec fn fold_prog_attrs(
    attrs: Seq<(Seq<u8>, Seq<u8>)>,
    i: int,
    ch: Seq<char>,
    st: Option<int>,
    sp: Option<int>,
    off: int,
) -> (Seq<char>, Option<int>, Option<int>)
    decreases attrs.len() - i,
{
    if i < 0 || i >= attrs.len() {
        (ch, st, sp)
    } else {
        let k = attrs[i].0;
        let v = attrs[i].1;
        let ch2 = if k == ("channel").spec_bytes() {
            if chars_of(v) is Some {
                chars_of(v)->0
            } else {
                Seq::empty()
            }
        } else {
            ch
        };
        let st2 = if k == ("start").spec_bytes() {
            spec_parse_dt(v, off)
        } else {
            st
        };
        let sp2 = if k == ("stop").spec_bytes() {
            spec_parse_dt(v, off)
        } else {
            sp
        };
        fold_prog_attrs(attrs, i + 1, ch2, st2, sp2, off)
    }
}

/// Fold the attributes of an icon element: each readable, non-empty `src`
/// attribute overwrites the icon URL.
pub open spec fn fold_icon(attrs: Seq<(Seq<u8>, Seq<u8>)>, i: int, cur: Option<Seq<char>>) -> Option<
    Seq<char>,
>
    decreases attrs.len() - i,
{
    if i < 0 || i >= attrs.len() {
        cur
    } else {
        let next = if attrs[i].0 == ("src").spec_bytes() && chars_of(attrs[i].1) is Some && attrs[i].1.len()
            != 0 {
            Some(chars_of(attrs[i].1)->0)
        } else {
            cur
        };
        fold_icon(attrs, i + 1, next)
    }
}

/// The programme a closed programme element denotes.
pub open spec fn spec_program_of(st: PState) -> ProgramView {
    ProgramView {
        id: st.cur_channel + seq!['-'] + spec_dec_i64(st.cur_start->0),
        channel_id: st.cur_channel,
        title: st.cur_title,
        description: if st.cur_desc.len() == 0 {
            None
        } else {
            Some(st.cur_desc)
        },
        start: st.cur_start->0,
        end: st.cur_stop->0,
        category: if st.cur_category.len() == 0 {
            None
        } else {
            Some(st.cur_category)
        },
        icon_url: st.cur_icon,
    }
}

/// Whether a closed programme element is kept: it has a title, both
/// instants decoded, and its channel passes the restricting set (an empty
/// set accepts all).
pub open spec fn spec_keep(st: PState, known: Seq<Seq<char>>, accept_all: bool) -> bool {
    &&& st.cur_title.len() != 0
    &&& (accept_all || known.contains(st.cur_channel))
    &&& st.cur_start is Some
    &&& st.cur_stop is Some
}

/// Append a kept programme to its channel's schedule, creating the
/// schedule on first sight of the channel.
pub open spec fn spec_commit(st: PState) -> Map<Seq<char>, ScheduleView> {
    let prog = spec_program_of(st);
    if st.schedules.contains_key(st.cur_channel) {
        st.schedules.insert(
            st.cur_channel,
            ScheduleView {
                channel_id: st.schedules[st.cur_channel].channel_id,
                programs: st.schedules[st.cur_channel].programs.push(prog),
            },
        )
    } else {
        st.schedules.insert(
            st.cur_channel,
            ScheduleView { channel_id: st.cur_channel, programs: seq![prog] },
        )
    }
}

/// One step of the streaming pass.
pub open spec fn spec_step(
    st: PState,
    ev: crate::xml::GEvent,
    known: Seq<Seq<char>>,
    accept_all: bool,
    off: int,
) -> PState {
    match ev {
        crate::xml::GEvent::Start { name, attrs, empty } => {
            if empty {
                if name == ("icon").spec_bytes() && st.in_programme {
                    PState { cur_icon: fold_icon(attrs, 0, st.cur_icon), ..st }
                } else {
                    st
                }
            } else if name == ("channel").spec_bytes() {
                PState {
                    in_channel: true,
                    channel_elem_id: fold_channel_id(attrs, 0, Seq::empty()),
                    ..st
                }
            } else if name == ("display-name").spec_bytes() && st.in_channel {
                PState { in_display_name: true, ..st }
            } else if name == ("programme").spec_bytes() {
                let (ch, s1, s2) = fold_prog_attrs(attrs, 0, Seq::empty(), None, None, off);
                PState {
                    in_programme: true,
                    cur_channel: ch,
                    cur_start: s1,
                    cur_stop: s2,
                    cur_title: Seq::empty(),
                    cur_desc: Seq::empty(),
                    cur_category: Seq::empty(),
                    cur_icon: None,
                    ..st
                }
            } else if name == ("title").spec_bytes() && st.in_programme {
                PState { in_title: true, ..st }
            } else if name == ("desc").spec_bytes() && st.in_programme {
                PState { in_desc: true, ..st }
            } else if name == ("category").spec_bytes() && st.in_programme {
                PState { in_category: true, ..st }
            } else {
                st
            }
        },
        crate::xml::GEvent::Text { content } => {
            if st.in_display_name {
                if content.len() != 0 && chars_of(content) is Some && st.channel_elem_id.len()
                    != 0 {
                    let key = lower_of(chars_of(content)->0);
                    PState {
                        display_names: if st.display_names.contains_key(key) {
                            st.display_names
                        } else {
                            st.display_names.insert(key, st.channel_elem_id)
                        },
                        ..st
                    }
                } else {
                    st
                }
            } else if st.in_title {
                if chars_of(content) is Some {
                    PState { cur_title: st.cur_title + chars_of(content)->0, ..st }
                } else {
                    st
                }
            } else if st.in_desc {
                if chars_of(content) is Some {
                    PState { cur_desc: st.cur_desc + chars_of(content)->0, ..st }
                } else {
                    st
                }
            } else if st.in_category {
                if chars_of(content) is Some {
                    PState { cur_category: st.cur_category + chars_of(content)->0, ..st }
                } else {
                    st
                }
            } else {
                st
            }
        },
        crate::xml::GEvent::End { name } => {
            if name == ("channel").spec_bytes() {
                PState { in_channel: false, ..st }
            } else if name == ("display-name").spec_bytes() {
                PState { in_display_name: false, ..st }
            } else if name == ("programme").spec_bytes() {
                if spec_keep(st, known, accept_all) {
                    PState { in_programme: false, schedules: spec_commit(st), ..st }
                } else {
                    PState { in_programme: false, ..st }
                }
            } else if name == ("title").spec_bytes() {
                PState { in_title: false, ..st }
            } else if name == ("desc").spec_bytes() {
                PState { in_desc: false, ..st }
            } else if name == ("category").spec_bytes() {
                PState { in_category: false, ..st }
            } else {
                st
            }
        },
    }
}

/// Run the streaming pass from position `i` to the end of the document.
pub open spec fn spec_run(
    s: Seq<u8>,
    i: int,
    st: PState,
    known: Seq<Seq<char>>,
    accept_all: bool,
    off: int,
) -> PState
    decreases s.len() - i,
    when true
    via spec_run_decreases
{
    if i < 0 || i >= s.len() {
        st
    } else {
        match crate::xml::spec_next_event(s, i) {
            None => st,
            Some((evo, j)) => {
                let st2 = match evo {
                    Some(ev) => spec_step(st, ev, known, accept_all, off),
                    None => st,
                };
                spec_run(s, j, st2, known, accept_all, off)
            },
        }
    }
}

#[via_fn]
proof fn spec_run_decreases(
    s: Seq<u8>,
    i: int,
    st: PState,
    known: Seq<Seq<char>>,
    accept_all: bool,
    off: int,
) {
    if 0 <= i < s.len() {
        crate::xml::lemma_next_event_progress(s, i);
    }
}

/// Executable state of the streaming pass, mirroring `PState`.
struct PaState {
    in_programme: bool,
    cur_channel: String,
    cur_start: Option<i64>,
    cur_stop: Option<i64>,
    in_title: bool,
    in_desc: bool,
    in_category: bool,
    cur_title: String,
    cur_desc: String,
    cur_category: String,
    cur_icon: Option<String>,
    in_channel: bool,
    channel_elem_id: String,
    in_display_name: bool,
    schedules: KvMap<EpgSchedule>,
    display_names: KvMap<String>,
}

impl View for PaState {
    type V = PState;

    closed spec fn view(&self) -> PState {
        PState {
            in_programme: self.in_programme,
            cur_channel: self.cur_channel@,
            cur_start: match self.cur_start {
                Some(v) => Some(v as int),
                None => None,
            },
            cur_stop: match self.cur_stop {
                Some(v) => Some(v as int),
                None => None,
            },
            in_title: self.in_title,
            in_desc: self.in_desc,
            in_category: self.in_category,
            cur_title: self.cur_title@,
            cur_desc: self.cur_desc@,
            cur_category: self.cur_category@,
            cur_icon: self.cur_icon.deep_view(),
            in_channel: self.in_channel,
            channel_elem_id: self.channel_elem_id@,
            in_display_name: self.in_display_name,
            schedules: self.schedules@,
            display_names: self.display_names@,
        }
    }
}

impl PaState {
    spec fn wf(&self) -> bool {
        self.schedules.wf() && self.display_names.wf()
    }

    fn new() -> (r: Self)
        ensures
            r@ == init_state(),
            r.wf(),
    {
        let r = PaState {
            in_programme: false,
            cur_channel: String::new(),
            cur_start: None,
            cur_stop: None,
            in_title: false,
            in_desc: false,
            in_category: false,
            cur_title: String::new(),
            cur_desc: String::new(),
            cur_category: String::new(),
            cur_icon: None,
            in_channel: false,
            channel_elem_id: String::new(),
            in_display_name: false,
            schedules: KvMap::new(),
            display_names: KvMap::new(),
        };
        proof {
            assert(r@.cur_channel =~= init_state().cur_channel);
            assert(r@ == init_state());
        }
        r
    }
}

/// Whether a list of strings holds one with the given characters.
fn contains_string(hay: &Vec<String>, needle: &String) -> (r: bool)
    ensures
        r == hay.deep_view().contains(needle@),
{
    let n = hay.len();
    let mut i: usize = 0;
    while i < n
        invariant
            0 <= i <= n,
            n == hay@.len(),
            forall|j: int| 0 <= j < i ==> hay.deep_view()[j] != needle@,
        decreases n - i,
    {
        if crate::strutil::str_eq(hay[i].as_str(), needle.as_str()) {
            proof {
                assert(hay.deep_view()[i as int] == needle@);
            }
            return true;
        }
        proof {
            assert(hay.deep_view()[i as int] == hay@[i as int]@);
        }
        i = i + 1;
    }
    proof {
        if hay.deep_view().contains(needle@) {
            let j = choose|j: int|
                0 <= j < hay.deep_view().len() && hay.deep_view()[j] == needle@;
            assert(false);
        }
    }
    false
}

/// Read the channel id from a channel element's attributes.
fn read_channel_id(attrs: &Vec<(Vec<u8>, Vec<u8>)>) -> (r: String)
    ensures
        r@ == fold_channel_id(
            Seq::new(attrs@.len(), |i: int| (attrs@[i].0@, attrs@[i].1@)),
            0,
            Seq::empty(),
        ),
{
    let ghost sattrs = Seq::new(attrs@.len(), |i: int| (attrs@[i].0@, attrs@[i].1@));
    let n = attrs.len();
    let mut cur = String::new();
    let mut i: usize = 0;
    while i < n
        invariant
            0 <= i <= n,
            n == attrs@.len(),
            sattrs == Seq::new(attrs@.len(), |k: int| (attrs@[k].0@, attrs@[k].1@)),
            fold_channel_id(sattrs, 0, Seq::empty()) == fold_channel_id(sattrs, i as int, cur@),
        decreases n - i,
    {
        proof {
            assert(sattrs[i as int] == (attrs@[i as int].0@, attrs@[i as int].1@));
        }
        if crate::xml::tag_is(attrs[i].0.as_slice(), "id") {
            let owned = vstd::slice::slice_to_vec(attrs[i].1.as_slice());
            match utf8_to_string(owned) {
                Some(s) => {
                    cur = s;
                },
                None => {},
            }
        }
        i = i + 1;
    }
    cur
}

/// Read the channel reference and the start and stop instants from a
/// programme element's attributes.
fn read_prog_attrs(attrs: &Vec<(Vec<u8>, Vec<u8>)>, off: i32) -> (r: (String, Option<i64>, Option<
    i64,
>))
    ensures
        ({
            let folded = fold_prog_attrs(
                Seq::new(attrs@.len(), |i: int| (attrs@[i].0@, attrs@[i].1@)),
                0,
                Seq::empty(),
                None,
                None,
                off as int,
            );
            &&& r.0@ == folded.0
            &&& (match r.1 {
                Some(v) => folded.1 == Some(v as int),
                None => folded.1 is None,
            })
            &&& (match r.2 {
                Some(v) => folded.2 == Some(v as int),
                None => folded.2 is None,
            })
        }),
{
    let ghost sattrs = Seq::new(attrs@.len(), |i: int| (attrs@[i].0@, attrs@[i].1@));
    let n = attrs.len();
    let mut ch = String::new();
    let mut start: Option<i64> = None;
    let mut stop: Option<i64> = None;
    let mut i: usize = 0;
    while i < n
        invariant
            0 <= i <= n,
            n == attrs@.len(),
            sattrs == Seq::new(attrs@.len(), |k: int| (attrs@[k].0@, attrs@[k].1@)),
            ({
                let full = fold_prog_attrs(sattrs, 0, Seq::empty(), None, None, off as int);
                let part = fold_prog_attrs(
                    sattrs,
                    i as int,
                    ch@,
                    match start {
                        Some(v) => Some(v as int),
                        None => None,
                    },
                    match stop {
                        Some(v) => Some(v as int),
                        None => None,
                    },
                    off as int,
                );
                full == part
            }),
        decreases n - i,
    {
        proof {
            assert(sattrs[i as int] == (attrs@[i as int].0@, attrs@[i as int].1@));
        }
        if crate::xml::tag_is(attrs[i].0.as_slice(), "channel") {
            let owned = vstd::slice::slice_to_vec(attrs[i].1.as_slice());
            match utf8_to_string(owned) {
                Some(s) => {
                    ch = s;
                },
                None => {
                    ch = String::new();
                },
            }
        }
        if crate::xml::tag_is(attrs[i].0.as_slice(), "start") {
            start = parse_xmltv_datetime(attrs[i].1.as_slice(), off);
        }
        if crate::xml::tag_is(attrs[i].0.as_slice(), "stop") {
            stop = parse_xmltv_datetime(attrs[i].1.as_slice(), off);
        }
        i = i + 1;
    }
    (ch, start, stop)
}

/// Read the icon URL from an icon element's attributes.
fn read_icon(attrs: &Vec<(Vec<u8>, Vec<u8>)>, cur: Option<String>) -> (r: Option<String>)
    ensures
        r.deep_view() == fold_icon(
            Seq::new(attrs@.len(), |i: int| (attrs@[i].0@, attrs@[i].1@)),
            0,
            cur.deep_view(),
        ),
{
    let ghost sattrs = Seq::new(attrs@.len(), |i: int| (attrs@[i].0@, attrs@[i].1@));
    let n = attrs.len();
    let mut acc = cur;
    let mut i: usize = 0;
    while i < n
        invariant
            0 <= i <= n,
            n == attrs@.len(),
            sattrs == Seq::new(attrs@.len(), |k: int| (attrs@[k].0@, attrs@[k].1@)),
            fold_icon(sattrs, 0, cur.deep_view()) == fold_icon(sattrs, i as int, acc.deep_view()),
        decreases n - i,
    {
        proof {
            assert(sattrs[i as int] == (attrs@[i as int].0@, attrs@[i as int].1@));
        }
        if crate::xml::tag_is(attrs[i].0.as_slice(), "src") && attrs[i].1.len() != 0 {
            let owned = vstd::slice::slice_to_vec(attrs[i].1.as_slice());
            match utf8_to_string(owned) {
                Some(s) => {
                    acc = Some(s);
                },
                None => {},
            }
        }
        i = i + 1;
    }
    acc
}

/// Apply one tokenizer event to the parse state, mirroring `spec_step`.
fn apply_event(st: &mut PaState, ev: crate::xml::RawEvent, known: &Vec<String>, accept_all: bool, off: i32)
    requires
        old(st).wf(),
    ensures
        final (st)@ == spec_step(old(st)@, ev@, known.deep_view(), accept_all, off as int),
        final (st).wf(),
{
    let ghost gev = ev@;
    let ghost gknown = known.deep_view();
    match ev {
        crate::xml::RawEvent::StartTag { name, attrs, empty } => {
            let is_icon = crate::xml::tag_is(name.as_slice(), "icon");
            let is_channel = crate::xml::tag_is(name.as_slice(), "channel");
            let is_dn = crate::xml::tag_is(name.as_slice(), "display-name");
            let is_programme = crate::xml::tag_is(name.as_slice(), "programme");
            let is_title = crate::xml::tag_is(name.as_slice(), "title");
            let is_desc = crate::xml::tag_is(name.as_slice(), "desc");
            let is_category = crate::xml::tag_is(name.as_slice(), "category");
            if empty {
                if is_icon && st.in_programme {
                    let cur = crate::epg::clone_opt_string(&st.cur_icon);
                    st.cur_icon = read_icon(&attrs, cur);
                }
            } else if is_channel {
                st.in_channel = true;
                st.channel_elem_id = read_channel_id(&attrs);
            } else if is_dn && st.in_channel {
                st.in_display_name = true;
            } else if is_programme {
                let (ch, s1, s2) = read_prog_attrs(&attrs, off);
                st.in_programme = true;
                st.cur_channel = ch;
                st.cur_start = s1;
                st.cur_stop = s2;
                st.cur_title = String::new();
                st.cur_desc = String::new();
                st.cur_category = String::new();
                st.cur_icon = None;
            } else if is_title && st.in_programme {
                st.in_title = true;
            } else if is_desc && st.in_programme {
                st.in_desc = true;
            } else if is_category && st.in_programme {
                st.in_category = true;
            }
            proof {
                assert(st@ == spec_step(old(st)@, gev, gknown, accept_all, off as int));
            }
        },
        crate::xml::RawEvent::TextRun { content } => {
            if st.in_display_name {
                if content.len() != 0 && !st.channel_elem_id.as_str().is_empty() {
                    match utf8_to_string(content) {
                        Some(s) => {
                            let key = lowercase(s.as_str());
                            st.display_names.insert_if_absent(key, st.channel_elem_id.clone());
                        },
                        None => {},
                    }
                }
            } else if st.in_title {
                match utf8_to_string(content) {
                    Some(s) => {
                        st.cur_title.append(s.as_str());
                    },
                    None => {},
                }
            } else if st.in_desc {
                match utf8_to_string(content) {
                    Some(s) => {
                        st.cur_desc.append(s.as_str());
                    },
                    None => {},
                }
            } else if st.in_category {
                match utf8_to_string(content) {
                    Some(s) => {
                        st.cur_category.append(s.as_str());
                    },
                    None => {},
                }
            }
            proof {
                assert(st@ == spec_step(old(st)@, gev, gknown, accept_all, off as int));
            }
        },
        crate::xml::RawEvent::EndTag { name } => {
            let is_channel = crate::xml::tag_is(name.as_slice(), "channel");
            let is_dn = crate::xml::tag_is(name.as_slice(), "display-name");
            let is_programme = crate::xml::tag_is(name.as_slice(), "programme");
            let is_title = crate::xml::tag_is(name.as_slice(), "title");
            let is_desc = crate::xml::tag_is(name.as_slice(), "desc");
            let is_category = crate::xml::tag_is(name.as_slice(), "category");
            if is_channel {
                st.in_channel = false;
            } else if is_dn {
                st.in_display_name = false;
            } else if is_programme {
                let keep = !st.cur_title.as_str().is_empty() && (accept_all || contains_string(
                    known,
                    &st.cur_channel,
                )) && st.cur_start.is_some() && st.cur_stop.is_some();
                if keep {
                    let start: i64 = match st.cur_start {
                        Some(v) => v,
                        None => 0,
                    };
                    let stop: i64 = match st.cur_stop {
                        Some(v) => v,
                        None => 0,
                    };
                    proof {
                        reveal_strlit("-");
                        assert(("-")@ =~= seq!['-']);
                    }
                    let mut id = st.cur_channel.clone();
                    id.append("-");
                    push_dec_i64(&mut id, start);
                    let program = EpgProgram {
                        id,
                        channel_id: st.cur_channel.clone(),
                        title: st.cur_title.clone(),
                        description: if st.cur_desc.as_str().is_empty() {
                            None
                        } else {
                            Some(st.cur_desc.clone())
                        },
                        start,
                        end: stop,
                        category: if st.cur_category.as_str().is_empty() {
                            None
                        } else {
                            Some(st.cur_category.clone())
                        },
                        icon_url: crate::epg::clone_opt_string(&st.cur_icon),
                    };
                    proof {
                        assert(program@ == spec_program_of(old(st)@));
                    }
                    let existing: Option<EpgSchedule> = match st.schedules.get(
                        st.cur_channel.as_str(),
                    ) {
                        Some(s) => Some(crate::epg::clone_schedule(s)),
                        None => None,
                    };
                    match existing {
                        Some(mut s2) => {
                            let ghost pre = s2.programs.deep_view();
                            s2.programs.push(program);
                            proof {
                                assert(s2.programs.deep_view() =~= pre.push(
                                    spec_program_of(old(st)@),
                                ));
                            }
                            st.schedules.insert(st.cur_channel.clone(), s2);
                        },
                        None => {
                            let mut programs: Vec<EpgProgram> = Vec::new();
                            programs.push(program);
                            proof {
                                assert(programs.deep_view() =~= seq![spec_program_of(old(st)@)]);
                            }
                            let sched = EpgSchedule {
                                channel_id: st.cur_channel.clone(),
                                programs,
                            };
                            st.schedules.insert(st.cur_channel.clone(), sched);
                        },
                    }
                    proof {
                        assert(st.schedules@ == spec_commit(old(st)@));
                    }
                }
                st.in_programme = false;
            } else if is_title {
                st.in_title = false;
            } else if is_desc {
                st.in_desc = false;
            } else if is_category {
                st.in_category = false;
            }
            proof {
                assert(st@ == spec_step(old(st)@, gev, gknown, accept_all, off as int));
            }
        },
    }
}

/// Result of parsing an XMLTV document.
#[derive(Debug)]
pub struct ParsedXmltv {
    /// Programme schedules keyed by XMLTV channel ID, each sorted by start.
    pub schedules: KvMap<EpgSchedule>,
    /// Map from lowercased display name to XMLTV channel ID, taken from
    /// channel definition blocks, first occurrence winning.
    pub display_names: KvMap<String>,
}

impl ParsedXmltv {
    /// Well-formedness of the two maps.
    pub open spec fn wf(&self) -> bool {
        self.schedules.wf() && self.display_names.wf()
    }
}

/// The schedules map with every programme list sorted by start time.
pub open spec fn sorted_schedules(m: Map<Seq<char>, ScheduleView>) -> Map<Seq<char>, ScheduleView> {
    Map::new(
        |k: Seq<char>| m.contains_key(k),
        |k: Seq<char>|
            ScheduleView {
                channel_id: m[k].channel_id,
                programs: sort_programs_spec(m[k].programs),
            },
    )
}

/// Parse XMLTV text into per-channel schedules and a display-name map.
///
/// When `known_channel_ids` is non-empty, only programmes whose `channel`
/// attribute is in the set are kept; an empty set accepts all channels.
/// `default_utc_offset_secs` applies to timestamps that carry no explicit
/// offset. Input over `MAX_XML_SIZE` bytes is rejected as `TooLarge` before
/// any parsing; nothing else is an error. Every schedule comes out sorted
/// ascending by start time.
pub fn parse_xmltv(xml: &str, known_channel_ids: &[&str], default_utc_offset_secs: i32) -> (r:
    Result<ParsedXmltv, EpgParseError>)
    ensures
        r is Err <==> xml.spec_bytes().len() > MAX_XML_SIZE,
        r is Err ==> (r->Err_0) is TooLarge,
        r is Ok ==> ({
            let out = spec_run(
                xml.spec_bytes(),
                0,
                init_state(),
                known_channel_ids.deep_view(),
                known_channel_ids@.len() == 0,
                default_utc_offset_secs as int,
            );
            &&& (r->Ok_0).wf()
            &&& (r->Ok_0).schedules@ == sorted_schedules(out.schedules)
            &&& (r->Ok_0).display_names@ == out.display_names
            &&& crate::epg::all_sorted((r->Ok_0).schedules@)
        }),
{
    let bytes = xml.as_bytes();
    if bytes.len() > MAX_XML_SIZE {
        return Err(EpgParseError::TooLarge);
    }
    let ghost gs = xml.spec_bytes();
    let ghost known_seq = known_channel_ids.deep_view();
    let accept_all = known_channel_ids.len() == 0;
    let mut known: Vec<String> = Vec::new();
    let kn = known_channel_ids.len();
    let mut ki: usize = 0;
    while ki < kn
        invariant
            0 <= ki <= kn,
            kn == known_channel_ids@.len(),
            known@.len() == ki,
            forall|j: int| 0 <= j < ki ==> #[trigger] known@[j]@ == known_seq[j],
            known_seq == known_channel_ids.deep_view(),
            known_seq.len() == kn,
        decreases kn - ki,
    {
        let owned = known_channel_ids[ki].to_owned();
        proof {
            assert(known_seq[ki as int] == known_channel_ids@[ki as int]@);
        }
        known.push(owned);
        ki = ki + 1;
    }
    proof {
        assert(known.deep_view() =~= known_seq) by {
            assert forall|j: int| 0 <= j < kn implies known.deep_view()[j] == known_seq[j] by {
                assert(known.deep_view()[j] == known@[j]@);
            }
        }
    }
    let ghost goal = spec_run(
        gs,
        0,
        init_state(),
        known_seq,
        accept_all,
        default_utc_offset_secs as int,
    );
    let mut st = PaState::new();
    let n = bytes.len();
    let mut i: usize = 0;
    while i < n
        invariant
            0 <= i <= n,
            n == gs.len(),
            n <= MAX_XML_SIZE,
            bytes@ == gs,
            st.wf(),
            known.deep_view() == known_seq,
            goal == spec_run(gs, i as int, st@, known_seq, accept_all, default_utc_offset_secs as int),
        decreases n - i,
    {
        match crate::xml::next_event(bytes, i) {
            None => {
                proof {
                    assert(spec_run(
                        gs,
                        i as int,
                        st@,
                        known_seq,
                        accept_all,
                        default_utc_offset_secs as int,
                    ) == st@);
                }
                i = n;
            },
            Some((evo, j)) => {
                let ghost pre = st@;
                match evo {
                    Some(ev) => {
                        apply_event(&mut st, ev, &known, accept_all, default_utc_offset_secs);
                    },
                    None => {},
                }
                proof {
                    assert(spec_run(
                        gs,
                        i as int,
                        pre,
                        known_seq,
                        accept_all,
                        default_utc_offset_secs as int,
                    ) == spec_run(
                        gs,
                        j as int,
                        st@,
                        known_seq,
                        accept_all,
                        default_utc_offset_secs as int,
                    ));
                }
                i = j;
            },
        }
    }
    proof {
        assert(goal == st@);
    }
    // Sort every schedule's programmes by start time.
    let total = st.schedules.len();
    let ghost keys = st.schedules.spec_keys();
    let mut sorted: KvMap<EpgSchedule> = KvMap::new();
    let mut si: usize = 0;
    while si < total
        invariant
            0 <= si <= total,
            st.schedules.wf(),
            sorted.wf(),
            total == st.schedules.spec_len(),
            keys == st.schedules.spec_keys(),
            keys.len() == total,
            keys.to_set() =~= st.schedules@.dom(),
            keys.no_duplicates(),
            forall|k: Seq<char>|
                #[trigger] keys.take(si as int).contains(k) ==> sorted@.contains_key(k)
                    && sorted@[k] == sorted_schedules(st.schedules@)[k],
            forall|k: Seq<char>|
                !#[trigger] keys.take(si as int).contains(k) ==> !sorted@.contains_key(k),
        decreases total - si,
    {
        let key = st.schedules.key_at(si).clone();
        let mut val = crate::epg::clone_schedule(st.schedules.val_at(si));
        sort_programs(&mut val.programs);
        let ghost pre_sorted = sorted@;
        sorted.insert(key, val);
        proof {
            assert(keys.take(si + 1 as int) =~= keys.take(si as int).push(keys[si as int]));
            assert forall|k: Seq<char>| #[trigger]
            keys.take(si + 1 as int).contains(k) implies sorted@.contains_key(k) && sorted@[k]
                == sorted_schedules(st.schedules@)[k] by {
                assert(keys.take(si + 1 as int)[si as int] == keys[si as int]);
                if k != keys[si as int] {
                    let j = choose|j: int|
                        0 <= j < keys.take(si + 1 as int).len() && #[trigger] keys.take(
                            si + 1 as int,
                        )[j] == k;
                    assert(j != si);
                    assert(keys.take(si as int)[j] == k);
                    assert(keys.take(si as int).contains(k));
                } else {
                    assert(st.schedules@.contains_key(k));
                    assert(sorted_schedules(st.schedules@).contains_key(k));
                }
            }
            assert forall|k: Seq<char>| !#[trigger]
            keys.take(si + 1 as int).contains(k) implies !sorted@.contains_key(k) by {
                assert(keys.take(si + 1 as int)[si as int] == keys[si as int]);
                assert(k != keys[si as int]);
                assert forall|j: int| 0 <= j < si implies keys.take(si as int)[j] != k by {
                    assert(keys.take(si + 1 as int)[j] == keys.take(si as int)[j]);
                }
                assert(!keys.take(si as int).contains(k));
            }
        }
        si = si + 1;
    }
    proof {
        assert(keys.take(total as int) =~= keys);
        let target = sorted_schedules(st.schedules@);
        assert forall|k: Seq<char>|
            #![trigger sorted@.contains_key(k)]
            #![trigger target.contains_key(k)]
            sorted@.contains_key(k) == target.contains_key(k) && (sorted@.contains_key(k)
                ==> sorted@[k] == target[k]) by {
            assert(keys.to_set().contains(k) == keys.contains(k));
            if st.schedules@.contains_key(k) {
                assert(keys.contains(k));
                assert(keys.take(total as int).contains(k));
            } else {
                assert(!keys.contains(k));
                assert(!keys.take(total as int).contains(k));
            }
        }
        assert(sorted@.dom() =~= target.dom()) by {
            assert forall|k: Seq<char>|
                #![trigger sorted@.dom().contains(k)]
                #![trigger target.dom().contains(k)]
                sorted@.dom().contains(k) == target.dom().contains(k) by {
                assert(sorted@.contains_key(k) == target.contains_key(k));
            }
        }
        assert(sorted@ =~= target);
        assert(crate::epg::all_sorted(sorted@)) by {
            assert forall|k: Seq<char>| #[trigger]
            sorted@.contains_key(k) implies crate::epg::sorted_by_start(sorted@[k].programs) by {
                crate::epg::lemma_sort_programs_spec(st.schedules@[k].programs);
            }
        }
    }
    Ok(ParsedXmltv { schedules: sorted, display_names: st.display_names })
}

} // verus!

