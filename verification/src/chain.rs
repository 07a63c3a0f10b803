//! Decoding helpers for playlists published on-chain: hex-encoded remark
//! payloads and the stable hash used for on-chain channel ids.
use crate::m3u_parser::{djb2_bytes, spec_djb2};
use crate::strutil::{chars_of, utf8_to_string};
use vstd::prelude::*;
use vstd::string::StringSliceAdditionalSpecFns;

verus! {

/// Whether a byte is an ASCII hexadecimal digit, either case.
pub open spec fn spec_is_hex(b: u8) -> bool {
    (48 <= b <= 57) || (97 <= b <= 102) || (65 <= b <= 70)
}

/// The value of a hexadecimal digit byte.
pub open spec fn spec_hex_val(b: u8) -> int {
    if 48 <= b <= 57 {
        b - 48
    } else if 97 <= b <= 102 {
        b - 87
    } else {
        b - 55
    }
}

/// The bytes a hex string denotes, read two digits at a time from `i`;
/// pairs that are not two hex digits are skipped.
pub open spec fn spec_hex_bytes(s: Seq<u8>, i: int) -> Seq<u8>
    decreases s.len() + 2 - i,
{
    if i < 0 || i >= s.len() {
        Seq::empty()
    } else if i + 2 <= s.len() && spec_is_hex(s[i]) && spec_is_hex(s[i + 1]) {
        seq![(spec_hex_val(s[i]) * 16 + spec_hex_val(s[i + 1])) as u8] + spec_hex_bytes(s, i + 2)
    } else {
        spec_hex_bytes(s, i + 2)
    }
}

/// A hex string stripped of one leading `0x`, as bytes.
pub open spec fn spec_strip_0x(s: Seq<u8>) -> Seq<u8> {
    if s.len() >= 2 && s[0] == 48 && s[1] == 120 {
        s.skip(2)
    } else {
        s
    }
}

fn is_hex_digit(b: u8) -> (r: bool)
    ensures
        r == spec_is_hex(b),
{
    (48 <= b && b <= 57) || (97 <= b && b <= 102) || (65 <= b && b <= 70)
}

fn hex_val(b: u8) -> (r: u8)
    requires
        spec_is_hex(b),
    ensures
        r == spec_hex_val(b),
        r < 16,
{
    if 48 <= b && b <= 57 {
        b - 48
    } else if 97 <= b && b <= 102 {
        b - 87
    } else {
        b - 55
    }
}

/// Decode a hex string (with or without a `0x` prefix) into a UTF-8 string.
/// Returns `None` when the decoded bytes are not valid UTF-8.
pub fn decode_hex_to_string(hex: &str) -> (r: Option<String>)
    ensures
        ({
            let decoded = spec_hex_bytes(spec_strip_0x(hex.spec_bytes()), 0);
            match r {
                Some(v) => chars_of(decoded) == Some(v@),
                None => chars_of(decoded) is None,
            }
        }),
{
    let all = hex.as_bytes();
    let stripped: &[u8] = if all.len() >= 2 && all[0] == 48 && all[1] == 120 {
        vstd::slice::slice_subrange(all, 2, all.len())
    } else {
        all
    };
    proof {
        if all@.len() >= 2 && all@[0] == 48 && all@[1] == 120 {
            assert(stripped@ =~= spec_strip_0x(hex.spec_bytes()));
        }
    }
    let n = stripped.len();
    let mut out: Vec<u8> = Vec::new();
    let mut i: usize = 0;
    proof {
        assert(spec_hex_bytes(stripped@, 0) =~= out@ + spec_hex_bytes(stripped@, 0));
    }
    while i < n
        invariant
            0 <= i <= n,
            n == stripped@.len(),
            spec_hex_bytes(stripped@, 0) == out@ + spec_hex_bytes(stripped@, i as int),
        decreases n - i,
    {
        let ghost i0 = i as int;
        let ghost out0 = out@;
        if n - i >= 2 && is_hex_digit(stripped[i]) && is_hex_digit(stripped[i + 1]) {
            let v = hex_val(stripped[i]) * 16 + hex_val(stripped[i + 1]);
            proof {
                assert(v == (spec_hex_val(stripped@[i0]) * 16 + spec_hex_val(
                    stripped@[i0 + 1],
                )) as u8);
                assert(spec_hex_bytes(stripped@, i0) == seq![v] + spec_hex_bytes(
                    stripped@,
                    i0 + 2,
                ));
            }
            out.push(v);
            proof {
                assert(out@ =~= out0.push(v));
                assert(out0 + (seq![v] + spec_hex_bytes(stripped@, i0 + 2)) =~= out0.push(v)
                    + spec_hex_bytes(stripped@, i0 + 2));
            }
        } else {
            proof {
                assert(spec_hex_bytes(stripped@, i0) == spec_hex_bytes(stripped@, i0 + 2));
            }
        }
        i = if n - i >= 2 {
            i + 2
        } else {
            n
        };
        proof {
            if i0 + 2 > n {
                assert(spec_hex_bytes(stripped@, i0 + 2) =~= Seq::<u8>::empty());
                assert(spec_hex_bytes(stripped@, i as int) =~= Seq::<u8>::empty());
            }
            assert(spec_hex_bytes(stripped@, 0) == out@ + spec_hex_bytes(stripped@, i as int));
        }
    }
    utf8_to_string(out)
}

/// A stable 64-bit hash of a URL, used as a channel id component for
/// on-chain playlist entries.
pub fn hash_url(url: &str) -> (r: u64)
    ensures
        r == spec_djb2(url.spec_bytes(), 0, 5381),
{
    djb2_bytes(url.as_bytes())
}

} // verus!
