//! Filename utilities for values arriving from headers and URLs:
//! percent-decoding and removal of characters that file systems refuse.

use vstd::prelude::*;
use vstd::string::StrSliceExecFns;
use vstd::string::StringSliceAdditionalSpecFns;

verus! {

/// An ASCII hexadecimal digit.
pub open spec fn is_hex_digit(b: u8) -> bool {
    (48 <= b <= 57) || (97 <= b <= 102) || (65 <= b <= 70)
}

/// The value of an ASCII hexadecimal digit.
pub open spec fn hex_digit_val(b: u8) -> int {
    if 48 <= b <= 57 {
        b - 48
    } else if 97 <= b <= 102 {
        b - 87
    } else {
        b - 55
    }
}

/// The bytes with every `%XX` escape (two hexadecimal digits) replaced by
/// its byte; anything else passes through unchanged.
pub open spec fn percent_decoded(s: Seq<u8>) -> Seq<u8>
    decreases s.len(),
{
    if s.len() == 0 {
        Seq::empty()
    } else if s[0] == 37 && s.len() >= 3 && is_hex_digit(s[1]) && is_hex_digit(s[2]) {
        seq![(hex_digit_val(s[1]) * 16 + hex_digit_val(s[2])) as u8] + percent_decoded(s.skip(3))
    } else {
        seq![s[0]] + percent_decoded(s.skip(1))
    }
}

/// What lossy UTF-8 decoding makes of a byte sequence; the result depends
/// on the bytes alone.
pub uninterp spec fn utf8_lossy_of(bytes: Seq<u8>) -> Seq<char>;

/// Relies on `String::from_utf8_lossy`: decodes UTF-8, substituting the
/// replacement character for invalid sequences.
#[verifier::external_body]
fn bytes_to_string_lossy(v: &Vec<u8>) -> (r: String)
    ensures
        r@ == utf8_lossy_of(v@),
{
    String::from_utf8_lossy(v.as_slice()).to_string()
}

fn hex_val_exec(b: u8) -> (r: Option<u8>)
    ensures
        match r {
            Some(v) => is_hex_digit(b) && v == hex_digit_val(b),
            None => !is_hex_digit(b),
        },
{
    if 48 <= b && b <= 57 {
        Some(b - 48)
    } else if 97 <= b && b <= 102 {
        Some(b - 87)
    } else if 65 <= b && b <= 70 {
        Some(b - 55)
    } else {
        None
    }
}

/// Decode `%XX` escapes in a string, then read the bytes back as UTF-8.
#[verifier::loop_isolation(false)]
pub fn percent_decode(input: &str) -> (r: String)
    ensures
        r@ == utf8_lossy_of(percent_decoded(input.spec_bytes())),
{
    let bytes = input.as_bytes_vec();
    let n = bytes.len();
    let mut out: Vec<u8> = Vec::new();
    let mut i: usize = 0;
    proof {
        assert(bytes@.subrange(0, n as int) =~= bytes@);
        assert(out@ + percent_decoded(bytes@) =~= percent_decoded(bytes@));
    }
    while i < n
        invariant
            0 <= i <= n,
            n == bytes@.len(),
            percent_decoded(bytes@) == out@ + percent_decoded(
                bytes@.subrange(i as int, n as int),
            ),
        decreases n - i,
    {
        let ghost bsuf = bytes@.subrange(i as int, n as int);
        if bytes[i] == 37 && n >= 3 && i < n - 2 {
            let h1 = hex_val_exec(bytes[i + 1]);
            let h2 = hex_val_exec(bytes[i + 2]);
            match (h1, h2) {
                (Some(a), Some(b)) => {
                    out.push(a * 16 + b);
                    proof {
                        assert(bsuf.skip(3) =~= bytes@.subrange(i + 3, n as int));
                        assert(out@ =~= out@.drop_last() + seq![out@.last()]);
                        assert(out@ + percent_decoded(bytes@.subrange(i + 3, n as int))
                            =~= out@.drop_last() + percent_decoded(bsuf));
                    }
                    i += 3;
                },
                _ => {
                    out.push(bytes[i]);
                    proof {
                        assert(bsuf.skip(1) =~= bytes@.subrange(i + 1, n as int));
                        assert(out@ + percent_decoded(bytes@.subrange(i + 1, n as int))
                            =~= out@.drop_last() + percent_decoded(bsuf));
                    }
                    i += 1;
                },
            }
        } else {
            out.push(bytes[i]);
            proof {
                assert(bsuf.skip(1) =~= bytes@.subrange(i + 1, n as int));
                assert(out@ + percent_decoded(bytes@.subrange(i + 1, n as int)) =~= out@.drop_last()
                    + percent_decoded(bsuf));
            }
            i += 1;
        }
    }
    proof {
        assert(bytes@.subrange(n as int, n as int) =~= Seq::<u8>::empty());
        assert(out@ =~= percent_decoded(bytes@));
    }
    bytes_to_string_lossy(&out)
}

/// A character that file systems refuse in names, mapped to `_`.
pub open spec fn sanitize_char(c: char) -> char {
    if c == '/' || c == '\\' || c == ':' || c == '*' || c == '?' || c == '"' || c == '<' || c
        == '>' || c == '|' {
        '_'
    } else {
        c
    }
}

/// Replace characters that are illegal in filenames by underscores.
pub fn sanitize_filename(name: &str) -> (r: String)
    ensures
        r@ == name@.map_values(|c: char| sanitize_char(c)),
{
    let chars = crate::strutil::str_to_chars(name);
    let n = chars.len();
    let mut out: Vec<char> = Vec::new();
    let mut i: usize = 0;
    while i < n
        invariant
            0 <= i <= n,
            n == chars@.len(),
            chars@ == name@,
            out@ == name@.subrange(0, i as int).map_values(|c: char| sanitize_char(c)),
        decreases n - i,
    {
        let c = chars[i];
        let mapped = if c == '/' || c == '\\' || c == ':' || c == '*' || c == '?' || c == '"'
            || c == '<' || c == '>' || c == '|' {
            '_'
        } else {
            c
        };
        out.push(mapped);
        proof {
            assert(out@ =~= name@.subrange(0, i + 1 as int).map_values(
                |ch: char| sanitize_char(ch),
            ));
        }
        i += 1;
    }
    proof {
        assert(name@.subrange(0, n as int) =~= name@);
    }
    crate::strutil::chars_to_string(&out)
}

} // verus!
