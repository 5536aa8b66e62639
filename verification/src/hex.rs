//! Hex-escaped byte lists and alphabet construction.
//!
//! A byte list is written `\xHH\xHH...`: segments separated by the
//! two-character delimiter `\x`, each non-empty segment exactly two
//! hexadecimal digits. The alphabet is either such a list (good bytes) or
//! the complement over `0..=255` of one (bad bytes); supplying both at once
//! is rejected.

use vstd::prelude::*;

use crate::EncodeError;

verus! {

/// Byte value of the backslash that opens a `\x` delimiter.
pub const BACKSLASH: u8 = 0x5C;

/// Byte value of the `x` that closes a `\x` delimiter.
pub const LOWER_X: u8 = 0x78;

/// ASCII hexadecimal digit, either case.
pub open spec fn is_hex_digit(c: u8) -> bool {
    (0x30 <= c <= 0x39) || (0x41 <= c <= 0x46) || (0x61 <= c <= 0x66)
}

/// Value of one hexadecimal digit.
pub open spec fn hex_val(c: u8) -> int {
    if 0x30 <= c <= 0x39 {
        c - 0x30
    } else if 0x41 <= c <= 0x46 {
        c - 0x41 + 10
    } else {
        c - 0x61 + 10
    }
}

/// A closed segment parses to nothing when empty, to one byte when it is
/// exactly two hexadecimal digits, and is an error otherwise.
pub open spec fn seg_close(cur: Seq<u8>) -> Option<Seq<u8>> {
    if cur.len() == 0 {
        Some(Seq::empty())
    } else if cur.len() == 2 && is_hex_digit(cur[0]) && is_hex_digit(cur[1]) {
        Some(seq![(0x10 * hex_val(cur[0]) + hex_val(cur[1])) as u8])
    } else {
        None
    }
}

/// Left-to-right scan of a byte list: `cur` holds the open segment; a `\x`
/// delimiter closes it, and the end of the input closes the last one.
pub open spec fn parse_scan(s: Seq<u8>, cur: Seq<u8>) -> Option<Seq<u8>>
    decreases s.len(),
{
    if s.len() == 0 {
        seg_close(cur)
    } else if s.len() >= 2 && s[0] == BACKSLASH && s[1] == LOWER_X {
        match seg_close(cur) {
            None => None,
            Some(pre) => match parse_scan(s.skip(2), Seq::empty()) {
                None => None,
                Some(rest) => Some(pre + rest),
            },
        }
    } else {
        parse_scan(s.skip(1), cur.push(s[0]))
    }
}

/// The byte list denoted by a hex-escaped string, or `None` when some
/// segment is not a two-digit hexadecimal value.
pub open spec fn spec_parse_bytes(s: Seq<u8>) -> Option<Seq<u8>> {
    parse_scan(s, Seq::empty())
}

/// Value of one hexadecimal digit byte, or `None` for any other byte.
fn hex_digit_val(c: u8) -> (r: Option<u8>)
    ensures
        r is Some <==> is_hex_digit(c),
        r is Some ==> r->Some_0 == hex_val(c),
{
    if 0x30 <= c && c <= 0x39 {
        Some(c - 0x30)
    } else if 0x41 <= c && c <= 0x46 {
        Some(c - 0x41 + 10)
    } else if 0x61 <= c && c <= 0x66 {
        Some(c - 0x61 + 10)
    } else {
        None
    }
}

/// Closes the open segment: pushes its byte value onto `out`, or fails when
/// the segment is neither empty nor two hexadecimal digits.
fn close_segment(cur: &Vec<u8>, out: &mut Vec<u8>) -> (r: Result<(), EncodeError>)
    ensures
        ({
            match r {
                Ok(()) => {
                    &&& seg_close(cur@) is Some
                    &&& final(out)@ == old(out)@ + seg_close(cur@)->Some_0
                },
                Err(e) => {
                    &&& seg_close(cur@) is None
                    &&& e == EncodeError::BadByteSpec
                    &&& final(out)@ == old(out)@
                },
            }
        }),
{
    if cur.len() == 0 {
        proof {
            assert(out@ + Seq::<u8>::empty() =~= out@);
        }
        return Ok(());
    }
    if cur.len() != 2 {
        return Err(EncodeError::BadByteSpec);
    }
    let hi = hex_digit_val(cur[0]);
    let lo = hex_digit_val(cur[1]);
    match (hi, lo) {
        (Some(h), Some(l)) => {
            out.push(0x10 * h + l);
            proof {
                assert(out@ =~= old(out)@ + seg_close(cur@)->Some_0);
            }
            Ok(())
        },
        _ => Err(EncodeError::BadByteSpec),
    }
}

/// Parses a hex-escaped byte list such as `\x2f\x62\x69\x6e`.
///
/// Segments are split on the two characters `\x`; empty segments are
/// ignored, and every other segment must be exactly two hexadecimal digits.
pub fn parse_bytes(arg: &[u8]) -> (r: Result<Vec<u8>, EncodeError>)
    ensures
        ({
            match r {
                Ok(v) => spec_parse_bytes(arg@) == Some(v@),
                Err(e) => {
                    &&& spec_parse_bytes(arg@) is None
                    &&& e == EncodeError::BadByteSpec
                },
            }
        }),
{
    let ghost s = arg@;
    let mut out: Vec<u8> = Vec::new();
    let mut cur: Vec<u8> = Vec::new();
    let mut i: usize = 0;
    proof {
        assert(s.skip(0) =~= s);
        match parse_scan(s, Seq::<u8>::empty()) {
            None => {},
            Some(rest) => {
                assert(Seq::<u8>::empty() + rest =~= rest);
            },
        }
    }
    while i < arg.len()
        invariant
            s == arg@,
            i <= s.len(),
            ({
                match parse_scan(s.skip(i as int), cur@) {
                    None => spec_parse_bytes(s) is None,
                    Some(rest) => spec_parse_bytes(s) == Some(out@ + rest),
                }
            }),
        decreases s.len() - i,
    {
        let ghost tail = s.skip(i as int);
        if i + 1 < arg.len() && arg[i] == BACKSLASH && arg[i + 1] == LOWER_X {
            let ghost out_before = out@;
            let ghost cur_before = cur@;
            proof {
                assert(tail[0] == s[i as int] && tail[1] == s[i as int + 1]);
                assert(tail.skip(2) =~= s.skip(i as int + 2));
            }
            match close_segment(&cur, &mut out) {
                Ok(()) => {},
                Err(e) => {
                    return Err(e);
                },
            }
            cur = Vec::new();
            i = i + 2;
            proof {
                let pre = seg_close(cur_before)->Some_0;
                match parse_scan(s.skip(i as int), Seq::<u8>::empty()) {
                    None => {
                        assert(parse_scan(tail, cur_before) is None);
                    },
                    Some(rest) => {
                        assert(parse_scan(tail, cur_before) == Some(pre + rest));
                        assert(out_before + (pre + rest) =~= out@ + rest);
                    },
                }
            }
        } else {
            proof {
                assert(tail[0] == s[i as int]);
                assert(tail.skip(1) =~= s.skip(i as int + 1));
                assert(!(tail.len() >= 2 && tail[0] == BACKSLASH && tail[1] == LOWER_X));
            }
            let b = arg[i];
            cur.push(b);
            i = i + 1;
        }
    }
    proof {
        assert(s.skip(i as int) =~= Seq::<u8>::empty());
    }
    match close_segment(&cur, &mut out) {
        Ok(()) => Ok(out),
        Err(e) => Err(e),
    }
}

/// The complement alphabet: every byte value not named in `bad`, ascending.
pub open spec fn spec_complement_ok(bad: Seq<u8>, r: Seq<u8>) -> bool {
    &&& forall|b: u8| r.contains(b) <==> !bad.contains(b)
    &&& forall|i: int, j: int| 0 <= i < j < r.len() ==> r[i] < r[j]
}

/// Builds the alphabet from the two optional byte lists: the good bytes as
/// given, or the complement of the bad bytes over `0..=255`; both at once is
/// a conflict, neither yields the empty alphabet (which then fails the
/// gate).
pub fn build_alphabet(good_bytes: Option<&Vec<u8>>, bad_bytes: Option<&Vec<u8>>) -> (r: Result<
    Vec<u8>,
    EncodeError,
>)
    ensures
        ({
            match (good_bytes, bad_bytes) {
                (Some(_), Some(_)) => r == Err::<Vec<u8>, EncodeError>(
                    EncodeError::ConflictingAlphabets,
                ),
                (Some(g), None) => r is Ok && r->Ok_0@ == g@,
                (None, Some(b)) => r is Ok && spec_complement_ok(b@, r->Ok_0@),
                (None, None) => r is Ok && r->Ok_0@.len() == 0,
            }
        }),
{
    match (good_bytes, bad_bytes) {
        (Some(_), Some(_)) => Err(EncodeError::ConflictingAlphabets),
        (Some(g), None) => {
            let mut out: Vec<u8> = Vec::new();
            let mut i: usize = 0;
            while i < g.len()
                invariant
                    i <= g@.len(),
                    out@ == g@.subrange(0, i as int),
                decreases g@.len() - i,
            {
                out.push(g[i]);
                proof {
                    assert(out@ =~= g@.subrange(0, i as int + 1));
                }
                i = i + 1;
            }
            proof {
                assert(out@ =~= g@);
            }
            Ok(out)
        },
        (None, Some(bad)) => {
            let mut out: Vec<u8> = Vec::new();
            let mut v: u16 = 0;
            while v < 256
                invariant
                    v <= 256,
                    forall|idx: int| 0 <= idx < out@.len() ==> #[trigger] out@[idx] < v,
                    forall|b: u8| b < v ==> (out@.contains(b) <==> !bad@.contains(b)),
                    forall|i: int, j: int| 0 <= i < j < out@.len() ==> out@[i] < out@[j],
                decreases 256 - v,
            {
                let b = v as u8;
                let ghost before = out@;
                if !crate::encoder::contains_byte(bad.as_slice(), b) {
                    out.push(b);
                    proof {
                        assert(forall|idx: int|
                            0 <= idx < before.len() ==> out@[idx] == #[trigger] before[idx]);
                        assert(out@[before.len() as int] == b);
                        assert(forall|x: u8|
                            #[trigger] out@.contains(x) ==> before.contains(x) || x == b) by {
                            assert(forall|idx: int|
                                0 <= idx < before.len() ==> before.contains(
                                    #[trigger] before[idx],
                                ));
                        }
                        assert(forall|x: u8|
                            before.contains(x) ==> #[trigger] out@.contains(x));
                        assert(out@.contains(b));
                    }
                } else {
                    proof {
                        assert(!out@.contains(b));
                    }
                }
                v = v + 1;
            }
            Ok(out)
        },
        (None, None) => Ok(Vec::new()),
    }
}

} // verus!
