//! Percent-decoding of URL path bytes.
use vstd::prelude::*;

verus! {

pub const PERCENT: u8 = 0x25;

pub const ASCII_0: u8 = 0x30;

pub const ASCII_9: u8 = 0x39;

pub const ASCII_LOWER_A: u8 = 0x61;

pub const ASCII_LOWER_F: u8 = 0x66;

pub const ASCII_UPPER_A: u8 = 0x41;

pub const ASCII_UPPER_F: u8 = 0x46;

/// The value of an ASCII hexadecimal digit, either case.
pub open spec fn hex_value(b: u8) -> Option<u8> {
    if ASCII_0 <= b && b <= ASCII_9 {
        Some((b - ASCII_0) as u8)
    } else if ASCII_LOWER_A <= b && b <= ASCII_LOWER_F {
        Some((b - ASCII_LOWER_A + 10) as u8)
    } else if ASCII_UPPER_A <= b && b <= ASCII_UPPER_F {
        Some((b - ASCII_UPPER_A + 10) as u8)
    } else {
        None
    }
}

/// Decodes `%XY` (two hex digits) into the byte `0xXY`; every other byte,
/// including a `%` not followed by two hex digits, stands for itself.
pub open spec fn percent_decoded(s: Seq<u8>) -> Seq<u8>
    decreases s.len(),
{
    if s.len() == 0 {
        Seq::empty()
    } else if s.len() >= 3 && s[0] == PERCENT && hex_value(s[1]) is Some && hex_value(s[2]) is Some {
        seq![(hex_value(s[1])->0 * 16 + hex_value(s[2])->0) as u8] + percent_decoded(s.skip(3))
    } else {
        seq![s[0]] + percent_decoded(s.skip(1))
    }
}

fn hex_digit(b: u8) -> (r: Option<u8>)
    ensures
        r == hex_value(b),
{
    if ASCII_0 <= b && b <= ASCII_9 {
        Some(b - ASCII_0)
    } else if ASCII_LOWER_A <= b && b <= ASCII_LOWER_F {
        Some(b - ASCII_LOWER_A + 10)
    } else if ASCII_UPPER_A <= b && b <= ASCII_UPPER_F {
        Some(b - ASCII_UPPER_A + 10)
    } else {
        None
    }
}

/// Percent-decodes a URL path.
pub fn percent_decode(s: &[u8]) -> (r: Vec<u8>)
    ensures
        r@ == percent_decoded(s@),
{
    let mut out: Vec<u8> = Vec::new();
    let mut i: usize = 0;
    proof {
        assert(s@.subrange(0, s@.len() as int) =~= s@);
        assert(out@ + percent_decoded(s@) =~= percent_decoded(s@));
    }
    while i < s.len()
        invariant
            i <= s@.len(),
            percent_decoded(s@) == out@ + percent_decoded(s@.subrange(i as int, s@.len() as int)),
        decreases s@.len() - i,
    {
        let ghost rest = s@.subrange(i as int, s@.len() as int);
        let mut step: usize = 1;
        if s[i] == PERCENT && s.len() - i > 2 {
            if let (Some(hi), Some(lo)) = (hex_digit(s[i + 1]), hex_digit(s[i + 2])) {
                out.push(hi * 16 + lo);
                step = 3;
            }
        }
        if step == 1 {
            out.push(s[i]);
        }
        proof {
            assert(rest.skip(step as int) =~= s@.subrange(i + step, s@.len() as int));
        }
        i = i + step;
    }
    proof {
        assert(s@.subrange(i as int, s@.len() as int) =~= Seq::<u8>::empty());
        assert(out@ + Seq::<u8>::empty() =~= out@);
    }
    out
}

} // verus!
