//! Dotted-quad IPv4 literals. An address is carried as one unsigned
//! 32-bit integer whose bytes are the four octets most significant
//! first (network order), so comparing addresses numerically compares
//! them octet by octet.

use vstd::prelude::*;

use crate::text::{split_spec, all_digits, dec_val, parse_u32_spec, split, parse_u32, DOT, PLUS,
    DIGIT_ZERO};

verus! {

/// One octet of a dotted quad: digits only (no sign), no leading zero
/// unless the octet is exactly `0`, value at most 255.
pub open spec fn octet_spec(s: Seq<u8>) -> Option<u8> {
    if s.len() > 0 && all_digits(s) && (s.len() == 1 || s[0] != DIGIT_ZERO) && dec_val(s) <= 255 {
        Option::Some(dec_val(s) as u8)
    } else {
        Option::None
    }
}

/// The address a dotted-quad literal denotes: exactly four octets
/// joined by dots, composed most significant octet first.
pub open spec fn parse_ipv4_spec(s: Seq<u8>) -> Option<u32> {
    let parts = split_spec(s, DOT);
    if parts.len() != 4 {
        Option::None
    } else {
        match (octet_spec(parts[0]), octet_spec(parts[1]), octet_spec(parts[2]), octet_spec(
            parts[3],
        )) {
            (Option::Some(a), Option::Some(b), Option::Some(c), Option::Some(d)) => Option::Some(
                ((a as int) * 0x1000000 + (b as int) * 0x10000 + (c as int) * 0x100 + (
                d as int)) as u32,
            ),
            _ => Option::None,
        }
    }
}

/// Reads one octet, as `octet_spec` describes.
fn parse_octet(s: &Vec<u8>) -> (r: Option<u8>)
    ensures
        r == octet_spec(s@),
{
    if s.len() == 0 {
        return Option::None;
    }
    if s[0] == PLUS {
        proof {
            assert(!all_digits(s@) || s@.len() == 0) by {
                if all_digits(s@) && s@.len() > 0 {
                    assert(crate::text::is_digit(s@[0]));
                }
            }
        }
        return Option::None;
    }
    if s.len() > 1 && s[0] == DIGIT_ZERO {
        return Option::None;
    }
    proof {
        if all_digits(s@) {
            crate::text::lemma_dec_val_nonneg(s@);
        }
    }
    match parse_u32(s) {
        Option::Some(v) => {
            if v <= 255 {
                Option::Some(v as u8)
            } else {
                Option::None
            }
        },
        Option::None => {
            proof {
                // the sign byte is excluded above, so the number read is
                // the whole field; a failure means a stray byte or a
                // value past u32, both past 255 as well
                if s@.len() > 0 && all_digits(s@) && dec_val(s@) <= 255 {
                    assert(parse_u32_spec(s@) is Some);
                }
            }
            Option::None
        },
    }
}

/// Reads a dotted-quad IPv4 literal, as `parse_ipv4_spec` describes;
/// anything else - wrong number of parts, a bad octet - is `None`.
pub fn parse_ipv4(s: &Vec<u8>) -> (r: Option<u32>)
    ensures
        r == parse_ipv4_spec(s@),
{
    let parts = split(s, DOT);
    proof {
        assert(forall|k: int| 0 <= k < parts@.len() ==> parts.deep_view()[k] == parts@[k]@);
    }
    if parts.len() != 4 {
        return Option::None;
    }
    let a = match parse_octet(&parts[0]) {
        Option::Some(v) => v,
        Option::None => {
            return Option::None;
        },
    };
    let b = match parse_octet(&parts[1]) {
        Option::Some(v) => v,
        Option::None => {
            return Option::None;
        },
    };
    let c = match parse_octet(&parts[2]) {
        Option::Some(v) => v,
        Option::None => {
            return Option::None;
        },
    };
    let d = match parse_octet(&parts[3]) {
        Option::Some(v) => v,
        Option::None => {
            return Option::None;
        },
    };
    let addr: u32 = (a as u32) * 0x1000000 + (b as u32) * 0x10000 + (c as u32) * 0x100 + (d as u32);
    Option::Some(addr)
}

} // verus!
