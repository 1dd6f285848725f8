//! UTF-8 validation of path bytes.
//!
//! The boundary layer must reject a path whose bytes are not valid UTF-8
//! before the store sees it. The check here is proved equivalent to vstd's
//! own specification of UTF-8 validity, so nothing about the encoding is
//! taken on trust.

use vstd::prelude::*;
use vstd::utf8::{
    partial_valid_partial_invalid_utf8, partial_valid_utf8, partial_valid_utf8_extend,
    valid_first_scalar, valid_utf8,
};

verus! {

/// Whether `bytes` form a valid UTF-8 encoding: every byte belongs to
/// exactly one scalar encoding of the right shape, no encoding is overlong,
/// and no encoded value falls in the surrogate range.
pub fn is_valid_utf8(bytes: &[u8]) -> (r: bool)
    ensures
        r == valid_utf8(bytes@),
{
    let n = bytes.len();
    let mut i: usize = 0;
    while i < n
        invariant
            i <= n,
            n == bytes@.len(),
            partial_valid_utf8(bytes@, i as int),
        decreases n - i,
    {
        let ghost rest = bytes@.subrange(i as int, n as int);
        let b0 = bytes[i];
        proof {
            assert(rest[0] == b0);
            assert(rest.len() == n - i);
        }
        let cp: u32;
        let step: usize;
        if b0 <= 0x7f {
            proof {
                assert(b0 & 0x7f == b0) by (bit_vector)
                    requires
                        b0 <= 0x7f,
                ;
            }
            cp = (b0 & 0x7f) as u32;
            step = 1;
        } else if 0xc0 <= b0 && b0 <= 0xdf {
            if n - i < 2 {
                proof {
                    invalid_first(bytes@, i as int);
                }
                return false;
            }
            let b1 = bytes[i + 1];
            proof {
                assert(rest[1] == b1);
            }
            if !(0x80 <= b1 && b1 <= 0xbf) {
                proof {
                    invalid_first(bytes@, i as int);
                }
                return false;
            }
            cp = (((b0 & 0x1f) as u32) << 6u32) | ((b1 & 0x3f) as u32);
            step = 2;
        } else if 0xe0 <= b0 && b0 <= 0xef {
            if n - i < 3 {
                proof {
                    invalid_first(bytes@, i as int);
                }
                return false;
            }
            let b1 = bytes[i + 1];
            let b2 = bytes[i + 2];
            proof {
                assert(rest[1] == b1);
                assert(rest[2] == b2);
            }
            if !(0x80 <= b1 && b1 <= 0xbf) || !(0x80 <= b2 && b2 <= 0xbf) {
                proof {
                    invalid_first(bytes@, i as int);
                }
                return false;
            }
            cp = (((b0 & 0x0f) as u32) << 12u32) | (((b1 & 0x3f) as u32) << 6u32) | ((b2
                & 0x3f) as u32);
            step = 3;
        } else if 0xf0 <= b0 && b0 <= 0xf7 {
            if n - i < 4 {
                proof {
                    invalid_first(bytes@, i as int);
                }
                return false;
            }
            let b1 = bytes[i + 1];
            let b2 = bytes[i + 2];
            let b3 = bytes[i + 3];
            proof {
                assert(rest[1] == b1);
                assert(rest[2] == b2);
                assert(rest[3] == b3);
            }
            if !(0x80 <= b1 && b1 <= 0xbf) || !(0x80 <= b2 && b2 <= 0xbf) || !(0x80 <= b3 && b3
                <= 0xbf) {
                proof {
                    invalid_first(bytes@, i as int);
                }
                return false;
            }
            cp = (((b0 & 0x07) as u32) << 18u32) | (((b1 & 0x3f) as u32) << 12u32) | (((b2
                & 0x3f) as u32) << 6u32) | ((b3 & 0x3f) as u32);
            step = 4;
        } else {
            // a stray continuation byte, or a byte no encoding uses
            proof {
                invalid_first(bytes@, i as int);
            }
            return false;
        }
        // rule out overlong encodings, surrogates, and values past the
        // last Unicode scalar
        let overlong = (step == 2 && cp < 0x80) || (step == 3 && cp < 0x800) || (step == 4 && (cp
            < 0x10000 || cp > 0x10ffff));
        let surrogate = 0xd800 <= cp && cp <= 0xdfff;
        if overlong || surrogate {
            proof {
                invalid_first(bytes@, i as int);
            }
            return false;
        }
        proof {
            assert(valid_first_scalar(rest));
            partial_valid_utf8_extend(bytes@, i as int);
        }
        i += step;
    }
    proof {
        assert(bytes@.subrange(0, n as int) =~= bytes@);
    }
    true
}

/// When the bytes from `i` on do not begin with a well-formed scalar
/// encoding, the whole sequence is not valid UTF-8.
proof fn invalid_first(bytes: Seq<u8>, i: int)
    requires
        0 <= i < bytes.len(),
        partial_valid_utf8(bytes, i),
        !valid_first_scalar(bytes.subrange(i, bytes.len() as int)),
    ensures
        !valid_utf8(bytes),
{
    let rest = bytes.subrange(i, bytes.len() as int);
    assert(!valid_utf8(rest));
    partial_valid_partial_invalid_utf8(bytes, i);
}

} // verus!
