use vstd::prelude::*;
use vstd::utf8::*;

use crate::encrypt::zero_bytes;
use crate::error::{HexCryptError, HexCryptResult};
use crate::rgb::{pixel_bytes, rgb_raw_bytes, PixelBuffer};

verus! {

/// The byte sequence with every trailing NUL (`0x00`) byte removed.
///
/// Bytes are removed from the end until a non-NUL byte (or the start) is
/// reached; NUL bytes anywhere else are kept. In valid UTF-8 a `0x00` byte
/// only ever encodes the NUL character, so this is exactly the character
/// trimming the decoder performs.
pub open spec fn trim_trailing_nuls(s: Seq<u8>) -> Seq<u8>
    decreases s.len(),
{
    if s.len() > 0 && s.last() == 0 {
        trim_trailing_nuls(s.drop_last())
    } else {
        s
    }
}

/// What trimming does: the result is the longest prefix that does not end in
/// a NUL byte, everything removed was a NUL byte, and trimming again removes
/// nothing.
pub proof fn lemma_trim_trailing_nuls(s: Seq<u8>)
    ensures
        trim_trailing_nuls(s).len() <= s.len(),
        trim_trailing_nuls(s) == s.take(trim_trailing_nuls(s).len() as int),
        trim_trailing_nuls(s).len() > 0 ==> trim_trailing_nuls(s).last() != 0,
        forall|j: int| trim_trailing_nuls(s).len() <= j < s.len() ==> s[j] == 0,
        trim_trailing_nuls(trim_trailing_nuls(s)) == trim_trailing_nuls(s),
    decreases s.len(),
{
    if s.len() > 0 && s.last() == 0 {
        lemma_trim_trailing_nuls(s.drop_last());
        assert(s.drop_last().take(trim_trailing_nuls(s).len() as int) =~= s.take(
            trim_trailing_nuls(s).len() as int,
        ));
        assert forall|j: int| trim_trailing_nuls(s).len() <= j < s.len() implies s[j] == 0 by {
            if j < s.len() - 1 {
                assert(s.drop_last()[j] == s[j]);
            } else {
                assert(s[j] == s.last());
            }
        }
    } else {
        assert(s.take(s.len() as int) =~= s);
    }
}

/// Removes every trailing NUL byte of `buf`.
#[verifier::loop_isolation(false)]
fn trim_trailing(buf: Vec<u8>) -> (r: Vec<u8>)
    ensures
        r@ == trim_trailing_nuls(buf@),
{
    let mut buf = buf;
    let ghost full = buf@;
    let mut n: usize = buf.len();
    proof {
        assert(full.take(n as int) =~= full);
    }
    while n > 0 && buf[n - 1] == 0
        invariant
            n <= buf@.len(),
            buf@ == full,
            trim_trailing_nuls(full) == trim_trailing_nuls(full.take(n as int)),
        decreases n,
    {
        proof {
            assert(full.take(n as int).last() == full[n - 1]);
            assert(full.take(n as int).drop_last() =~= full.take(n - 1));
        }
        n = n - 1;
    }
    proof {
        if n == 0 {
            assert(full.take(0) =~= Seq::<u8>::empty());
        } else {
            assert(full.take(n as int).last() == full[n - 1]);
        }
        assert(trim_trailing_nuls(full.take(n as int)) == full.take(n as int));
    }
    buf.truncate(n);
    buf
}

/// A byte sequence that is valid UTF-8 up to `i` and holds no well-formed
/// scalar encoding at `i` is not valid UTF-8 as a whole.
proof fn lemma_invalid_at(s: Seq<u8>, i: int)
    requires
        0 <= i < s.len(),
        partial_valid_utf8(s, i),
        !valid_first_scalar(s.subrange(i, s.len() as int)),
    ensures
        !valid_utf8(s),
{
    let tail = s.subrange(i, s.len() as int);
    assert(tail.len() > 0);
    assert(!valid_utf8(tail));
    partial_valid_partial_invalid_utf8(s, i);
}

/// Decides whether `v` is a valid UTF-8 encoding: the check that decoding
/// bytes to text performs.
#[verifier::loop_isolation(false)]
fn validate_utf8(v: &[u8]) -> (b: bool)
    ensures
        b == valid_utf8(v@),
{
    let n: usize = v.len();
    let mut i: usize = 0;
    proof {
        assert(v@.subrange(0, 0) =~= Seq::<u8>::empty());
    }
    while i < n
        invariant
            i <= n,
            partial_valid_utf8(v@, i as int),
        decreases n - i,
    {
        let ghost tail = v@.subrange(i as int, v@.len() as int);
        let b0: u8 = v[i];
        proof {
            assert(tail[0] == b0);
        }
        if b0 < 0x80 {
            // A one-byte scalar: never overlong, never a surrogate.
            proof {
                assert((b0 & 0x7f) == b0) by (bit_vector)
                    requires
                        b0 < 0x80,
                ;
                assert(valid_first_scalar(tail));
                assert(length_of_first_scalar(tail) == 1);
                partial_valid_utf8_extend(v@, i as int);
            }
            i = i + 1;
        } else if b0 < 0xC0 {
            // A continuation byte cannot lead a scalar.
            proof {
                assert(!valid_first_scalar(tail));
                lemma_invalid_at(v@, i as int);
            }
            return false;
        } else if b0 < 0xE0 {
            if n - i < 2 {
                proof {
                    assert(!valid_first_scalar(tail));
                    lemma_invalid_at(v@, i as int);
                }
                return false;
            }
            let b1: u8 = v[i + 1];
            proof {
                assert(tail[1] == b1);
            }
            if b1 < 0x80 || b1 > 0xBF {
                proof {
                    assert(!valid_first_scalar(tail));
                    lemma_invalid_at(v@, i as int);
                }
                return false;
            }
            let cp: u32 = (((b0 & 0x1F) as u32) << 6) | ((b1 & 0x3F) as u32);
            proof {
                assert(cp == codepoint_width_2(b0, b1));
            }
            if cp < 0x80 {
                // An overlong two-byte encoding.
                proof {
                    assert(!valid_first_scalar(tail));
                    lemma_invalid_at(v@, i as int);
                }
                return false;
            }
            proof {
                assert((((b0 & 0x1F) as u32) << 6) | ((b1 & 0x3F) as u32) <= 0x7ff) by (bit_vector);
                assert(valid_first_scalar(tail));
                assert(length_of_first_scalar(tail) == 2);
                partial_valid_utf8_extend(v@, i as int);
            }
            i = i + 2;
        } else if b0 < 0xF0 {
            if n - i < 3 {
                proof {
                    assert(!valid_first_scalar(tail));
                    lemma_invalid_at(v@, i as int);
                }
                return false;
            }
            let b1: u8 = v[i + 1];
            let b2: u8 = v[i + 2];
            proof {
                assert(tail[1] == b1);
                assert(tail[2] == b2);
            }
            if b1 < 0x80 || b1 > 0xBF || b2 < 0x80 || b2 > 0xBF {
                proof {
                    assert(!valid_first_scalar(tail));
                    lemma_invalid_at(v@, i as int);
                }
                return false;
            }
            let cp: u32 = (((b0 & 0x0F) as u32) << 12) | (((b1 & 0x3F) as u32) << 6) | ((b2
                & 0x3F) as u32);
            proof {
                assert(cp == codepoint_width_3(b0, b1, b2));
            }
            if cp < 0x800 {
                // An overlong three-byte encoding.
                proof {
                    assert(!valid_first_scalar(tail));
                    lemma_invalid_at(v@, i as int);
                }
                return false;
            }
            if 0xD800 <= cp && cp <= 0xDFFF {
                // A surrogate codepoint is not a scalar.
                proof {
                    assert(!valid_first_scalar(tail));
                    lemma_invalid_at(v@, i as int);
                }
                return false;
            }
            proof {
                assert(valid_first_scalar(tail));
                assert(length_of_first_scalar(tail) == 3);
                partial_valid_utf8_extend(v@, i as int);
            }
            i = i + 3;
        } else if b0 < 0xF8 {
            if n - i < 4 {
                proof {
                    assert(!valid_first_scalar(tail));
                    lemma_invalid_at(v@, i as int);
                }
                return false;
            }
            let b1: u8 = v[i + 1];
            let b2: u8 = v[i + 2];
            let b3: u8 = v[i + 3];
            proof {
                assert(tail[1] == b1);
                assert(tail[2] == b2);
                assert(tail[3] == b3);
            }
            if b1 < 0x80 || b1 > 0xBF || b2 < 0x80 || b2 > 0xBF || b3 < 0x80 || b3 > 0xBF {
                proof {
                    assert(!valid_first_scalar(tail));
                    lemma_invalid_at(v@, i as int);
                }
                return false;
            }
            let cp: u32 = (((b0 & 0x07) as u32) << 18) | (((b1 & 0x3F) as u32) << 12) | (((b2
                & 0x3F) as u32) << 6) | ((b3 & 0x3F) as u32);
            proof {
                assert(cp == codepoint_width_4(b0, b1, b2, b3));
            }
            if cp < 0x10000 || cp > 0x10FFFF {
                // Overlong, or beyond the last Unicode scalar.
                proof {
                    assert(!valid_first_scalar(tail));
                    lemma_invalid_at(v@, i as int);
                }
                return false;
            }
            proof {
                assert(valid_first_scalar(tail));
                assert(length_of_first_scalar(tail) == 4);
                partial_valid_utf8_extend(v@, i as int);
            }
            i = i + 4;
        } else {
            // 0xF8 and above lead no scalar encoding.
            proof {
                assert(!valid_first_scalar(tail));
                lemma_invalid_at(v@, i as int);
            }
            return false;
        }
    }
    proof {
        assert(v@.subrange(0, v@.len() as int) =~= v@);
    }
    true
}

/// Reconstructs text bytes from raw pixel bytes: the buffer must be valid
/// UTF-8 as a whole, and every trailing NUL byte — the encoder's zero
/// padding — is stripped.
pub fn decrypt_bytes(buf: Vec<u8>) -> (r: HexCryptResult<Vec<u8>>)
    ensures
        valid_utf8(buf@) ==> (r matches Ok(t) && t@ == trim_trailing_nuls(buf@)),
        !valid_utf8(buf@) ==> (r matches Err(e) && e is BytesToString),
{
    if !validate_utf8(buf.as_slice()) {
        return Err(HexCryptError::BytesToString);
    }
    Ok(trim_trailing(buf))
}

/// Decodes the pixels of an RGB image back to the text they encode: the raw
/// bytes must be valid UTF-8, and trailing NUL padding is stripped.
pub fn decrypt(img: &PixelBuffer) -> (r: HexCryptResult<Vec<u8>>)
    ensures
        valid_utf8(pixel_bytes(*img)) ==> (r matches Ok(t) && t@ == trim_trailing_nuls(
            pixel_bytes(*img),
        )),
        !valid_utf8(pixel_bytes(*img)) ==> (r matches Err(e) && e is BytesToString),
{
    let buf = rgb_raw_bytes(img);
    decrypt_bytes(buf)
}

proof fn lemma_zero_bytes_valid(n: nat)
    ensures
        valid_utf8(zero_bytes(n)),
    decreases n,
{
    if n > 0 {
        let z = zero_bytes(n);
        assert(z[0] == 0);
        assert((0u8 & 0x7f) == 0u8) by (bit_vector);
        assert(valid_first_scalar(z));
        assert(length_of_first_scalar(z) == 1);
        assert(pop_first_scalar(z) =~= zero_bytes((n - 1) as nat));
        lemma_zero_bytes_valid((n - 1) as nat);
        assert(valid_utf8(z));
    }
}

/// The round trip: NUL-free text stays what it was. Appending any amount of
/// zero padding keeps a valid UTF-8 buffer valid, and trimming the padded
/// buffer returns exactly the original text.
pub proof fn lemma_round_trip(text: Seq<u8>, pad: nat)
    requires
        text.len() % 3 == 0,
        forall|i: int| 0 <= i < text.len() ==> text[i] != 0,
        valid_utf8(text),
    ensures
        valid_utf8(text + zero_bytes(pad)),
        trim_trailing_nuls(text + zero_bytes(pad)) == text,
    decreases pad,
{
    lemma_zero_bytes_valid(pad);
    valid_utf8_concat(text, zero_bytes(pad));
    if pad == 0 {
        assert(text + zero_bytes(0) =~= text);
        if text.len() > 0 {
            assert(text.last() != 0);
        }
    } else {
        let s = text + zero_bytes(pad);
        assert(s.last() == 0);
        assert(s.drop_last() =~= text + zero_bytes((pad - 1) as nat));
        lemma_round_trip(text, (pad - 1) as nat);
    }
}

} // verus!
