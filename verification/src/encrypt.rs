use vstd::prelude::*;
use vstd::string::StringSliceAdditionalSpecFns;
use vstd::utf8::encode_utf8;

use crate::error::{HexCryptError, HexCryptResult};
use crate::rgb::{pixel_bytes, pixel_dims, rgb_from_raw, PixelBuffer};

verus! {

/// True of the ASCII code of a decimal digit.
pub open spec fn is_digit(b: u8) -> bool {
    0x30 <= b <= 0x39
}

/// The value of a decimal digit given by its ASCII code.
pub open spec fn digit_val(b: u8) -> nat
    recommends
        is_digit(b),
{
    (b - 0x30) as nat
}

/// True when every byte of `s` is the ASCII code of a decimal digit.
pub open spec fn all_digits(s: Seq<u8>) -> bool {
    forall|i: int| 0 <= i < s.len() ==> is_digit(#[trigger] s[i])
}

/// The number written in decimal by the digit bytes of `s`.
pub open spec fn dec_value(s: Seq<u8>) -> nat
    recommends
        all_digits(s),
    decreases s.len(),
{
    if s.len() == 0 {
        0
    } else {
        dec_value(s.drop_last()) * 10 + digit_val(s.last())
    }
}

/// `s` without one leading ASCII `+`, if it has one: unsigned decimal
/// parsing accepts the sign.
pub open spec fn strip_plus(s: Seq<u8>) -> Seq<u8> {
    if s.len() > 0 && s[0] == 0x2b {
        s.drop_first()
    } else {
        s
    }
}

/// True when `s` is the ASCII text of an unsigned 32-bit integer: after an
/// optional leading `+`, one or more decimal digits whose value fits in
/// `u32`.
pub open spec fn is_u32_numeral(s: Seq<u8>) -> bool {
    let d = strip_plus(s);
    d.len() > 0 && all_digits(d) && dec_value(d) <= u32::MAX
}

/// The value of the numeral `s`.
pub open spec fn numeral_value(s: Seq<u8>) -> nat
    recommends
        is_u32_numeral(s),
{
    dec_value(strip_plus(s))
}

/// The index of the first ASCII `x` in `s`, or `-1` if there is none.
pub open spec fn find_split(s: Seq<u8>) -> int
    decreases s.len(),
{
    if s.len() == 0 {
        -1
    } else if s[0] == 0x78 {
        0
    } else if find_split(s.drop_first()) < 0 {
        -1
    } else {
        find_split(s.drop_first()) + 1
    }
}

/// True when the bytes of `s` match `<integer>x<integer>`: the part before
/// the first `x` and the whole part after it are both `u32` numerals.
pub open spec fn valid_size_spec(s: Seq<u8>) -> bool {
    let i = find_split(s);
    i >= 0 && is_u32_numeral(s.take(i)) && is_u32_numeral(s.skip(i + 1))
}

/// The width written before the first `x` of a valid size string.
pub open spec fn spec_width(s: Seq<u8>) -> nat
    recommends
        valid_size_spec(s),
{
    numeral_value(s.take(find_split(s)))
}

/// The height written after the first `x` of a valid size string.
pub open spec fn spec_height(s: Seq<u8>) -> nat
    recommends
        valid_size_spec(s),
{
    numeral_value(s.skip(find_split(s) + 1))
}

proof fn lemma_find_split_at(s: Seq<u8>, i: int)
    requires
        0 <= i < s.len(),
        s[i] == 0x78,
        forall|j: int| 0 <= j < i ==> s[j] != 0x78,
    ensures
        find_split(s) == i,
    decreases i,
{
    if i > 0 {
        lemma_find_split_at(s.drop_first(), i - 1);
    }
}

proof fn lemma_find_split_none(s: Seq<u8>)
    requires
        forall|j: int| 0 <= j < s.len() ==> s[j] != 0x78,
    ensures
        find_split(s) == -1,
    decreases s.len(),
{
    if s.len() > 0 {
        lemma_find_split_none(s.drop_first());
    }
}

/// A digit appended on the right can only grow the value.
proof fn lemma_dec_value_prefix_le(s: Seq<u8>, i: int)
    requires
        0 <= i <= s.len(),
        all_digits(s),
    ensures
        dec_value(s.take(i)) <= dec_value(s),
    decreases s.len() - i,
{
    if i < s.len() {
        assert(s.take(i + 1).drop_last() =~= s.take(i));
        assert(s.take(i + 1).last() == s[i]);
        assert(dec_value(s.take(i)) <= dec_value(s.take(i + 1)));
        lemma_dec_value_prefix_le(s, i + 1);
        assert(s.take(s.len() as int) =~= s);
    } else {
        assert(s.take(i) =~= s);
    }
}

/// Parses the digit run `b[from..to]` as a `u32`, with `None` exactly where
/// the bytes are not a `u32` numeral.
#[verifier::loop_isolation(false)]
fn parse_u32(b: &[u8], from: usize, to: usize) -> (r: Option<u32>)
    requires
        from <= to <= b@.len(),
    ensures
        r is Some <==> is_u32_numeral(b@.subrange(from as int, to as int)),
        r matches Some(v) ==> v == numeral_value(b@.subrange(from as int, to as int)),
{
    let ghost whole = b@.subrange(from as int, to as int);
    let mut from = from;
    if from < to && b[from] == 0x2b {
        proof {
            assert(whole[0] == 0x2b);
            assert(strip_plus(whole) =~= b@.subrange(from + 1, to as int));
        }
        from = from + 1;
    } else {
        proof {
            assert(strip_plus(whole) =~= b@.subrange(from as int, to as int));
        }
    }
    let ghost digits = strip_plus(whole);
    if from == to {
        return None;
    }
    // First pass: every byte must be a digit.
    let mut i: usize = from;
    while i < to
        invariant
            from <= i <= to <= b@.len(),
            digits == b@.subrange(from as int, to as int),
            forall|j: int| 0 <= j < i - from ==> is_digit(#[trigger] digits[j]),
        decreases to - i,
    {
        let c: u8 = b[i];
        proof {
            assert(digits[i - from] == c);
        }
        if c < 0x30 || c > 0x39 {
            return None;
        }
        i = i + 1;
    }
    assert(all_digits(digits));
    // Second pass: accumulate, rejecting any value beyond u32::MAX.
    let mut acc: u64 = 0;
    let mut i: usize = from;
    while i < to
        invariant
            from <= i <= to <= b@.len(),
            digits == b@.subrange(from as int, to as int),
            all_digits(digits),
            acc <= u32::MAX,
            acc == dec_value(digits.take(i - from)),
        decreases to - i,
    {
        let c: u8 = b[i];
        proof {
            assert(digits[i - from] == c);
            assert(digits.take(i - from + 1).drop_last() =~= digits.take(i - from));
            assert(digits.take(i - from + 1).last() == c);
        }
        let d: u64 = (c - 0x30) as u64;
        acc = acc * 10 + d;
        i = i + 1;
        if acc > 0xFFFF_FFFF {
            proof {
                lemma_dec_value_prefix_le(digits, i - from);
                assert(digits.take(digits.len() as int) =~= digits);
            }
            return None;
        }
    }
    proof {
        assert(digits.take(digits.len() as int) =~= digits);
    }
    Some(acc as u32)
}

/// Parses a size specifier of the shape `<integer>x<integer>` — the two
/// numbers split at the first lowercase `x` — into a (width, height) pair.
/// Any malformed specifier fails with `InvalidImageSize` carrying the
/// original string.
#[verifier::loop_isolation(false)]
pub fn parse_size(s: &str) -> (r: HexCryptResult<(u32, u32)>)
    ensures
        valid_size_spec(s.spec_bytes()) ==> (r matches Ok(wh) && wh.0 == spec_width(
            s.spec_bytes(),
        ) && wh.1 == spec_height(s.spec_bytes())),
        !valid_size_spec(s.spec_bytes()) ==> (r matches Err(e) && (e matches
            HexCryptError::InvalidImageSize(t) && t@ == s@)),
{
    let b = s.as_bytes();
    let n: usize = b.len();
    // Find the first 'x'.
    let mut i: usize = 0;
    let mut found = false;
    while i < n && !found
        invariant
            0 <= i <= n,
            n == b@.len(),
            !found ==> forall|j: int| 0 <= j < i ==> b@[j] != 0x78,
            found ==> i < n && b@[i as int] == 0x78 && forall|j: int| 0 <= j < i ==> b@[j] != 0x78,
        decreases n - i + (if found { 0int } else { 1int }),
    {
        if b[i] == 0x78 {
            found = true;
        } else {
            i = i + 1;
        }
    }
    if !found {
        proof {
            lemma_find_split_none(b@);
        }
        return Err(HexCryptError::InvalidImageSize(s.to_owned()));
    }
    proof {
        lemma_find_split_at(b@, i as int);
        assert(b@.subrange(0, i as int) =~= b@.take(i as int));
        assert(b@.subrange(i + 1, n as int) =~= b@.skip(i + 1));
    }
    let w = match parse_u32(b, 0, i) {
        Some(w) => w,
        None => {
            return Err(HexCryptError::InvalidImageSize(s.to_owned()));
        },
    };
    let h = match parse_u32(b, i + 1, n) {
        Some(h) => h,
        None => {
            return Err(HexCryptError::InvalidImageSize(s.to_owned()));
        },
    };
    Ok((w, h))
}

/// True when `n` is the ceiling of the square root of `k`.
pub open spec fn is_ceil_sqrt(n: nat, k: nat) -> bool {
    &&& n * n >= k
    &&& n > 0 ==> (n - 1) * (n - 1) < k
}

/// The ceiling of the square root of `k`.
pub open spec fn ceil_sqrt(k: nat) -> nat {
    choose|n: nat| is_ceil_sqrt(n, k)
}

/// `ceil_sqrt` is well defined: a ceiling square root exists and any two
/// agree.
pub proof fn lemma_ceil_sqrt(k: nat)
    ensures
        is_ceil_sqrt(ceil_sqrt(k), k),
        forall|n: nat| is_ceil_sqrt(n, k) ==> n == ceil_sqrt(k),
    decreases k,
{
    if k == 0 {
        assert(is_ceil_sqrt(0, 0));
    } else {
        lemma_ceil_sqrt((k - 1) as nat);
        let m = ceil_sqrt((k - 1) as nat);
        if m * m >= k {
            assert(is_ceil_sqrt(m, k));
        } else {
            assert(is_ceil_sqrt(m + 1, k)) by {
                assert((m + 1) * (m + 1) >= k) by (nonlinear_arith)
                    requires
                        m * m >= k - 1,
                ;
            }
        }
        assert(forall|n: nat| is_ceil_sqrt(n, k) ==> n == ceil_sqrt(k)) by {
            assert forall|n: nat| is_ceil_sqrt(n, k) implies n == ceil_sqrt(k) by {
                lemma_ceil_sqrt_unique(n, ceil_sqrt(k), k);
            }
        }
    }
}

proof fn lemma_ceil_sqrt_unique(n1: nat, n2: nat, k: nat)
    requires
        is_ceil_sqrt(n1, k),
        is_ceil_sqrt(n2, k),
    ensures
        n1 == n2,
{
    if n1 < n2 {
        assert(n1 * n1 < k) by (nonlinear_arith)
            requires
                n1 <= n2 - 1,
                n2 > 0,
                ((n2 - 1) as nat) * ((n2 - 1) as nat) < k,
        ;
    }
    if n2 < n1 {
        assert(n2 * n2 < k) by (nonlinear_arith)
            requires
                n2 <= n1 - 1,
                n1 > 0,
                ((n1 - 1) as nat) * ((n1 - 1) as nat) < k,
        ;
    }
}

/// The default square dimensions for `byte_len` bytes of text: `(n, n)`
/// for the smallest `n` whose square holds the text's `byte_len / 3` whole
/// 3-byte groups.
pub fn default_size(byte_len: usize) -> (r: (u32, u32))
    ensures
        r.0 == r.1,
        r.0 == ceil_sqrt((byte_len / 3) as nat),
{
    let k: u64 = (byte_len as u64) / 3;
    let mut n: u64 = 0;
    loop
        invariant
            k <= u64::MAX / 3,
            n > 0 ==> (n - 1) * (n - 1) < k,
            n <= 0xFFFF_FFFF,
        ensures
            n * n >= k,
            n > 0 ==> (n - 1) * (n - 1) < k,
            n <= 0xFFFF_FFFF,
        decreases k - n,
    {
        proof {
            assert(n * n <= 0xFFFF_FFFE_0000_0001) by (nonlinear_arith)
                requires
                    n <= 0xFFFF_FFFF,
            ;
        }
        let sq: u64 = n * n;
        if sq >= k {
            break ;
        }
        proof {
            assert(n < 0xFFFF_FFFF) by (nonlinear_arith)
                requires
                    n * n < k,
                    k <= u64::MAX / 3,
            ;
            assert(n + 1 <= k) by (nonlinear_arith)
                requires
                    n * n < k,
            ;
        }
        n = n + 1;
    }
    proof {
        assert(is_ceil_sqrt(n as nat, k as nat));
        lemma_ceil_sqrt(k as nat);
        assert(n as nat == ceil_sqrt(k as nat));
        assert(k as nat == (byte_len / 3) as nat);
    }
    (n as u32, n as u32)
}

/// `n` zero bytes: the padding appended to reach the pixel capacity.
pub open spec fn zero_bytes(n: nat) -> Seq<u8> {
    Seq::new(n, |i: int| 0u8)
}

/// Default square dimensions hold the text: when the byte length is a
/// multiple of 3, the default size `n = ceil_sqrt(len / 3)` gives a pixel
/// capacity of at least `len` bytes.
pub proof fn lemma_default_capacity(len: nat)
    requires
        len % 3 == 0,
    ensures
        3 * ceil_sqrt(len / 3) * ceil_sqrt(len / 3) >= len,
{
    lemma_ceil_sqrt(len / 3);
    let n = ceil_sqrt(len / 3);
    assert(n * n >= len / 3);
    assert(3 * n * n >= 3 * (len / 3)) by (nonlinear_arith)
        requires
            n * n >= len / 3,
    ;
}

/// What encoding `text` into dimensions `(w, h)` yields. With a pixel
/// capacity of `w * h`: too little capacity for the text's whole 3-byte
/// groups, or a byte length that is no multiple of 3, fails with
/// `CannotCreateImage(w, h)`; otherwise the pixel buffer holds exactly the
/// text followed by zero padding up to `3 * w * h` bytes.
pub open spec fn encrypt_outcome(
    r: HexCryptResult<PixelBuffer>,
    text: Seq<u8>,
    w: u32,
    h: u32,
) -> bool {
    let cap = (w as nat) * (h as nat);
    if cap < text.len() / 3 || text.len() % 3 != 0 {
        r matches Err(e) && e == HexCryptError::CannotCreateImage(w, h)
    } else {
        r matches Ok(img) && (pixel_bytes(img) == text + zero_bytes(
            (3 * cap - text.len()) as nat,
        ) && pixel_dims(img) == (w, h))
    }
}

/// Encodes text bytes into an RGB pixel buffer.
///
/// The dimensions come from the size specifier when one is given —
/// rejecting a malformed one with `InvalidImageSize` — or default to the
/// smallest square whose pixel capacity holds the text's whole 3-byte
/// groups. Capacity left over is filled with zero pixels; text overflowing
/// the capacity, or a byte length that is no multiple of 3, is refused with
/// `CannotCreateImage`.
#[verifier::loop_isolation(false)]
pub fn encrypt(text: Vec<u8>, size: Option<String>) -> (r: HexCryptResult<PixelBuffer>)
    ensures
        (match size {
            Option::Some(s) => {
                if valid_size_spec(encode_utf8(s@)) {
                    encrypt_outcome(
                        r,
                        text@,
                        spec_width(encode_utf8(s@)) as u32,
                        spec_height(encode_utf8(s@)) as u32,
                    )
                } else {
                    r matches Err(e) && (e matches HexCryptError::InvalidImageSize(t) && t@
                        == s@)
                }
            },
            Option::None => encrypt_outcome(
                r,
                text@,
                ceil_sqrt((text@.len() / 3) as nat) as u32,
                ceil_sqrt((text@.len() / 3) as nat) as u32,
            ),
        }),
{
    let ghost t0 = text@;
    let text_len: usize = text.len();
    let (w, h): (u32, u32) = match &size {
        Option::Some(s) => {
            match parse_size(s.as_str()) {
                Ok(wh) => wh,
                Err(e) => {
                    return Err(e);
                },
            }
        },
        Option::None => default_size(text_len),
    };
    let groups: u64 = (text_len as u64) / 3;
    proof {
        assert((w as int) * (h as int) <= 0xFFFF_FFFF * 0xFFFF_FFFF) by (nonlinear_arith)
            requires
                w <= 0xFFFF_FFFFu32,
                h <= 0xFFFF_FFFFu32,
        ;
    }
    let cap: u64 = (w as u64) * (h as u64);
    if cap < groups {
        return Err(HexCryptError::CannotCreateImage(w, h));
    }
    if text_len % 3 != 0 {
        return Err(HexCryptError::CannotCreateImage(w, h));
    }
    let mut buf = text;
    let diff: u64 = cap - groups;
    proof {
        assert(t0 + zero_bytes(0) =~= t0);
    }
    let mut j: u64 = 0;
    while j < diff
        invariant
            j <= diff,
            buf@ == t0 + zero_bytes((3 * j) as nat),
        decreases diff - j,
    {
        buf.push(0);
        buf.push(0);
        buf.push(0);
        j = j + 1;
        proof {
            assert(buf@ =~= t0 + zero_bytes((3 * j) as nat));
        }
    }
    proof {
        assert(j == diff);
        assert(buf@.len() == text_len + 3 * (diff as int));
        assert(3 * (groups as int) == text_len as int);
        assert(cap as int == (w as int) * (h as int));
        assert(buf@.len() == 3 * (cap as int));
        assert(3 * ((w as int) * (h as int)) == 3 * (w as int) * (h as int)) by (nonlinear_arith);
        assert(buf@.len() == 3 * (w as int) * (h as int));
    }
    let img = rgb_from_raw(w, h, buf);
    Ok(img)
}

} // verus!
