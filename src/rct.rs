//! The reversible colour transform: RGB to a luminance-like Y and two chroma
//! differences, stored modulo 2^8 (or 2^16) and sign-extended on the way back.
use vstd::prelude::*;

verus! {

/// `v` clamped to `[0, hi]`.
pub open spec fn clamp(v: int, hi: int) -> int {
    if v < 0 {
        0
    } else if v > hi {
        hi
    } else {
        v
    }
}

/// The number of values of a channel: 2^16 for 16-bit pixels, else 2^8.
pub open spec fn modulus(wide: bool) -> int {
    if wide {
        65536
    } else {
        256
    }
}

/// `v` reduced into `[0, modulus)`.
pub open spec fn wrap(v: int, wide: bool) -> int {
    if wide {
        v % 65536
    } else {
        v % 256
    }
}

/// A stored chroma value read back as a signed number.
pub open spec fn signed(v: int, wide: bool) -> int {
    if wide {
        if v >= 32768 {
            v - 65536
        } else {
            v
        }
    } else {
        if v >= 128 {
            v - 256
        } else {
            v
        }
    }
}

/// The forward transform of one pixel.
pub open spec fn forward(r: int, g: int, b: int, wide: bool) -> (int, int, int) {
    (clamp((r + 2 * g + b) / 4, modulus(wide) - 1), wrap(b - g, wide), wrap(r - g, wide))
}

/// The inverse transform of one stored pixel `(y, cb, cr)`.
pub open spec fn inverse(y: int, cb: int, cr: int, wide: bool) -> (int, int, int) {
    let scb = signed(cb, wide);
    let scr = signed(cr, wide);
    let g = y - (scb + scr) / 4;
    let hi = modulus(wide) - 1;
    (clamp(scr + g, hi), clamp(g, hi), clamp(scb + g, hi))
}

/// Channel `c` of a pixel.
pub open spec fn chan(t: (int, int, int), c: int) -> int {
    if c == 0 {
        t.0
    } else if c == 1 {
        t.1
    } else {
        t.2
    }
}

pub proof fn lemma_inverse_len(s: Seq<u8>)
    ensures
        rgb8_inverse(s).len() == s.len(),
        rgb16_inverse(s).len() == s.len(),
        rgb8_forward(s).len() == s.len(),
        rgb16_forward(s).len() == s.len(),
{
    reveal(rgb16_inverse);
    reveal(rgb16_forward);
}

/// Whether a pixel's chroma differences fit the signed range of the stored
/// channels, the pixels on which the transform is exactly reversible.
pub open spec fn chroma_fits(r: int, g: int, b: int, wide: bool) -> bool {
    let half = modulus(wide) / 2;
    -half <= b - g < half && -half <= r - g < half
}

/// The inverse transform restores every pixel whose chroma differences fit
/// the stored signed range.
pub proof fn lemma_rct_round_trip(r: int, g: int, b: int, wide: bool)
    requires
        0 <= r < modulus(wide),
        0 <= g < modulus(wide),
        0 <= b < modulus(wide),
        chroma_fits(r, g, b, wide),
    ensures
        ({
            let f = forward(r, g, b, wide);
            inverse(f.0, f.1, f.2, wide) == (r, g, b)
        }),
{
    let f = forward(r, g, b, wide);
    let s = (b - g) + (r - g);
    assert((r + 2 * g + b) / 4 == g + s / 4);
    assert(signed(f.1, wide) == b - g);
    assert(signed(f.2, wide) == r - g);
}

/// The transform of a buffer of 8-bit RGB pixels; a trailing partial pixel is
/// left as it is.
pub open spec fn rgb8_forward(s: Seq<u8>) -> Seq<u8> {
    Seq::new(
        s.len(),
        |i: int|
            if i < s.len() - s.len() % 3 {
                let p = i - i % 3;
                chan(forward(s[p] as int, s[p + 1] as int, s[p + 2] as int, false), i % 3) as u8
            } else {
                s[i]
            },
    )
}

/// The inverse transform of a buffer of 8-bit pixels.
pub open spec fn rgb8_inverse(s: Seq<u8>) -> Seq<u8> {
    Seq::new(
        s.len(),
        |i: int|
            if i < s.len() - s.len() % 3 {
                let p = i - i % 3;
                chan(inverse(s[p] as int, s[p + 1] as int, s[p + 2] as int, false), i % 3) as u8
            } else {
                s[i]
            },
    )
}

/// Whether every whole 8-bit pixel of `s` has chroma differences that fit a
/// signed byte.
pub open spec fn rgb8_fits(s: Seq<u8>) -> bool {
    forall|p: int|
        0 <= p < s.len() - s.len() % 3 && p % 3 == 0 ==> #[trigger] chroma_fits(
            s[p] as int,
            s[p + 1] as int,
            s[p + 2] as int,
            false,
        )
}

proof fn lemma_forward_range(r: int, g: int, b: int, wide: bool)
    requires
        0 <= r < modulus(wide),
        0 <= g < modulus(wide),
        0 <= b < modulus(wide),
    ensures
        0 <= forward(r, g, b, wide).0 < modulus(wide),
        0 <= forward(r, g, b, wide).1 < modulus(wide),
        0 <= forward(r, g, b, wide).2 < modulus(wide),
{
}

/// The inverse transform restores every 8-bit buffer whose pixels' chroma
/// differences fit a signed byte.
pub proof fn lemma_rgb8_round_trip(s: Seq<u8>)
    requires
        rgb8_fits(s),
    ensures
        rgb8_inverse(rgb8_forward(s)) == s,
{
    let f = rgb8_forward(s);
    let full = s.len() - s.len() % 3;
    assert forall|i: int| 0 <= i < s.len() implies #[trigger] rgb8_inverse(f)[i] == s[i] by {
        if i < full {
            let p = i - i % 3;
            assert(p % 3 == 0 && p + 2 < full);
            assert((p + 1) - (p + 1) % 3 == p && (p + 2) - (p + 2) % 3 == p);
            assert((p + 1) % 3 == 1 && (p + 2) % 3 == 2);
            let (r, g, b) = (s[p] as int, s[p + 1] as int, s[p + 2] as int);
            assert(chroma_fits(r, g, b, false));
            lemma_forward_range(r, g, b, false);
            lemma_rct_round_trip(r, g, b, false);
            let t = forward(r, g, b, false);
            assert(f[p] as int == t.0 && f[p + 1] as int == t.1 && f[p + 2] as int == t.2);
        }
    }
    assert(rgb8_inverse(f) =~= s);
}

/// The little-endian 16-bit value of two bytes.
pub open spec fn le16(lo: u8, hi: u8) -> int {
    lo as int + 256 * hi as int
}

/// Byte `c % 2` of channel `c / 2` of a 16-bit pixel, for `c` below 6.
#[verifier::opaque]
pub open spec fn byte_of16(t: (int, int, int), c: int) -> u8 {
    let v = chan(t, c / 2);
    if c % 2 == 0 {
        (v % 256) as u8
    } else {
        (v / 256) as u8
    }
}

/// The transform of a buffer of 16-bit little-endian RGB pixels; a trailing
/// partial pixel is left as it is.
#[verifier::opaque]
pub open spec fn rgb16_forward(s: Seq<u8>) -> Seq<u8> {
    Seq::new(
        s.len(),
        |i: int|
            if i < s.len() - s.len() % 6 {
                let p = i - i % 6;
                byte_of16(
                    forward(le16(s[p], s[p + 1]), le16(s[p + 2], s[p + 3]), le16(s[p + 4], s[p + 5]), true),
                    i % 6,
                )
            } else {
                s[i]
            },
    )
}

/// The inverse transform of a buffer of 16-bit pixels.
#[verifier::opaque]
pub open spec fn rgb16_inverse(s: Seq<u8>) -> Seq<u8> {
    Seq::new(
        s.len(),
        |i: int|
            if i < s.len() - s.len() % 6 {
                let p = i - i % 6;
                byte_of16(
                    inverse(le16(s[p], s[p + 1]), le16(s[p + 2], s[p + 3]), le16(s[p + 4], s[p + 5]), true),
                    i % 6,
                )
            } else {
                s[i]
            },
    )
}

proof fn lemma_wrap(v: int, wide: bool)
    requires
        -modulus(wide) < v < modulus(wide),
    ensures
        wrap(v, wide) == if v >= 0 { v } else { v + modulus(wide) },
{
}

fn clamp_exec(v: i64, hi: i64) -> (r: i64)
    ensures
        r == clamp(v as int, hi as int),
{
    if v < 0 {
        0
    } else if v > hi {
        hi
    } else {
        v
    }
}

/// One pixel forward: channels in range in, stored channels out.
fn forward_pixel(r: i64, g: i64, b: i64, wide: bool) -> (t: (i64, i64, i64))
    requires
        0 <= r < modulus(wide),
        0 <= g < modulus(wide),
        0 <= b < modulus(wide),
    ensures
        (t.0 as int, t.1 as int, t.2 as int) == forward(r as int, g as int, b as int, wide),
        0 <= t.0 < modulus(wide),
        0 <= t.1 < modulus(wide),
        0 <= t.2 < modulus(wide),
{
    let y = (r + 2 * g + b) / 4;
    let m: i64 = if wide { 65536 } else { 256 };
    proof {
        lemma_wrap(b - g, wide);
        lemma_wrap(r - g, wide);
    }
    let cb = if b >= g { b - g } else { b + m - g };
    let cr = if r >= g { r - g } else { r + m - g };
    (y, cb, cr)
}

/// One stored pixel back to channels in range.
fn inverse_pixel(y: i64, cb: i64, cr: i64, wide: bool) -> (t: (i64, i64, i64))
    requires
        0 <= y < modulus(wide),
        0 <= cb < modulus(wide),
        0 <= cr < modulus(wide),
    ensures
        (t.0 as int, t.1 as int, t.2 as int) == inverse(y as int, cb as int, cr as int, wide),
        0 <= t.0 < modulus(wide),
        0 <= t.1 < modulus(wide),
        0 <= t.2 < modulus(wide),
{
    let (scb, scr, hi) = if wide {
        (if cb >= 32768 { cb - 65536 } else { cb }, if cr >= 32768 { cr - 65536 } else { cr }, 65535)
    } else {
        (if cb >= 128 { cb - 256 } else { cb }, if cr >= 128 { cr - 256 } else { cr }, 255)
    };
    let sum = scb + scr;
    // floor division of a possibly negative sum, through a non-negative one
    let q = (sum + 262144) / 4 - 65536;
    assert(q == (sum as int) / 4);
    let g = y - q;
    (clamp_exec(scr + g, hi), clamp_exec(g, hi), clamp_exec(scb + g, hi))
}

/// Applies the transform in place to 8-bit RGB pixels.
pub fn rct_forward_rgb8(buf: &mut Vec<u8>)
    ensures
        final(buf)@ == rgb8_forward(old(buf)@),
{
    let ghost s = buf@;
    let n = buf.len();
    let full = n - n % 3;
    let mut k: usize = 0;
    while k < full
        invariant
            buf@.len() == n == s.len(),
            full == n - n % 3,
            k % 3 == 0,
            k <= full,
            forall|i: int| 0 <= i < k ==> #[trigger] buf@[i] == rgb8_forward(s)[i],
            forall|i: int| k <= i < n ==> #[trigger] buf@[i] == s[i],
        decreases full - k,
    {
        let t = forward_pixel(buf[k] as i64, buf[k + 1] as i64, buf[k + 2] as i64, false);
        buf.set(k, t.0 as u8);
        buf.set(k + 1, t.1 as u8);
        buf.set(k + 2, t.2 as u8);
        assert forall|i: int| k <= i < k + 3 implies #[trigger] buf@[i] == rgb8_forward(s)[i] by {
            assert(i - i % 3 == k);
        }
        k += 3;
    }
    assert(buf@ =~= rgb8_forward(s));
}

/// Applies the inverse transform in place to 8-bit pixels.
pub fn rct_inverse_rgb8(buf: &mut Vec<u8>)
    ensures
        final(buf)@ == rgb8_inverse(old(buf)@),
{
    let ghost s = buf@;
    let n = buf.len();
    let full = n - n % 3;
    let mut k: usize = 0;
    while k < full
        invariant
            buf@.len() == n == s.len(),
            full == n - n % 3,
            k % 3 == 0,
            k <= full,
            forall|i: int| 0 <= i < k ==> #[trigger] buf@[i] == rgb8_inverse(s)[i],
            forall|i: int| k <= i < n ==> #[trigger] buf@[i] == s[i],
        decreases full - k,
    {
        let t = inverse_pixel(buf[k] as i64, buf[k + 1] as i64, buf[k + 2] as i64, false);
        buf.set(k, t.0 as u8);
        buf.set(k + 1, t.1 as u8);
        buf.set(k + 2, t.2 as u8);
        assert forall|i: int| k <= i < k + 3 implies #[trigger] buf@[i] == rgb8_inverse(s)[i] by {
            assert(i - i % 3 == k);
        }
        k += 3;
    }
    assert(buf@ =~= rgb8_inverse(s));
}

fn read16(buf: &Vec<u8>, k: usize) -> (v: i64)
    requires
        k + 1 < buf@.len(),
    ensures
        v == le16(buf@[k as int], buf@[k + 1]),
        0 <= v < 65536,
{
    let n = buf.len();
    assert(k + 1 < n);
    let lo = buf[k] as i64;
    let hi = buf[k + 1] as i64;
    lo + 256 * hi
}

fn write16(buf: &mut Vec<u8>, k: usize, v: i64)
    requires
        k + 1 < old(buf)@.len(),
        0 <= v < 65536,
    ensures
        final(buf)@ == old(buf)@.update(k as int, (v % 256) as u8).update(k + 1, (v / 256) as u8),
{
    let n = buf.len();
    assert(k + 1 < n);
    buf.set(k, (v % 256) as u8);
    buf.set(k + 1, (v / 256) as u8);
}

/// The 16-bit pixel that starts at byte `k` of `s`.
pub open spec fn pixel16(s: Seq<u8>, k: int) -> (int, int, int) {
    (le16(s[k], s[k + 1]), le16(s[k + 2], s[k + 3]), le16(s[k + 4], s[k + 5]))
}

/// The forward transform of a 16-bit pixel, or the inverse where `inv` holds.
#[verifier::opaque]
pub open spec fn transform16(p: (int, int, int), inv: bool) -> (int, int, int) {
    if inv {
        inverse(p.0, p.1, p.2, true)
    } else {
        forward(p.0, p.1, p.2, true)
    }
}

/// Whether every whole 16-bit pixel of `s` has chroma differences that fit a
/// signed 16-bit value.
pub open spec fn rgb16_fits(s: Seq<u8>) -> bool {
    forall|p: int|
        0 <= p < s.len() - s.len() % 6 && p % 6 == 0 ==> #[trigger] chroma_fits(
            le16(s[p], s[p + 1]),
            le16(s[p + 2], s[p + 3]),
            le16(s[p + 4], s[p + 5]),
            true,
        )
}

proof fn lemma_le16_split(v: int)
    requires
        0 <= v < 65536,
    ensures
        le16((v % 256) as u8, (v / 256) as u8) == v,
{
}

proof fn lemma_le16_bytes(lo: u8, hi: u8)
    ensures
        le16(lo, hi) % 256 == lo,
        le16(lo, hi) / 256 == hi,
{
}

/// The inverse transform restores every 16-bit buffer whose pixels' chroma
/// differences fit a signed 16-bit value.
pub proof fn lemma_rgb16_round_trip(s: Seq<u8>)
    requires
        rgb16_fits(s),
    ensures
        rgb16_inverse(rgb16_forward(s)) == s,
{
    reveal(rgb16_forward);
    reveal(rgb16_inverse);
    reveal(byte_of16);
    let f = rgb16_forward(s);
    let full = s.len() - s.len() % 6;
    assert forall|i: int| 0 <= i < s.len() implies #[trigger] rgb16_inverse(f)[i] == s[i] by {
        if i < full {
            let p = i - i % 6;
            assert(p % 6 == 0 && p + 5 < full);
            assert forall|c: int| 0 <= c < 6 implies (p + c) - #[trigger] ((p + c) % 6) == p && (p + c) % 6 == c by {}
            let (r, g, b) = (le16(s[p], s[p + 1]), le16(s[p + 2], s[p + 3]), le16(s[p + 4], s[p + 5]));
            assert(chroma_fits(r, g, b, true));
            lemma_forward_range(r, g, b, true);
            lemma_rct_round_trip(r, g, b, true);
            let t = forward(r, g, b, true);
            assert(f[p] == byte_of16(t, 0) && f[p + 1] == byte_of16(t, 1));
            assert(f[p + 2] == byte_of16(t, 2) && f[p + 3] == byte_of16(t, 3));
            assert(f[p + 4] == byte_of16(t, 4) && f[p + 5] == byte_of16(t, 5));
            lemma_le16_split(t.0);
            lemma_le16_split(t.1);
            lemma_le16_split(t.2);
            lemma_le16_bytes(s[p], s[p + 1]);
            lemma_le16_bytes(s[p + 2], s[p + 3]);
            lemma_le16_bytes(s[p + 4], s[p + 5]);
            assert(rgb16_inverse(f)[p + (i - p)] == byte_of16(inverse(t.0, t.1, t.2, true), i - p));
        }
    }
    assert(rgb16_inverse(f) =~= s);
}

/// Transforms the 16-bit pixel at byte `k` in place.
fn transform16_at(buf: &mut Vec<u8>, k: usize, inv: bool)
    requires
        k + 6 <= old(buf)@.len(),
    ensures
        final(buf)@.len() == old(buf)@.len(),
        forall|i: int|
            0 <= i < old(buf)@.len() && !(k <= i < k + 6) ==> #[trigger] final(buf)@[i] == old(buf)@[i],
        forall|c: int|
            0 <= c < 6 ==> #[trigger] final(buf)@[k + c] == byte_of16(transform16(pixel16(old(buf)@, k as int), inv), c),
{
    proof {
        reveal(transform16);
        reveal(byte_of16);
    }
    let n = buf.len();
    assert(k + 6 <= n);
    let r = read16(buf, k);
    let g = read16(buf, k + 2);
    let b = read16(buf, k + 4);
    let t = if inv { inverse_pixel(r, g, b, true) } else { forward_pixel(r, g, b, true) };
    write16(buf, k, t.0);
    write16(buf, k + 2, t.1);
    write16(buf, k + 4, t.2);
}

/// Applies the 16-bit transform, or its inverse, to every whole pixel.
fn transform16_all(buf: &mut Vec<u8>, inv: bool)
    ensures
        final(buf)@.len() == old(buf)@.len(),
        forall|i: int|
            0 <= i < old(buf)@.len() - old(buf)@.len() % 6 ==> #[trigger] final(buf)@[i] == byte_of16(
                transform16(pixel16(old(buf)@, i - i % 6), inv),
                i % 6,
            ),
        forall|i: int|
            old(buf)@.len() - old(buf)@.len() % 6 <= i < old(buf)@.len() ==> #[trigger] final(buf)@[i] == old(buf)@[i],
{
    let ghost s = buf@;
    let n = buf.len();
    let full = n - n % 6;
    let mut k: usize = 0;
    while k < full
        invariant
            buf@.len() == n == s.len(),
            full == n - n % 6,
            k % 6 == 0,
            k <= full,
            forall|i: int|
                0 <= i < k ==> #[trigger] buf@[i] == byte_of16(transform16(pixel16(s, i - i % 6), inv), i % 6),
            forall|i: int| k <= i < n ==> #[trigger] buf@[i] == s[i],
        decreases full - k,
    {
        let ghost before = buf@;
        transform16_at(buf, k, inv);
        assert(pixel16(before, k as int) == pixel16(s, k as int));
        assert forall|i: int| k <= i < k + 6 implies #[trigger] buf@[i] == byte_of16(
            transform16(pixel16(s, i - i % 6), inv),
            i % 6,
        ) by {
            assert(buf@[k + (i - k)] == byte_of16(transform16(pixel16(before, k as int), inv), i - k));
        }
        k += 6;
    }
}

/// Applies the transform in place to 16-bit little-endian RGB pixels.
pub fn rct_forward_rgb16(buf: &mut Vec<u8>)
    ensures
        final(buf)@ == rgb16_forward(old(buf)@),
{
    let ghost s = buf@;
    transform16_all(buf, false);
    proof {
        reveal(rgb16_forward);
        reveal(transform16);
    }
    assert(buf@ =~= rgb16_forward(s));
}

/// Applies the inverse transform in place to 16-bit pixels.
pub fn rct_inverse_rgb16(buf: &mut Vec<u8>)
    ensures
        final(buf)@ == rgb16_inverse(old(buf)@),
{
    let ghost s = buf@;
    transform16_all(buf, true);
    proof {
        reveal(rgb16_inverse);
        reveal(transform16);
    }
    assert(buf@ =~= rgb16_inverse(s));
}

} // verus!
