//! The byte codecs: RLE, LZ77, delta and predictive transforms.
//!
//! RLE and LZ77 share a framing: every byte but `0xFF` stands for itself, and
//! `0xFF` opens an escape whose tag byte says what follows.
use vstd::prelude::*;
use crate::error::CtiError;
use vstd::arithmetic::div_mod::lemma_small_mod;

verus! {

pub const ESCAPE: u8 = 0xFF;
pub const TAG_ESCAPE_FF: u8 = 0x00;
pub const TAG_RLE: u8 = 0x01;
pub const TAG_LZ77: u8 = 0x02;
pub const LZ77_WINDOW: usize = 4096;
pub const LZ77_MIN_MATCH: usize = 3;
pub const MAX_RUN: usize = 255;

// ===================== Decoding =====================

/// `count` copies of `v`.
pub open spec fn repeat(v: u8, count: nat) -> Seq<u8> {
    Seq::new(count, |k: int| v)
}

/// The bytes that a back-reference of distance `dist` and length `len` appends
/// to `acc`: a byte-by-byte copy, so that an overlapping reference repeats the
/// last `dist` bytes.
pub open spec fn copy_back(acc: Seq<u8>, dist: nat, len: nat) -> Seq<u8> {
    Seq::new(len, |k: int| acc[acc.len() - dist + (k % (dist as int))])
}

/// What decoding the escaped stream `s` appends to `acc`, or `None` where the
/// stream is malformed. Back-references (tag 2) are accepted only where
/// `backrefs` holds: the RLE decoder rejects them, the LZ77 decoder accepts them.
pub open spec fn unescape(s: Seq<u8>, acc: Seq<u8>, backrefs: bool) -> Option<Seq<u8>>
    decreases s.len(),
{
    if s.len() == 0 {
        Some(acc)
    } else if s[0] != ESCAPE {
        unescape(s.skip(1), acc.push(s[0]), backrefs)
    } else if s.len() < 2 {
        None
    } else if s[1] == TAG_ESCAPE_FF {
        unescape(s.skip(2), acc.push(ESCAPE), backrefs)
    } else if s[1] == TAG_RLE {
        if s.len() < 4 {
            None
        } else {
            unescape(s.skip(4), acc + repeat(s[3], s[2] as nat), backrefs)
        }
    } else if s[1] == TAG_LZ77 && backrefs {
        if s.len() < 5 {
            None
        } else {
            let dist = s[2] as nat * 256 + s[3] as nat;
            let len = s[4] as nat;
            if dist == 0 || len < 3 || dist > acc.len() {
                None
            } else {
                unescape(s.skip(5), acc + copy_back(acc, dist, len), backrefs)
            }
        }
    } else {
        None
    }
}

/// The RLE decoding of `s`.
pub open spec fn rle_decoded(s: Seq<u8>) -> Option<Seq<u8>> {
    unescape(s, Seq::empty(), false)
}

/// The LZ77 decoding of `s`.
pub open spec fn lz77_decoded(s: Seq<u8>) -> Option<Seq<u8>> {
    unescape(s, Seq::empty(), true)
}

/// Decoding a stream that decodes completely, followed by more bytes, goes on
/// from where the first stream left off.
pub proof fn lemma_unescape_append(a: Seq<u8>, b: Seq<u8>, acc: Seq<u8>, backrefs: bool)
    requires
        unescape(a, acc, backrefs) is Some,
    ensures
        unescape(a + b, acc, backrefs) == unescape(b, unescape(a, acc, backrefs).unwrap(), backrefs),
    decreases a.len(),
{
    let ab = a + b;
    if a.len() == 0 {
        assert(ab =~= b);
    } else {
        assert(ab[0] == a[0]);
        if a[0] != ESCAPE {
            assert(ab.skip(1) =~= a.skip(1) + b);
            lemma_unescape_append(a.skip(1), b, acc.push(a[0]), backrefs);
        } else {
            assert(ab[1] == a[1]);
            if a[1] == TAG_ESCAPE_FF {
                assert(ab.skip(2) =~= a.skip(2) + b);
                lemma_unescape_append(a.skip(2), b, acc.push(ESCAPE), backrefs);
            } else if a[1] == TAG_RLE {
                assert(ab[2] == a[2] && ab[3] == a[3]);
                assert(ab.skip(4) =~= a.skip(4) + b);
                lemma_unescape_append(a.skip(4), b, acc + repeat(a[3], a[2] as nat), backrefs);
            } else {
                assert(ab[2] == a[2] && ab[3] == a[3] && ab[4] == a[4]);
                assert(ab.skip(5) =~= a.skip(5) + b);
                let dist = a[2] as nat * 256 + a[3] as nat;
                let len = a[4] as nat;
                lemma_unescape_append(a.skip(5), b, acc + copy_back(acc, dist, len), backrefs);
            }
        }
    }
}

/// Shared decoder of the escaped framing; `backrefs` selects LZ77 over RLE.
fn unescape_bytes(data: &[u8], backrefs: bool) -> (r: Result<Vec<u8>, CtiError>)
    ensures
        r is Ok <==> unescape(data@, Seq::empty(), backrefs) is Some,
        r is Ok ==> r.unwrap()@ == unescape(data@, Seq::empty(), backrefs).unwrap(),
        r matches Err(e) ==> e == CtiError::TruncatedStream || e == CtiError::CodecFraming,
{
    let mut out: Vec<u8> = Vec::new();
    let mut i: usize = 0;
    let n = data.len();
    assert(data@.skip(0) =~= data@);
    while i < n
        invariant
            n == data@.len(),
            i <= n,
            unescape(data@.skip(i as int), out@, backrefs) == unescape(data@, Seq::empty(), backrefs),
        decreases n - i,
    {
        let ghost s = data@.skip(i as int);
        let b = data[i];
        if b != ESCAPE {
            assert(s.skip(1) =~= data@.skip(i + 1));
            out.push(b);
            i += 1;
            continue;
        }
        if i + 1 >= n {
            return Err(CtiError::TruncatedStream);
        }
        let tag = data[i + 1];
        if tag == TAG_ESCAPE_FF {
            assert(s.skip(2) =~= data@.skip(i + 2));
            out.push(ESCAPE);
            i += 2;
        } else if tag == TAG_RLE {
            if n - i < 4 {
                return Err(CtiError::TruncatedStream);
            }
            let count = data[i + 2];
            let val = data[i + 3];
            let mut k: u8 = 0;
            let ghost out0 = out@;
            while k < count
                invariant
                    k <= count,
                    out@ == out0 + repeat(val, k as nat),
                decreases count - k,
            {
                out.push(val);
                k += 1;
                assert(out@ =~= out0 + repeat(val, k as nat));
            }
            assert(s.skip(4) =~= data@.skip(i + 4));
            i += 4;
        } else if tag == TAG_LZ77 && backrefs {
            if n - i < 5 {
                return Err(CtiError::TruncatedStream);
            }
            let dist = (data[i + 2] as usize) * 256 + (data[i + 3] as usize);
            let len = data[i + 4] as usize;
            if dist == 0 || len < LZ77_MIN_MATCH || dist > out.len() {
                return Err(CtiError::CodecFraming);
            }
            let start = out.len() - dist;
            let ghost acc = out@;
            let mut k: usize = 0;
            while k < len
                invariant
                    k <= len,
                    dist > 0,
                    start + dist == acc.len(),
                    out@.len() == acc.len() + k,
                    out@ == acc + Seq::new(k as nat, |j: int| acc[start + (j % (dist as int))]),
                decreases len - k,
            {
                proof {
                    if k < dist {
                        assert(k as int % dist as int == k as int) by (nonlinear_arith)
                            requires k < dist;
                    } else {
                        assert((k - dist) as int % dist as int == k as int % dist as int) by (nonlinear_arith)
                            requires k >= dist, dist > 0;
                    }
                }
                let byte = out[out.len() - dist];
                out.push(byte);
                k += 1;
                assert(out@ =~= acc + Seq::new(k as nat, |j: int| acc[start + (j % (dist as int))]));
            }
            assert(out@ =~= acc + copy_back(acc, dist as nat, len as nat));
            assert(s.skip(5) =~= data@.skip(i + 5));
            i += 5;
        } else {
            return Err(CtiError::CodecFraming);
        }
    }
    Ok(out)
}

/// Decodes an RLE stream.
pub fn rle_decompress(data: &[u8]) -> (r: Result<Vec<u8>, CtiError>)
    ensures
        r is Ok <==> rle_decoded(data@) is Some,
        r is Ok ==> r.unwrap()@ == rle_decoded(data@).unwrap(),
        r matches Err(e) ==> e == CtiError::TruncatedStream || e == CtiError::CodecFraming,
{
    unescape_bytes(data, false)
}

/// Decodes an LZ77 stream (which may hold RLE runs too).
pub fn lz77_decompress(data: &[u8]) -> (r: Result<Vec<u8>, CtiError>)
    ensures
        r is Ok <==> lz77_decoded(data@) is Some,
        r is Ok ==> r.unwrap()@ == lz77_decoded(data@).unwrap(),
        r matches Err(e) ==> e == CtiError::TruncatedStream || e == CtiError::CodecFraming,
{
    unescape_bytes(data, true)
}

// ===================== RLE encoding =====================

/// The length of the run of `s[0]` that starts `s`, counted from `n` on and
/// capped at 255.
pub open spec fn run_at(s: Seq<u8>, n: nat) -> nat
    decreases 255 - n,
{
    if n < 255 && n < s.len() && s[n as int] == s[0] {
        run_at(s, n + 1)
    } else {
        n
    }
}

/// The length of the leading run of `s`, at most 255.
pub open spec fn run_len(s: Seq<u8>) -> nat {
    run_at(s, 1)
}

pub proof fn lemma_run_at(s: Seq<u8>, n: nat)
    requires
        1 <= n <= s.len(),
        n <= 255,
        forall|k: int| 0 <= k < n ==> #[trigger] s[k] == s[0],
    ensures
        n <= run_at(s, n) <= s.len(),
        run_at(s, n) <= 255,
        forall|k: int| 0 <= k < run_at(s, n) ==> #[trigger] s[k] == s[0],
    decreases 255 - n,
{
    if n < 255 && n < s.len() && s[n as int] == s[0] {
        lemma_run_at(s, n + 1);
    }
}

/// How one byte is written as a literal: `0xFF` is escaped.
pub open spec fn literal(v: u8) -> Seq<u8> {
    if v == ESCAPE {
        seq![ESCAPE, TAG_ESCAPE_FF]
    } else {
        seq![v]
    }
}

/// `count` literals of `v`.
pub open spec fn literals(v: u8, count: nat) -> Seq<u8>
    decreases count,
{
    if count == 0 {
        Seq::empty()
    } else {
        literals(v, (count - 1) as nat) + literal(v)
    }
}

#[via_fn]
proof fn rle_encode_decreases(s: Seq<u8>) {
    if s.len() > 0 {
        lemma_run_at(s, 1);
    }
}

/// The RLE encoding of `s`: greedily, a run of four or more equal bytes (at
/// most 255) becomes `FF 01 count value`, a shorter one literal bytes.
pub open spec fn rle_encode(s: Seq<u8>) -> Seq<u8>
    decreases s.len(),
    via rle_encode_decreases
{
    if s.len() == 0 {
        Seq::empty()
    } else {
        let c = run_len(s);
        if c >= 4 {
            seq![ESCAPE, TAG_RLE, c as u8, s[0]] + rle_encode(s.skip(c as int))
        } else {
            literals(s[0], c) + rle_encode(s.skip(c as int))
        }
    }
}

proof fn lemma_literal_decode(v: u8, acc: Seq<u8>, backrefs: bool)
    ensures
        unescape(literal(v), acc, backrefs) == Some(acc.push(v)),
{
    let l = literal(v);
    if v == ESCAPE {
        assert(l.skip(2) =~= Seq::<u8>::empty());
        assert(unescape(l.skip(2), acc.push(ESCAPE), backrefs) == Some(acc.push(ESCAPE)));
    } else {
        assert(l.skip(1) =~= Seq::<u8>::empty());
        assert(unescape(l.skip(1), acc.push(v), backrefs) == Some(acc.push(v)));
    }
}

proof fn lemma_literals_decode(v: u8, count: nat, acc: Seq<u8>, backrefs: bool)
    ensures
        unescape(literals(v, count), acc, backrefs) == Some(acc + repeat(v, count)),
    decreases count,
{
    if count == 0 {
        assert(acc + repeat(v, 0) =~= acc);
    } else {
        let c1 = (count - 1) as nat;
        lemma_literals_decode(v, c1, acc, backrefs);
        lemma_unescape_append(literals(v, c1), literal(v), acc, backrefs);
        let m = acc + repeat(v, c1);
        lemma_literal_decode(v, m, backrefs);
        assert(m.push(v) =~= acc + repeat(v, count));
    }
}

/// RLE decoding undoes RLE encoding, from any starting output, in either framing.
pub proof fn lemma_rle_round_trip(s: Seq<u8>, acc: Seq<u8>, backrefs: bool)
    ensures
        unescape(rle_encode(s), acc, backrefs) == Some(acc + s),
    decreases s.len(),
{
    if s.len() == 0 {
        assert(acc + s =~= acc);
    } else {
        let c = run_len(s);
        lemma_run_at(s, 1);
        let rest = s.skip(c as int);
        let m = acc + repeat(s[0], c);
        lemma_rle_round_trip(rest, m, backrefs);
        assert(repeat(s[0], c) =~= s.take(c as int));
        assert(m + rest =~= acc + s);
        if c >= 4 {
            let head = seq![ESCAPE, TAG_RLE, c as u8, s[0]];
            let e = head + rle_encode(rest);
            assert(e.skip(4) =~= rle_encode(rest));
            assert(e[2] == c as u8);
        } else {
            lemma_literals_decode(s[0], c, acc, backrefs);
            lemma_unescape_append(literals(s[0], c), rle_encode(rest), acc, backrefs);
        }
    }
}

/// Every byte sequence survives RLE compression and decompression.
pub proof fn lemma_rle_decodes_encoding(s: Seq<u8>)
    ensures
        rle_decoded(rle_encode(s)) == Some(s),
{
    lemma_rle_round_trip(s, Seq::empty(), false);
    assert(Seq::<u8>::empty() + s =~= s);
}

/// Compresses `data` with RLE.
pub fn rle_compress(data: &[u8]) -> (r: Vec<u8>)
    ensures
        r@ == rle_encode(data@),
{
    let mut out: Vec<u8> = Vec::new();
    let mut i: usize = 0;
    let n = data.len();
    assert(data@.skip(0) =~= data@);
    while i < n
        invariant
            n == data@.len(),
            i <= n,
            out@ + rle_encode(data@.skip(i as int)) == rle_encode(data@),
        decreases n - i,
    {
        let ghost s = data@.skip(i as int);
        let val = data[i];
        let mut cnt: usize = 1;
        while i + cnt < n && data[i + cnt] == val && cnt < MAX_RUN
            invariant
                n == data@.len(),
                i < n,
                s == data@.skip(i as int),
                val == data@[i as int],
                1 <= cnt <= 255,
                i + cnt <= n,
                run_at(s, cnt as nat) == run_len(s),
            decreases 255 - cnt,
        {
            assert(s[cnt as int] == s[0]);
            assert(run_at(s, cnt as nat) == run_at(s, (cnt + 1) as nat));
            cnt += 1;
        }
        assert(run_at(s, cnt as nat) == cnt);
        let ghost tail = rle_encode(s.skip(cnt as int));
        assert(s.skip(cnt as int) =~= data@.skip(i + cnt));
        let ghost out0 = out@;
        if cnt >= 4 {
            out.push(ESCAPE);
            out.push(TAG_RLE);
            out.push(cnt as u8);
            out.push(val);
            assert(out@ =~= out0 + seq![ESCAPE, TAG_RLE, cnt as u8, val]);
        } else {
            let mut k: usize = 0;
            while k < cnt
                invariant
                    k <= cnt,
                    out@ == out0 + literals(val, k as nat),
                decreases cnt - k,
            {
                if val == ESCAPE {
                    out.push(ESCAPE);
                    out.push(TAG_ESCAPE_FF);
                } else {
                    out.push(val);
                }
                k += 1;
                assert(out@ =~= out0 + literals(val, k as nat));
            }
        }
        assert(out@ + tail =~= out0 + rle_encode(s));
        i += cnt;
    }
    assert(data@.skip(n as int) =~= Seq::<u8>::empty());
    assert(out@ + Seq::<u8>::empty() =~= out@);
    out
}

// ===================== LZ77 encoding =====================

/// The length of the match between the bytes from `j` and those from `i`,
/// counted on from `l`: it stops at 255 bytes, at the end of `s`, before the
/// earlier run reaches `i`, or at the first difference.
pub open spec fn match_from(s: Seq<u8>, i: int, j: int, l: int) -> int
    decreases 255 - l,
{
    if 0 <= l < 255 && i + l < s.len() && j + l < i && s[j + l] == s[i + l] {
        match_from(s, i, j, l + 1)
    } else {
        l
    }
}

/// The best match `(length, distance)` for position `i` among the candidates
/// from `j` on, `(bl, bd)` being the best so far: the first longest one of
/// three bytes or more.
pub open spec fn best_match(s: Seq<u8>, i: int, j: int, bl: int, bd: int) -> (int, int)
    decreases i - j,
{
    if j < i && bl < 255 {
        let l = match_from(s, i, j, 0);
        if l >= 3 && l > bl {
            best_match(s, i, j + 1, l, i - j)
        } else {
            best_match(s, i, j + 1, bl, bd)
        }
    } else {
        (bl, bd)
    }
}

/// The first candidate position for a match at `i`.
pub open spec fn window_start(i: int) -> int {
    if i > 4096 {
        i - 4096
    } else {
        0
    }
}

/// The LZ77 encoding of `s` from position `i` on.
pub open spec fn lz77_encode_at(s: Seq<u8>, i: int) -> Seq<u8>
    decreases s.len() - i,
{
    if i < 0 || i >= s.len() {
        Seq::empty()
    } else {
        let (bl, bd) = best_match(s, i, window_start(i), 0, 0);
        if 3 <= bl && i + bl <= s.len() {
            seq![ESCAPE, TAG_LZ77, (bd / 256) as u8, (bd % 256) as u8, bl as u8] + lz77_encode_at(s, i + bl)
        } else {
            literal(s[i]) + lz77_encode_at(s, i + 1)
        }
    }
}

/// The LZ77 encoding of `s`.
pub open spec fn lz77_encode(s: Seq<u8>) -> Seq<u8> {
    lz77_encode_at(s, 0)
}

proof fn lemma_match_from(s: Seq<u8>, i: int, j: int, l: int)
    requires
        0 <= j < i,
        0 <= l <= 255,
        i + l <= s.len(),
        j + l <= i,
        forall|k: int| 0 <= k < l ==> #[trigger] s[j + k] == s[i + k],
    ensures
        l <= match_from(s, i, j, l) <= 255,
        i + match_from(s, i, j, l) <= s.len(),
        j + match_from(s, i, j, l) <= i,
        forall|k: int| 0 <= k < match_from(s, i, j, l) ==> #[trigger] s[j + k] == s[i + k],
    decreases 255 - l,
{
    if 0 <= l < 255 && i + l < s.len() && j + l < i && s[j + l] == s[i + l] {
        lemma_match_from(s, i, j, l + 1);
    }
}

/// Whether `(bl, bd)` is no match, or a usable back-reference for position `i`.
pub open spec fn usable_match(s: Seq<u8>, i: int, bl: int, bd: int) -> bool {
    bl == 0 || (3 <= bl <= 255 && 1 <= bd <= i - window_start(i) && bl <= bd && i + bl <= s.len()
        && forall|k: int| 0 <= k < bl ==> #[trigger] s[i - bd + k] == s[i + k])
}

proof fn lemma_best_match(s: Seq<u8>, i: int, j: int, bl: int, bd: int)
    requires
        window_start(i) <= j <= i,
        0 <= i < s.len(),
        usable_match(s, i, bl, bd),
    ensures
        usable_match(s, i, best_match(s, i, j, bl, bd).0, best_match(s, i, j, bl, bd).1),
    decreases i - j,
{
    if j < i && bl < 255 {
        lemma_match_from(s, i, j, 0);
        let l = match_from(s, i, j, 0);
        if l >= 3 && l > bl {
            assert forall|k: int| 0 <= k < l implies #[trigger] s[i - (i - j) + k] == s[i + k] by {
                assert(s[j + k] == s[i + k]);
            }
            lemma_best_match(s, i, j + 1, l, i - j);
        } else {
            lemma_best_match(s, i, j + 1, bl, bd);
        }
    }
}

proof fn lemma_lz77_encode_at(s: Seq<u8>, i: int)
    requires
        0 <= i <= s.len(),
    ensures
        unescape(lz77_encode_at(s, i), s.take(i), true) == Some(s),
    decreases s.len() - i,
{
    if i == s.len() {
        assert(s.take(i) =~= s);
    } else {
        let acc = s.take(i);
        lemma_best_match(s, i, window_start(i), 0, 0);
        let (bl, bd) = best_match(s, i, window_start(i), 0, 0);
        if 3 <= bl && i + bl <= s.len() {
            let t = seq![ESCAPE, TAG_LZ77, (bd / 256) as u8, (bd % 256) as u8, bl as u8];
            lemma_lz77_encode_at(s, i + bl);
            let cb = copy_back(acc, bd as nat, bl as nat);
            assert forall|k: int| 0 <= k < bl implies #[trigger] cb[k] == s[i + k] by {
                lemma_small_mod(k as nat, bd as nat);
                assert(s[i - bd + k] == s[i + k]);
            }
            assert(acc + cb =~= s.take(i + bl));
            assert(t.skip(5) =~= Seq::<u8>::empty());
            assert(unescape(t.skip(5), acc + cb, true) == Some(acc + cb));
            assert(unescape(t, acc, true) == Some(acc + cb));
            lemma_unescape_append(t, lz77_encode_at(s, i + bl), acc, true);
        } else {
            lemma_lz77_encode_at(s, i + 1);
            lemma_literal_decode(s[i], acc, true);
            assert(acc.push(s[i]) =~= s.take(i + 1));
            lemma_unescape_append(literal(s[i]), lz77_encode_at(s, i + 1), acc, true);
        }
    }
}

/// LZ77 decoding undoes LZ77 encoding.
pub proof fn lemma_lz77_decodes_encoding(s: Seq<u8>)
    ensures
        lz77_decoded(lz77_encode(s)) == Some(s),
{
    lemma_lz77_encode_at(s, 0);
    assert(s.take(0) =~= Seq::<u8>::empty());
}

/// Compresses `data` with LZ77: at each position the longest earlier match of
/// three bytes or more (at most 255, within the last 4096 bytes, not reaching
/// the current position) becomes a back-reference, else the byte a literal.
pub fn lz77_compress(data: &[u8]) -> (r: Vec<u8>)
    ensures
        r@ == lz77_encode(data@),
        lz77_decoded(r@) == Some(data@),
{
    let mut out: Vec<u8> = Vec::new();
    let mut i: usize = 0;
    let n = data.len();
    while i < n
        invariant
            n == data@.len(),
            i <= n,
            out@ + lz77_encode_at(data@, i as int) == lz77_encode(data@),
        decreases n - i,
    {
        let start: usize = if i > LZ77_WINDOW { i - LZ77_WINDOW } else { 0 };
        assert(start == window_start(i as int));
        let mut best_len: usize = 0;
        let mut best_dist: usize = 0;
        let mut j: usize = start;
        while j < i && best_len < MAX_RUN
            invariant
                n == data@.len(),
                i < n,
                start <= j <= i,
                best_match(data@, i as int, j as int, best_len as int, best_dist as int) == best_match(
                    data@,
                    i as int,
                    start as int,
                    0,
                    0,
                ),
                best_len == 0 || (LZ77_MIN_MATCH <= best_len <= MAX_RUN && i + best_len <= n),
            decreases i - j,
        {
            let mut l: usize = 0;
            while i + l < n && j + l < i && data[j + l] == data[i + l] && l < MAX_RUN
                invariant
                    n == data@.len(),
                    j < i < n,
                    l <= MAX_RUN,
                    i + l <= n,
                    match_from(data@, i as int, j as int, l as int) == match_from(data@, i as int, j as int, 0),
                decreases MAX_RUN - l,
            {
                l += 1;
            }
            assert(match_from(data@, i as int, j as int, l as int) == l);
            if l >= LZ77_MIN_MATCH && l > best_len {
                best_len = l;
                best_dist = i - j;
            }
            j += 1;
        }
        let ghost out0 = out@;
        assert(best_match(data@, i as int, j as int, best_len as int, best_dist as int) == (
            best_len as int,
            best_dist as int,
        ));
        if best_len >= LZ77_MIN_MATCH {
            let mut tok: Vec<u8> = vec![ESCAPE, TAG_LZ77, (best_dist / 256) as u8, (best_dist % 256) as u8, best_len as u8];
            out.append(&mut tok);
            assert(out0 + lz77_encode_at(data@, i as int) =~= out@ + lz77_encode_at(data@, i + best_len));
            i += best_len;
        } else {
            let b = data[i];
            if b == ESCAPE {
                out.push(ESCAPE);
                out.push(TAG_ESCAPE_FF);
            } else {
                out.push(b);
            }
            assert(out0 + lz77_encode_at(data@, i as int) =~= out@ + lz77_encode_at(data@, i + 1));
            i += 1;
        }
    }
    assert(out@ + lz77_encode_at(data@, n as int) =~= out@);
    proof {
        lemma_lz77_decodes_encoding(data@);
    }
    out
}

// ===================== Delta and predictive transforms =====================

/// A copy of `data`.
pub fn copy_bytes(data: &[u8]) -> (r: Vec<u8>)
    ensures
        r@ == data@,
{
    let mut out: Vec<u8> = Vec::new();
    let mut i: usize = 0;
    while i < data.len()
        invariant
            i <= data@.len(),
            out@ =~= data@.take(i as int),
        decreases data@.len() - i,
    {
        out.push(data[i]);
        i += 1;
    }
    assert(data@.take(data@.len() as int) =~= data@);
    out
}

/// `a - b` modulo 256.
pub open spec fn wsub(a: u8, b: u8) -> u8 {
    ((a + 256 - b) % 256) as u8
}

/// `a + b` modulo 256.
pub open spec fn wadd(a: u8, b: u8) -> u8 {
    ((a + b) % 256) as u8
}

fn wrap_sub(a: u8, b: u8) -> (r: u8)
    ensures
        r == wsub(a, b),
{
    ((a as u16 + 256 - b as u16) % 256) as u8
}

fn wrap_add(a: u8, b: u8) -> (r: u8)
    ensures
        r == wadd(a, b),
{
    ((a as u16 + b as u16) % 256) as u8
}

pub proof fn lemma_wadd_wsub(p: u8, x: u8)
    ensures
        wadd(p, wsub(x, p)) == x,
{
}

/// The delta transform: the first byte, then each byte minus its predecessor.
pub open spec fn delta_encode(s: Seq<u8>) -> Seq<u8> {
    Seq::new(s.len(), |i: int| if i == 0 { s[0] } else { wsub(s[i], s[i - 1]) })
}

/// The prefix sums, modulo 256, that undo the delta transform.
pub open spec fn delta_decode(d: Seq<u8>) -> Seq<u8>
    decreases d.len(),
{
    if d.len() <= 1 {
        d
    } else {
        let p = delta_decode(d.drop_last());
        p.push(wadd(p.last(), d.last()))
    }
}

/// The delta inverse undoes the delta transform.
pub proof fn lemma_delta_round_trip(s: Seq<u8>)
    ensures
        delta_decode(delta_encode(s)) == s,
    decreases s.len(),
{
    let e = delta_encode(s);
    if s.len() <= 1 {
        assert(e =~= s);
    } else {
        let s1 = s.drop_last();
        assert(e.drop_last() =~= delta_encode(s1));
        lemma_delta_round_trip(s1);
        lemma_wadd_wsub(s[s.len() - 2], s.last());
        assert(s1.push(s.last()) =~= s);
    }
}

/// Applies the delta transform.
pub fn delta_forward(data: &[u8]) -> (r: Vec<u8>)
    ensures
        r@ == delta_encode(data@),
{
    let mut out: Vec<u8> = Vec::new();
    let n = data.len();
    let mut i: usize = 0;
    while i < n
        invariant
            n == data@.len(),
            i <= n,
            out@ =~= delta_encode(data@).take(i as int),
        decreases n - i,
    {
        if i == 0 {
            out.push(data[0]);
        } else {
            out.push(wrap_sub(data[i], data[i - 1]));
        }
        i += 1;
    }
    assert(delta_encode(data@).take(n as int) =~= delta_encode(data@));
    out
}

/// Undoes the delta transform.
pub fn delta_inverse(data: &[u8]) -> (r: Vec<u8>)
    ensures
        r@ == delta_decode(data@),
{
    let n = data.len();
    if n == 0 {
        assert(data@ =~= Seq::<u8>::empty());
        return Vec::new();
    }
    let mut out: Vec<u8> = Vec::new();
    let mut prev = data[0];
    out.push(prev);
    let mut i: usize = 1;
    assert(data@.take(1) =~= seq![data@[0]]);
    assert(out@ =~= delta_decode(data@.take(1)));
    while i < n
        invariant
            n == data@.len(),
            1 <= i <= n,
            out@ == delta_decode(data@.take(i as int)),
            out@.len() == i,
            prev == out@.last(),
        decreases n - i,
    {
        let v = wrap_add(prev, data[i]);
        out.push(v);
        prev = v;
        assert(data@.take(i + 1).drop_last() =~= data@.take(i as int));
        i += 1;
    }
    assert(data@.take(n as int) =~= data@);
    out
}

/// The prediction from the two previous bytes: `a1 + (a1 - a0)`, modulo 256.
pub open spec fn predict(a0: u8, a1: u8) -> u8 {
    wadd(a1, wsub(a1, a0))
}

/// The predictive transform: identity below three bytes; else the first two
/// bytes, then each byte minus its prediction.
pub open spec fn predictive_encode(s: Seq<u8>) -> Seq<u8> {
    if s.len() < 3 {
        s
    } else {
        Seq::new(s.len(), |i: int| if i < 2 { s[i] } else { wsub(s[i], predict(s[i - 2], s[i - 1])) })
    }
}

/// The inverse of the predictive transform.
pub open spec fn predictive_decode(d: Seq<u8>) -> Seq<u8>
    decreases d.len(),
{
    if d.len() < 3 {
        d
    } else {
        let p = predictive_decode(d.drop_last());
        p.push(wadd(predict(p[d.len() - 3], p[d.len() - 2]), d.last()))
    }
}

/// The predictive inverse undoes the predictive transform.
pub proof fn lemma_predictive_round_trip(s: Seq<u8>)
    ensures
        predictive_decode(predictive_encode(s)) == s,
    decreases s.len(),
{
    let e = predictive_encode(s);
    if s.len() >= 3 {
        let s1 = s.drop_last();
        if s.len() == 3 {
            assert(e.drop_last() =~= s1);
        } else {
            assert(e.drop_last() =~= predictive_encode(s1));
            lemma_predictive_round_trip(s1);
        }
        let n = s.len();
        let p = predictive_decode(e.drop_last());
        assert(p == s1);
        assert(e.last() == wsub(s[n - 1], predict(s[n - 3], s[n - 2])));
        lemma_wadd_wsub(predict(s[n - 3], s[n - 2]), s[n - 1]);
        assert(predictive_decode(e) == p.push(wadd(predict(p[n - 3], p[n - 2]), e.last())));
        assert(s1.push(s.last()) =~= s);
    }
}

/// Applies the predictive transform.
pub fn predictive_forward(data: &[u8]) -> (r: Vec<u8>)
    ensures
        r@ == predictive_encode(data@),
{
    let n = data.len();
    if n < 3 {
        return copy_bytes(data);
    }
    let mut out: Vec<u8> = Vec::new();
    let mut i: usize = 0;
    while i < n
        invariant
            n == data@.len(),
            n >= 3,
            i <= n,
            out@ =~= predictive_encode(data@).take(i as int),
        decreases n - i,
    {
        if i < 2 {
            out.push(data[i]);
        } else {
            let p = wrap_add(data[i - 1], wrap_sub(data[i - 1], data[i - 2]));
            out.push(wrap_sub(data[i], p));
        }
        i += 1;
    }
    assert(predictive_encode(data@).take(n as int) =~= predictive_encode(data@));
    out
}

/// Undoes the predictive transform.
pub fn predictive_inverse(data: &[u8]) -> (r: Vec<u8>)
    ensures
        r@ == predictive_decode(data@),
{
    let n = data.len();
    if n < 3 {
        return copy_bytes(data);
    }
    let mut out: Vec<u8> = Vec::new();
    let mut a0 = data[0];
    let mut a1 = data[1];
    out.push(a0);
    out.push(a1);
    let mut i: usize = 2;
    assert(out@ =~= predictive_decode(data@.take(2)));
    while i < n
        invariant
            n == data@.len(),
            2 <= i <= n,
            out@ == predictive_decode(data@.take(i as int)),
            out@.len() == i,
            a0 == out@[i - 2],
            a1 == out@[i - 1],
        decreases n - i,
    {
        let p = wrap_add(a1, wrap_sub(a1, a0));
        let v = wrap_add(p, data[i]);
        out.push(v);
        a0 = a1;
        a1 = v;
        assert(data@.take(i + 1).drop_last() =~= data@.take(i as int));
        i += 1;
    }
    assert(data@.take(n as int) =~= data@);
    out
}

} // verus!
