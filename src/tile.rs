//! Tile geometry: cutting a tile out of a raster and putting it back.
use vstd::prelude::*;
use vstd::arithmetic::div_mod::{lemma_fundamental_div_mod, lemma_fundamental_div_mod_converse};
use crate::error::CtiError;
use crate::format::{TiffImage, bpp_of_id, bytes_per_pixel};

verus! {

/// The number of tiles of edge `t` along an axis of `extent` pixels.
pub open spec fn tile_count(extent: nat, t: nat) -> nat {
    if t == 0 {
        0
    } else {
        ((extent + t - 1) as nat) / t
    }
}

/// The extent of tile `i` of edge `t` along an axis of `extent` pixels.
pub open spec fn tile_span(extent: nat, t: nat, i: nat) -> nat {
    if (i + 1) * t <= extent {
        t
    } else {
        (extent - i * t) as nat
    }
}

/// The bytes of the `tw` by `th` window at pixel `(x0, y0)` of a raster `w`
/// pixels wide, row after row.
pub open spec fn window_bytes(data: Seq<u8>, w: nat, bpp: nat, x0: nat, y0: nat, tw: nat, th: nat) -> Seq<u8> {
    let row = tw * bpp;
    Seq::new(th * row, |k: int| data[((y0 + k / (row as int)) * w + x0) * bpp + k % (row as int)])
}

/// Whether tile `(tx, ty)` of edge `t` lies in a `w` by `h` raster.
pub open spec fn tile_in_raster(w: nat, h: nat, t: nat, tx: nat, ty: nat) -> bool {
    t > 0 && tx * t < w && ty * t < h
}

/// The bytes of tile `(tx, ty)` of edge `t` of a raster.
pub open spec fn tile_of(data: Seq<u8>, w: nat, h: nat, bpp: nat, t: nat, tx: nat, ty: nat) -> Seq<u8> {
    window_bytes(data, w, bpp, tx * t, ty * t, tile_span(w, t, tx), tile_span(h, t, ty))
}

pub proof fn lemma_row_index(r: int, k: int, row: int)
    requires
        0 <= k < row,
        0 <= r,
    ensures
        (r * row + k) / row == r,
        (r * row + k) % row == k,
{
    lemma_fundamental_div_mod_converse(r * row + k, row, r, k);
}

/// Copies tile `(tx, ty)` of edge `ts` out of a raster.
#[verifier::rlimit(80)]
pub fn extract_tile(img: &TiffImage, tx: u32, ty: u32, ts: u32) -> (r: Result<Vec<u8>, CtiError>)
    ensures
        img.color_type is Other <==> r == Err::<Vec<u8>, CtiError>(CtiError::UnsupportedColorKind),
        !(img.color_type is Other) ==> ({
            let bpp = bpp_of_id(img.color_type.spec_id());
            &&& (r is Ok <==> tile_in_raster(img.width as nat, img.height as nat, ts as nat, tx as nat, ty as nat)
                && img.data@.len() == img.width * img.height * bpp)
            &&& r matches Ok(v) ==> v@ == tile_of(img.data@, img.width as nat, img.height as nat, bpp, ts as nat, tx as nat, ty as nat)
            &&& r matches Err(e) ==> e == CtiError::BadGeometry
        }),
{
    let bpp = match bytes_per_pixel(&img.color_type) {
        Ok(b) => b as u64,
        Err(e) => return Err(e),
    };
    let len = img.data.len();
    let w = img.width as u64;
    let h = img.height as u64;
    let t = ts as u64;
    assert(w * h <= 0xffff_ffff_ffff_ffffu64) by (nonlinear_arith)
        requires w <= 0xffff_ffffu64, h <= 0xffff_ffffu64;
    let wh = w * h;
    if wh > (len as u64) / bpp || wh * bpp != len as u64 {
        proof {
            if img.data@.len() == img.width * img.height * bpp {
                assert(((wh * bpp) as int) / (bpp as int) == wh as int) by (nonlinear_arith) requires bpp > 0;
            }
        }
        return Err(CtiError::BadGeometry);
    }
    if t == 0 {
        return Err(CtiError::BadGeometry);
    }
    assert(tx as u64 * t <= 0xffff_ffff_ffff_ffffu64 && ty as u64 * t <= 0xffff_ffff_ffff_ffffu64) by (nonlinear_arith)
        requires t <= 0xffff_ffffu64;
    let x0 = tx as u64 * t;
    let y0 = ty as u64 * t;
    if x0 >= w || y0 >= h {
        return Err(CtiError::BadGeometry);
    }
    let tw = if x0 + t <= w { t } else { w - x0 };
    let th = if y0 + t <= h { t } else { h - y0 };
    assert(tw * bpp <= len) by (nonlinear_arith)
        requires tw <= w, h > 0, wh == w * h, wh * bpp == len, bpp > 0;
    let row = tw * bpp;
    assert((tx + 1) * t == x0 + t && (ty + 1) * t == y0 + t) by (nonlinear_arith)
        requires x0 == tx * t, y0 == ty * t;
    assert(tw as nat == tile_span(w as nat, t as nat, tx as nat));
    assert(th as nat == tile_span(h as nat, t as nat, ty as nat));
    let ghost spec = window_bytes(img.data@, w as nat, bpp as nat, x0 as nat, y0 as nat, tw as nat, th as nat);
    proof {
        assert(row * th <= len) by (nonlinear_arith)
            requires tw <= w, th <= h, wh == w * h, wh * bpp == len, row == tw * bpp, bpp > 0;
        assert(spec.len() == th * row);
    }
    let mut out: Vec<u8> = Vec::new();
    let mut r: u64 = 0;
    assert(spec.take(0) =~= out@);
    while r < th
        invariant
            len == img.data@.len(),
            wh == w * h,
            wh * bpp == len,
            bpp > 0,
            x0 + tw <= w,
            y0 + th <= h,
            row == tw * bpp,
            tw > 0,
            row * th <= len,
            spec == window_bytes(img.data@, w as nat, bpp as nat, x0 as nat, y0 as nat, tw as nat, th as nat),
            r <= th,
            out@ == spec.take(r * row),
        decreases th - r,
    {
        proof {
            assert((y0 + r) * w + x0 < wh && ((y0 + r) * w + x0) * bpp < len) by (nonlinear_arith)
                requires
                    x0 + tw <= w,
                    tw > 0,
                    y0 + r < h,
                    wh == w * h,
                    wh * bpp == len,
                    bpp > 0;
        }
        let base = ((y0 + r) * w + x0) * bpp;
        proof {
            assert(base + row <= len) by (nonlinear_arith)
                requires
                    base == ((y0 + r) * w + x0) * bpp,
                    row == tw * bpp,
                    x0 + tw <= w,
                    y0 + r < h,
                    wh == w * h,
                    wh * bpp == len;
            assert((r + 1) * row <= th * row) by (nonlinear_arith) requires r < th;
        }
        let mut k: u64 = 0;
        while k < row
            invariant
                len == img.data@.len(),
                base + row <= len,
                base == ((y0 + r) * w + x0) * bpp,
                row == tw * bpp,
                r < th,
                (r + 1) * row <= th * row,
                spec.len() == th * row,
                spec == window_bytes(img.data@, w as nat, bpp as nat, x0 as nat, y0 as nat, tw as nat, th as nat),
                k <= row,
                out@ == spec.take(r * row + k),
            decreases row - k,
        {
            proof {
                lemma_row_index(r as int, k as int, row as int);
                assert(r * row + k < th * row) by (nonlinear_arith) requires k < row, (r + 1) * row <= th * row;
            }
            out.push(img.data[(base + k) as usize]);
            k += 1;
            assert(out@ =~= spec.take(r * row + k));
        }
        assert(r * row + row == (r + 1) * row) by (nonlinear_arith);
        r += 1;
    }
    assert(th * row == row * th) by (nonlinear_arith);
    assert(out@ =~= spec);
    Ok(out)
}

/// Whether byte `p` of a raster `w` pixels wide lies in the `tw` by `th`
/// window at pixel `(x0, y0)`.
pub open spec fn in_window(p: int, w: nat, bpp: nat, x0: nat, y0: nat, tw: nat, th: nat) -> bool {
    let wb = (w * bpp) as int;
    y0 <= p / wb < y0 + th && x0 * bpp <= p % wb < (x0 + tw) * bpp
}

/// The byte of a window's bytes `t` that lands on raster byte `p`.
pub open spec fn window_source(t: Seq<u8>, p: int, w: nat, bpp: nat, x0: nat, y0: nat, tw: nat) -> u8 {
    let wb = (w * bpp) as int;
    t[(p / wb - y0) * (tw * bpp) + (p % wb - x0 * bpp)]
}

/// The raster `o` with the window at `(x0, y0)` overwritten by `t`.
pub open spec fn blit_window(o: Seq<u8>, t: Seq<u8>, w: nat, bpp: nat, x0: nat, y0: nat, tw: nat, th: nat) -> Seq<u8> {
    Seq::new(
        o.len(),
        |p: int|
            if in_window(p, w, bpp, x0, y0, tw, th) {
                window_source(t, p, w, bpp, x0, y0, tw)
            } else {
                o[p]
            },
    )
}

/// The raster `o` with tile `(tx, ty)` of edge `ts` overwritten by `t`.
pub open spec fn blit_tile_spec(o: Seq<u8>, t: Seq<u8>, w: nat, h: nat, ts: nat, bpp: nat, tx: nat, ty: nat) -> Seq<u8> {
    blit_window(o, t, w, bpp, tx * ts, ty * ts, tile_span(w, ts, tx), tile_span(h, ts, ty))
}

/// Whether raster byte `p` was written once `r` rows and `k` bytes of the next
/// have been copied.
pub open spec fn blit_done(p: int, w: nat, bpp: nat, x0: nat, y0: nat, tw: nat, th: nat, r: int, k: int) -> bool {
    let wb = (w * bpp) as int;
    in_window(p, w, bpp, x0, y0, tw, th) && (p / wb < y0 + r || (p / wb == y0 + r && p % wb < x0 * bpp + k))
}

/// Writes tile `(tx, ty)` of edge `ts` into a `w` by `h` raster of `bpp`-byte
/// pixels; the tile must fit and have the tile's size.
#[verifier::rlimit(80)]
pub fn blit_tile(out: &mut Vec<u8>, tile: &[u8], w: u32, h: u32, ts: u32, bpp: u32, tx: u32, ty: u32) -> (r: Result<(), CtiError>)
    ensures
        r is Ok <==> (tile_in_raster(w as nat, h as nat, ts as nat, tx as nat, ty as nat) && bpp > 0
            && old(out)@.len() == w * h * bpp
            && tile@.len() == tile_span(w as nat, ts as nat, tx as nat) * tile_span(h as nat, ts as nat, ty as nat) * bpp),
        r is Ok ==> final(out)@ == blit_tile_spec(old(out)@, tile@, w as nat, h as nat, ts as nat, bpp as nat, tx as nat, ty as nat),
        r is Err ==> final(out)@ == old(out)@ && r == Err::<(), CtiError>(CtiError::BadGeometry),
{
    let ghost o = out@;
    let len = out.len();
    let w = w as u64;
    let h = h as u64;
    let t = ts as u64;
    let bpp = bpp as u64;
    if bpp == 0 || t == 0 {
        return Err(CtiError::BadGeometry);
    }
    assert(w * h <= 0xffff_ffff_ffff_ffffu64) by (nonlinear_arith)
        requires w <= 0xffff_ffffu64, h <= 0xffff_ffffu64;
    let wh = w * h;
    if wh > (len as u64) / bpp {
        proof {
            if o.len() == w * h * bpp {
                assert(((wh * bpp) as int) / (bpp as int) == wh as int) by (nonlinear_arith) requires bpp > 0;
            }
        }
        return Err(CtiError::BadGeometry);
    }
    assert(wh * bpp <= len) by (nonlinear_arith) requires wh <= (len as int) / (bpp as int), bpp > 0;
    if wh * bpp != len as u64 {
        return Err(CtiError::BadGeometry);
    }
    assert(tx as u64 * t <= 0xffff_ffff_ffff_ffffu64 && ty as u64 * t <= 0xffff_ffff_ffff_ffffu64) by (nonlinear_arith)
        requires t <= 0xffff_ffffu64;
    let x0 = tx as u64 * t;
    let y0 = ty as u64 * t;
    if x0 >= w || y0 >= h {
        return Err(CtiError::BadGeometry);
    }
    let tw = if x0 + t <= w { t } else { w - x0 };
    let th = if y0 + t <= h { t } else { h - y0 };
    assert((tx + 1) * t == x0 + t && (ty + 1) * t == y0 + t) by (nonlinear_arith)
        requires x0 == tx * t, y0 == ty * t;
    assert(tw * bpp <= len && tw * th * bpp <= len && w * bpp <= len && tw * bpp * th <= len) by (nonlinear_arith)
        requires tw <= w, th <= h, h > 0, wh == w * h, wh * bpp == len, bpp > 0;
    let row = tw * bpp;
    let wb = w * bpp;
    if tile.len() as u64 != row * th {
        assert(tw * th * bpp == row * th) by (nonlinear_arith) requires row == tw * bpp;
        return Err(CtiError::BadGeometry);
    }
    assert(tw * th * bpp == row * th) by (nonlinear_arith) requires row == tw * bpp;
    assert(x0 * bpp + row == (x0 + tw) * bpp && (x0 + tw) * bpp <= wb) by (nonlinear_arith)
        requires row == tw * bpp, wb == w * bpp, x0 + tw <= w;
    let ghost (xn, yn, twn, thn) = (x0 as nat, y0 as nat, tw as nat, th as nat);
    let mut r: u64 = 0;
    while r < th
        invariant
            len == out@.len() == o.len(),
            wh == w * h,
            wh * bpp == len,
            wb == w * bpp,
            bpp > 0,
            x0 + tw <= w,
            y0 + th <= h,
            tw > 0,
            row == tw * bpp,
            x0 * bpp + row == (x0 + tw) * bpp,
            (x0 + tw) * bpp <= wb,
            tile@.len() == row * th,
            row * th <= len,
            xn == x0 && yn == y0 && twn == tw && thn == th,
            r <= th,
            forall|p: int| 0 <= p < len ==> #[trigger] out@[p] == if blit_done(p, w as nat, bpp as nat, xn, yn, twn, thn, r as int, 0) {
                window_source(tile@, p, w as nat, bpp as nat, xn, yn, twn)
            } else {
                o[p]
            },
        decreases th - r,
    {
        proof {
            assert((y0 + r) * w + x0 < wh && ((y0 + r) * w + x0) * bpp < len && ((y0 + r) * w + x0) * bpp + row <= len) by (nonlinear_arith)
                requires
                    x0 + tw <= w,
                    tw > 0,
                    y0 + r < h,
                    wh == w * h,
                    wh * bpp == len,
                    row == tw * bpp,
                    bpp > 0;
            assert((r + 1) * row <= th * row) by (nonlinear_arith) requires r < th;
            assert(((y0 + r) * w + x0) * bpp == (y0 + r) * wb + x0 * bpp) by (nonlinear_arith) requires wb == w * bpp;
        }
        let base = ((y0 + r) * w + x0) * bpp;
        let mut k: u64 = 0;
        while k < row
            invariant
                len == out@.len() == o.len(),
                wb == w * bpp,
                bpp > 0,
                row == tw * bpp,
                x0 * bpp + row == (x0 + tw) * bpp,
                (x0 + tw) * bpp <= wb,
                tile@.len() == row * th,
                row * th <= len,
                xn == x0 && yn == y0 && twn == tw && thn == th,
                base + row <= len,
                base == (y0 + r) * wb + x0 * bpp,
                r < th,
                (r + 1) * row <= th * row,
                k <= row,
                forall|p: int| 0 <= p < len ==> #[trigger] out@[p] == if blit_done(p, w as nat, bpp as nat, xn, yn, twn, thn, r as int, k as int) {
                    window_source(tile@, p, w as nat, bpp as nat, xn, yn, twn)
                } else {
                    o[p]
                },
            decreases row - k,
        {
            let q = base + k;
            proof {
                lemma_row_index((y0 + r) as int, (x0 * bpp + k) as int, wb as int);
                lemma_row_index(r as int, k as int, row as int);
                assert(q == (wb as int) * (y0 + r) + x0 * bpp + k) by (nonlinear_arith)
                    requires q == base + k, base == (y0 + r) * wb + x0 * bpp;
                assert(r * row + k < th * row) by (nonlinear_arith) requires k < row, (r + 1) * row <= th * row;
            }
            let byte = tile[(r * row + k) as usize];
            let ghost before = out@;
            out.set(q as usize, byte);
            proof {
                assert forall|p: int| 0 <= p < len implies #[trigger] out@[p] == if blit_done(p, w as nat, bpp as nat, xn, yn, twn, thn, r as int, k + 1) {
                    window_source(tile@, p, w as nat, bpp as nat, xn, yn, twn)
                } else {
                    o[p]
                } by {
                    lemma_fundamental_div_mod(p, wb as int);
                    if p != q {
                        assert(before[p] == out@[p]);
                        if p / (wb as int) == y0 + r && p % (wb as int) == x0 * bpp + k {
                            assert(p == (wb as int) * (y0 + r) + x0 * bpp + k);
                            assert(false);
                        }
                    } else {
                        assert((q as int) / (wb as int) == y0 + r);
                        assert((q as int) % (wb as int) == x0 * bpp + k);
                        assert(out@[p] == tile@[r * row + k]);
                    }
                }
            }
            k += 1;
        }
        proof {
            assert forall|p: int| 0 <= p < len implies blit_done(p, w as nat, bpp as nat, xn, yn, twn, thn, r as int, row as int)
                == blit_done(p, w as nat, bpp as nat, xn, yn, twn, thn, r + 1, 0) by {}
        }
        r += 1;
    }
    proof {
        assert forall|p: int| 0 <= p < len implies blit_done(p, w as nat, bpp as nat, xn, yn, twn, thn, th as int, 0)
            == in_window(p, w as nat, bpp as nat, xn, yn, twn, thn) by {}
        assert(out@ =~= blit_window(o, tile@, w as nat, bpp as nat, xn, yn, twn, thn));
    }
    Ok(())
}

} // verus!
