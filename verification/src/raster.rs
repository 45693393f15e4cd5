//! Pixel-buffer helpers for captured frames: a raw byte image is stored
//! bottom-up by the graphics stack and must be flipped row by row before
//! it is written out.

use vstd::prelude::*;
use vstd::arithmetic::div_mod::lemma_fundamental_div_mod_converse;

verus! {

/// The byte of row `r`, column `c` in a flat image of row width `w`.
pub open spec fn pixel(s: Seq<u8>, w: int, r: int, c: int) -> u8 {
    s[r * w + c]
}

/// Rows of width `w` index distinct bytes: a flat index determines its
/// row and column.
proof fn lemma_row_col_inj(r1: int, c1: int, r2: int, c2: int, w: int)
    requires
        1 <= w,
        0 <= c1 < w,
        0 <= c2 < w,
        0 <= r1,
        0 <= r2,
        r1 * w + c1 == r2 * w + c2,
    ensures
        r1 == r2,
        c1 == c2,
{
    let p = r1 * w + c1;
    lemma_fundamental_div_mod_converse(p, w, r1, c1);
    lemma_fundamental_div_mod_converse(p, w, r2, c2);
}

/// Flip an image of `height` rows of `width` bytes upside down, in
/// place. Bytes beyond `width * height` are untouched.
pub fn vflip(vec: &mut Vec<u8>, width: usize, height: usize)
    requires
        1 <= width,
        (width as int) * (height as int) <= old(vec)@.len(),
    ensures
        final(vec)@.len() == old(vec)@.len(),
        forall|r: int, c: int| 0 <= r < height && 0 <= c < width ==> #[trigger] pixel(
            final(vec)@,
            width as int,
            r,
            c,
        ) == pixel(old(vec)@, width as int, height - 1 - r, c),
        forall|p: int| (width as int) * (height as int) <= p < old(vec)@.len() ==> final(vec)@[p]
            == old(vec)@[p],
{
    let ghost w = width as int;
    let ghost h = height as int;
    let ghost orig = vec@;
    let len0 = vec.len();
    proof {
        assert(orig.len() <= usize::MAX);
    }
    let half = height / 2;
    proof {
        assert(2 * (half as int) <= h && h <= 2 * (half as int) + 1) by (nonlinear_arith)
            requires
                half as int == h / 2,
                0 <= h,
        ;
    }
    let mut j: usize = 0;
    while j < half
        invariant
            1 <= w,
            w == width as int,
            h == height as int,
            half as int == h / 2,
            2 * (half as int) <= h <= 2 * (half as int) + 1,
            j <= half,
            w * h <= orig.len(),
            orig.len() <= usize::MAX,
            vec@.len() == orig.len(),
            forall|r: int, c: int| 0 <= r < h && 0 <= c < w && (r < j || r > h - 1 - j) ==> #[trigger] pixel(vec@, w, r, c) == pixel(orig, w, h - 1 - r, c),
            forall|r: int, c: int| 0 <= r < h && 0 <= c < w && j <= r <= h - 1 - j ==> #[trigger] pixel(vec@, w, r, c) == pixel(orig, w, r, c),
            forall|p: int| w * h <= p < orig.len() ==> vec@[p] == orig[p],
        decreases half - j,
    {
        proof {
            assert(j < half ==> (j as int) < h - 1 - (j as int)) by (nonlinear_arith)
                requires
                    j < half,
                    2 * (half as int) <= h,
            ;
        }
        let top: usize = height - 1 - j;
        let mut i: usize = 0;
        while i < width
            invariant
                1 <= w,
                w == width as int,
                h == height as int,
                half as int == h / 2,
                2 * (half as int) <= h <= 2 * (half as int) + 1,
                j < half,
                (j as int) < h - 1 - (j as int),
                top as int == h - 1 - (j as int),
                i <= width,
                w * h <= orig.len(),
                orig.len() <= usize::MAX,
                vec@.len() == orig.len(),
                forall|r: int, c: int| 0 <= r < h && 0 <= c < w && (r < j || r > h - 1 - j) ==> #[trigger] pixel(vec@, w, r, c) == pixel(orig, w, h - 1 - r, c),
                forall|c: int| 0 <= c < i ==> #[trigger] pixel(vec@, w, j as int, c) == pixel(orig, w, h - 1 - j, c),
                forall|c: int| 0 <= c < i ==> #[trigger] pixel(vec@, w, h - 1 - j, c) == pixel(orig, w, j as int, c),
                forall|c: int| i <= c < w ==> #[trigger] pixel(vec@, w, j as int, c) == pixel(orig, w, j as int, c),
                forall|c: int| i <= c < w ==> #[trigger] pixel(vec@, w, h - 1 - j, c) == pixel(orig, w, h - 1 - j, c),
                forall|r: int, c: int| 0 <= r < h && 0 <= c < w && j < r < h - 1 - j ==> #[trigger] pixel(vec@, w, r, c) == pixel(orig, w, r, c),
                forall|p: int| w * h <= p < orig.len() ==> vec@[p] == orig[p],
            decreases width - i,
        {
            proof {
                assert((j as int) * w + i < (j as int + 1) * w && (j as int + 1) * w <= h * w) by (nonlinear_arith)
                    requires
                        0 <= j as int,
                        (j as int) + 1 <= h,
                        0 <= i < w,
                        1 <= w,
                ;
                assert((top as int) * w + i < (top as int + 1) * w && (top as int + 1) * w <= h * w)
                    by (nonlinear_arith)
                    requires
                        0 <= top as int,
                        (top as int) + 1 <= h,
                        0 <= i < w,
                        1 <= w,
                ;
                assert(h * w == w * h) by (nonlinear_arith);
                assert((j as int) * w + i != (top as int) * w + i) by {
                    if (j as int) * w + i == (top as int) * w + i {
                        lemma_row_col_inj(j as int, i as int, top as int, i as int, w);
                    }
                }
            }
            let p: usize = j * width + i;
            let q: usize = top * width + i;
            let a = vec[p];
            let b = vec[q];
            let ghost before = vec@;
            vec.set(p, b);
            vec.set(q, a);
            proof {
                let ji = j as int;
                let ti = top as int;
                assert(b == pixel(before, w, ti, i as int));
                assert(a == pixel(before, w, ji, i as int));
                assert(pixel(vec@, w, ji, i as int) == b);
                assert(pixel(vec@, w, ti, i as int) == a);
                assert forall|r: int, c: int| 0 <= r < h && 0 <= c < w && (r < j || r > h - 1 - j)
                    implies #[trigger] pixel(vec@, w, r, c) == pixel(orig, w, h - 1 - r, c) by {
                    if r * w + c == ji * w + i {
                        lemma_row_col_inj(r, c, ji, i as int, w);
                        assert(false);
                    }
                    if r * w + c == ti * w + i {
                        lemma_row_col_inj(r, c, ti, i as int, w);
                        assert(false);
                    }
                    assert(0 <= r * w + c < h * w) by (nonlinear_arith)
                        requires
                            0 <= r < h,
                            0 <= c < w,
                            1 <= w,
                    ;
                    assert(pixel(vec@, w, r, c) == pixel(before, w, r, c));
                    assert(pixel(before, w, r, c) == pixel(orig, w, h - 1 - r, c));
                }
                assert forall|r: int, c: int| 0 <= r < h && 0 <= c < w && j < r < h - 1 - j implies
                    #[trigger] pixel(vec@, w, r, c) == pixel(orig, w, r, c) by {
                    if r * w + c == ji * w + i {
                        lemma_row_col_inj(r, c, ji, i as int, w);
                        assert(false);
                    }
                    if r * w + c == ti * w + i {
                        lemma_row_col_inj(r, c, ti, i as int, w);
                        assert(false);
                    }
                    assert(0 <= r * w + c < h * w) by (nonlinear_arith)
                        requires
                            0 <= r < h,
                            0 <= c < w,
                            1 <= w,
                    ;
                    assert(pixel(vec@, w, r, c) == pixel(before, w, r, c));
                    assert(pixel(before, w, r, c) == pixel(orig, w, r, c));
                }
                assert forall|c: int| 0 <= c < i + 1 implies #[trigger] pixel(vec@, w, ji, c)
                    == pixel(orig, w, h - 1 - j, c) by {
                    if c < i {
                        if ji * w + c == ji * w + i {
                            lemma_row_col_inj(ji, c, ji, i as int, w);
                            assert(false);
                        }
                        if ji * w + c == ti * w + i {
                            lemma_row_col_inj(ji, c, ti, i as int, w);
                            assert(false);
                        }
                        assert(0 <= ji * w + c < h * w) by (nonlinear_arith)
                            requires
                                0 <= ji < h,
                                0 <= c < w,
                                1 <= w,
                        ;
                        assert(pixel(vec@, w, ji, c) == pixel(before, w, ji, c));
                        assert(pixel(before, w, ji, c) == pixel(orig, w, h - 1 - j, c));
                    } else {
                        assert(pixel(vec@, w, ji, i as int) == b);
                        assert(pixel(before, w, ti, i as int) == pixel(orig, w, h - 1 - j, i as int));
                    }
                }
                assert forall|c: int| 0 <= c < i + 1 implies #[trigger] pixel(vec@, w, h - 1 - j, c)
                    == pixel(orig, w, ji, c) by {
                    if c < i {
                        if ti * w + c == ji * w + i {
                            lemma_row_col_inj(ti, c, ji, i as int, w);
                            assert(false);
                        }
                        if ti * w + c == ti * w + i {
                            lemma_row_col_inj(ti, c, ti, i as int, w);
                            assert(false);
                        }
                        assert(0 <= ti * w + c < h * w) by (nonlinear_arith)
                            requires
                                0 <= ti < h,
                                0 <= c < w,
                                1 <= w,
                        ;
                        assert(pixel(vec@, w, ti, c) == pixel(before, w, ti, c));
                        assert(pixel(before, w, ti, c) == pixel(orig, w, ji, c));
                    } else {
                        assert(pixel(vec@, w, ti, i as int) == a);
                        assert(pixel(before, w, ji, i as int) == pixel(orig, w, ji, i as int));
                    }
                }
                assert forall|c: int| i + 1 <= c < w implies #[trigger] pixel(vec@, w, ji, c)
                    == pixel(orig, w, ji, c) by {
                    if ji * w + c == ji * w + i {
                        lemma_row_col_inj(ji, c, ji, i as int, w);
                        assert(false);
                    }
                    if ji * w + c == ti * w + i {
                        lemma_row_col_inj(ji, c, ti, i as int, w);
                        assert(false);
                    }
                    assert(0 <= ji * w + c < h * w) by (nonlinear_arith)
                        requires
                            0 <= ji < h,
                            0 <= c < w,
                            1 <= w,
                    ;
                    assert(pixel(vec@, w, ji, c) == pixel(before, w, ji, c));
                    assert(pixel(before, w, ji, c) == pixel(orig, w, ji, c));
                }
                assert forall|c: int| i + 1 <= c < w implies #[trigger] pixel(vec@, w, h - 1 - j, c)
                    == pixel(orig, w, h - 1 - j, c) by {
                    if ti * w + c == ji * w + i {
                        lemma_row_col_inj(ti, c, ji, i as int, w);
                        assert(false);
                    }
                    if ti * w + c == ti * w + i {
                        lemma_row_col_inj(ti, c, ti, i as int, w);
                        assert(false);
                    }
                    assert(0 <= ti * w + c < h * w) by (nonlinear_arith)
                        requires
                            0 <= ti < h,
                            0 <= c < w,
                            1 <= w,
                    ;
                    assert(pixel(vec@, w, ti, c) == pixel(before, w, ti, c));
                    assert(pixel(before, w, ti, c) == pixel(orig, w, h - 1 - j, c));
                }
                assert forall|p2: int| w * h <= p2 < orig.len() implies vec@[p2] == orig[p2] by {
                    assert(ji * w + i < w * h);
                    assert(ti * w + i < w * h);
                    assert(vec@[p2] == before[p2]);
                }
            }
            i = i + 1;
        }
        j = j + 1;
    }
    proof {
        assert forall|r: int, c: int| 0 <= r < h && 0 <= c < w implies #[trigger] pixel(vec@, w, r, c)
            == pixel(orig, w, h - 1 - r, c) by {
            if half as int <= r && r <= h - 1 - (half as int) {
                assert(r == h - 1 - r) by (nonlinear_arith)
                    requires
                        half as int <= r <= h - 1 - (half as int),
                        2 * (half as int) <= h <= 2 * (half as int) + 1,
                ;
            }
        }
    }
}

} // verus!
