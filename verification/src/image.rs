//! Pixel-grid images: 8x8 or 16x16 binary pixel arrays decoded from runs of
//! digit lines, written back one row per line, with the editing transforms
//! the original toolkit offers.

use crate::error::Error;
use crate::numstr::{dec_str, u8_text};
use crate::strutil::views;
use vstd::prelude::*;

verus! {

/// A flat pixel array: 64 entries for an 8x8 image, 256 for 16x16.
/// Pixels decoded from text are always 0 or 1.
#[derive(Clone, Debug, Eq)]
pub struct Image {
    pub pixels: Vec<u8>,
}

impl PartialEq for Image {
    fn eq(&self, other: &Self) -> (r: bool) {
        let n = self.pixels.len();
        if n != other.pixels.len() {
            return false;
        }
        let mut i: usize = 0;
        while i < n
            invariant
                n == self.pixels@.len(),
                n == other.pixels@.len(),
                i <= n,
                forall|j: int| 0 <= j < i ==> self.pixels@[j] == other.pixels@[j],
            decreases n - i,
        {
            if self.pixels[i] != other.pixels[i] {
                return false;
            }
            i = i + 1;
        }
        proof {
            assert(self.pixels@ =~= other.pixels@);
        }
        true
    }
}

impl vstd::std_specs::cmp::PartialEqSpecImpl for Image {
    open spec fn obeys_eq_spec() -> bool {
        true
    }

    open spec fn eq_spec(&self, other: &Self) -> bool {
        self.pixels@ == other.pixels@
    }
}

/// The pixel a character encodes: `1` is lit, everything else dark.
pub open spec fn pix_of(c: char) -> u8 {
    if c == '1' {
        1
    } else {
        0
    }
}

/// The grid dimension a first line announces: 16 when it has at least 16
/// characters, 8 otherwise.
pub open spec fn img_dim(l: Seq<char>) -> nat {
    if l.len() >= 16 {
        16
    } else {
        8
    }
}

/// Do the lines from `start` on hold a full `d`-by-`d` pixel grid, `d`
/// being the dimension the first of them announces?
pub open spec fn img_ok(ls: Seq<Seq<char>>, start: nat) -> bool {
    &&& start < ls.len()
    &&& start + img_dim(ls[start as int]) <= ls.len()
    &&& forall|k: int|
        0 <= k < img_dim(ls[start as int]) ==> (#[trigger] ls[start + k]).len() >= img_dim(
            ls[start as int],
        )
}

/// The flat pixel array read from a `d`-by-`d` block of lines; characters
/// beyond column `d` are truncated away.
pub open spec fn grid_pixels(ls: Seq<Seq<char>>, start: nat, d: nat) -> Seq<u8> {
    Seq::new(
        (d * d) as nat,
        |idx: int| pix_of(ls[start + idx / (d as int)][idx % (d as int)]),
    )
}

/// The serialized form of one pixel row.
pub open spec fn row_text(ps: Seq<u8>) -> Seq<char>
    decreases ps.len(),
{
    if ps.len() == 0 {
        Seq::<char>::empty()
    } else {
        dec_str(ps[0] as nat) + row_text(ps.skip(1))
    }
}

/// The serialized form of a pixel array wrapped to rows of `w`.
pub open spec fn grid_text(ps: Seq<u8>, w: nat) -> Seq<char>
    decreases ps.len(),
    when w > 0
{
    if ps.len() <= w {
        row_text(ps)
    } else {
        row_text(ps.take(w as int)) + "\n"@ + grid_text(ps.skip(w as int), w)
    }
}

/// The serialized form of an image: rows of 16 when it holds a 16x16 grid,
/// rows of 8 otherwise.
pub open spec fn image_text(img: Image) -> Seq<char> {
    grid_text(img.pixels@, if img.pixels@.len() >= 256 {
        16
    } else {
        8
    })
}

impl Image {
    /// Decodes a pixel grid from `lines[start..]`: the first line fixes the
    /// dimension, that many lines are consumed, and each contributes that
    /// many pixels.  Returns the image and the index of the first line
    /// after it.
    pub fn from_lines(lines: &Vec<String>, start: usize) -> (r: Result<(Image, usize), Error>)
        ensures
            img_ok(views(lines@), start as nat) ==> ({
                let ls = views(lines@);
                let d = img_dim(ls[start as int]);
                r matches Ok(p) && p.0.pixels@ == grid_pixels(ls, start as nat, d) && p.1 == start
                    + d
            }),
            !img_ok(views(lines@), start as nat) ==> r == Err::<(Image, usize), Error>(
                Error::Image,
            ),
    {
        let ghost ls = views(lines@);
        let n = lines.len();
        if start >= n {
            return Err(Error::Image);
        }
        let first_len = lines[start].as_str().unicode_len();
        let d: usize = if first_len >= 16 {
            16
        } else {
            8
        };
        proof {
            assert(ls[start as int] == lines@[start as int]@);
            assert(d == img_dim(ls[start as int]));
        }
        if n - start < d {
            return Err(Error::Image);
        }
        // check every line is wide enough before reading pixels
        let mut k: usize = 0;
        while k < d
            invariant
                ls == views(lines@),
                n == lines@.len(),
                start < n,
                n - start >= d,
                d == img_dim(ls[start as int]),
                k <= d,
                forall|j: int| 0 <= j < k ==> (#[trigger] ls[start + j]).len() >= d,
            decreases d - k,
        {
            if lines[start + k].as_str().unicode_len() < d {
                proof {
                    assert(ls[start + k as int].len() < d);
                    assert(!img_ok(ls, start as nat));
                }
                return Err(Error::Image);
            }
            k = k + 1;
        }
        proof {
            assert(img_ok(ls, start as nat));
        }
        let mut pixels: Vec<u8> = Vec::new();
        let mut i: usize = 0;
        while i < d
            invariant
                ls == views(lines@),
                n == lines@.len(),
                start < n,
                n - start >= d,
                d == img_dim(ls[start as int]),
                d == 8 || d == 16,
                forall|j: int| 0 <= j < d ==> (#[trigger] ls[start + j]).len() >= d,
                i <= d,
                pixels@.len() == i * d,
                forall|idx: int|
                    0 <= idx < pixels@.len() ==> pixels@[idx] == pix_of(
                        ls[start + idx / (d as int)][idx % (d as int)],
                    ),
            decreases d - i,
    {
            let line = &lines[start + i];
            proof {
                assert(views(lines@)[start + i as int] == lines@[start + i as int]@);
                assert(ls[start + i as int].len() >= d);
                assert(line@.len() >= d);
            }
            let mut j: usize = 0;
            while j < d
                invariant
                    ls == views(lines@),
                    n == lines@.len(),
                    start < n,
                    start + i < n,
                    i < d,
                    d == img_dim(ls[start as int]),
                    d == 8 || d == 16,
                    line@ == ls[start + i as int],
                    line@.len() >= d,
                    forall|jj: int| 0 <= jj < d ==> (#[trigger] ls[start + jj]).len() >= d,
                    j <= d,
                    pixels@.len() == i * d + j,
                    forall|idx: int|
                        0 <= idx < pixels@.len() ==> pixels@[idx] == pix_of(
                            ls[start + idx / (d as int)][idx % (d as int)],
                        ),
                decreases d - j,
            {
                let c = line.as_str().get_char(j);
                let p: u8 = if c == '1' {
                    1
                } else {
                    0
                };
                pixels.push(p);
                proof {
                    let idx = (i * d + j) as int;
                    assert(idx / (d as int) == i && idx % (d as int) == j) by (nonlinear_arith)
                        requires
                            0 <= j < d,
                            0 <= i,
                            idx == i * d + j,
                            d > 0,
                    ;
                    assert(pixels@[idx] == pix_of(ls[start + i as int][j as int]));
                }
                j = j + 1;
            }
            proof {
                assert((i + 1) * d == i * d + d) by (nonlinear_arith);
            }
            i = i + 1;
        }
        proof {
            assert(pixels@ =~= grid_pixels(ls, start as nat, d as nat));
        }
        Ok((Image { pixels }, start + d))
    }

    /// Writes the image as rows of digit characters.
    pub fn to_string(&self) -> (r: String)
        ensures
            r@ == image_text(*self),
    {
        let ps = &self.pixels;
        let n = ps.len();
        let w: usize = if n >= 256 {
            16
        } else {
            8
        };
        let mut out = String::new();
        let mut i: usize = 0;
        proof {
            assert(ps@.skip(0) =~= ps@);
            assert(Seq::<char>::empty() + grid_text(ps@, w as nat) =~= grid_text(ps@, w as nat));
        }
        while i < n
            invariant
                ps@ == self.pixels@,
                n == ps@.len(),
                w == (if n >= 256 { 16int } else { 8int }),
                i <= n,
                i % w == 0 || i == n,
                grid_text(ps@, w as nat) == out@ + grid_text(ps@.skip(i as int), w as nat),
            decreases n - i,
        {
            let ghost rest = ps@.skip(i as int);
            let end = if n - i < w {
                n
            } else {
                i + w
            };
            let ghost row = if rest.len() <= w {
                rest
            } else {
                rest.take(w as int)
            };
            let ghost out0 = out@;
            let mut j: usize = i;
            proof {
                assert(row =~= ps@.subrange(i as int, end as int));
                assert(row.skip(0) =~= row);
            }
            while j < end
                invariant
                    ps@ == self.pixels@,
                    n == ps@.len(),
                    i <= j <= end <= n,
                    end - i <= w,
                    row == ps@.subrange(i as int, end as int),
                    out0 + row_text(row) == out@ + row_text(row.skip(j - i)),
                decreases end - j,
            {
                let ghost rr = row.skip(j - i);
                proof {
                    assert(rr[0] == ps@[j as int]);
                    assert(rr.skip(1) =~= row.skip(j - i + 1));
                    assert(row_text(rr) == dec_str(ps@[j as int] as nat) + row_text(rr.skip(1)));
                }
                out.append(u8_text(ps[j]).as_str());
                proof {
                    assert(out@ + row_text(row.skip(j - i + 1)) =~= out0 + row_text(row));
                }
                j = j + 1;
            }
            proof {
                assert(row.skip(end - i) =~= Seq::<u8>::empty());
                assert(out@ =~= out0 + row_text(row));
            }
            if end < n {
                out.append("\n");
                proof {
                    assert(rest.len() > w);
                    assert(row == rest.take(w as int));
                    assert(grid_text(rest, w as nat) == row_text(rest.take(w as int)) + "\n"@
                        + grid_text(rest.skip(w as int), w as nat));
                    assert(rest.skip(w as int) =~= ps@.skip(end as int));
                    assert(out@ + grid_text(ps@.skip(end as int), w as nat) =~= grid_text(
                        ps@,
                        w as nat,
                    ));
                    assert(end % w == 0) by (nonlinear_arith)
                        requires
                            i % w == 0,
                            end == i + w,
                            w > 0,
                    ;
                }
            } else {
                proof {
                    assert(rest.len() <= w || rest.len() == w);
                    if rest.len() <= w {
                        assert(grid_text(rest, w as nat) == row_text(rest));
                        assert(row =~= rest);
                    } else {
                        assert(false);
                    }
                    assert(ps@.skip(n as int).len() == 0);
                    assert(out@ + grid_text(ps@.skip(n as int), w as nat) =~= grid_text(
                        ps@,
                        w as nat,
                    ));
                }
            }
            i = end;
        }
        proof {
            assert(ps@.skip(n as int).len() == 0);
            assert(grid_text(ps@.skip(n as int), w as nat) == row_text(Seq::<u8>::empty()));
            assert(out@ + Seq::<char>::empty() =~= out@);
        }
        out
    }

    /// Swaps lit and dark pixels.
    pub fn invert(&mut self)
        requires
            forall|i: int| 0 <= i < old(self).pixels@.len() ==> old(self).pixels@[i] <= 1,
        ensures
            final(self).pixels@.len() == old(self).pixels@.len(),
            forall|i: int|
                0 <= i < old(self).pixels@.len() ==> final(self).pixels@[i] == 1 - old(
                    self,
                ).pixels@[i],
    {
        let n = self.pixels.len();
        let mut out: Vec<u8> = Vec::new();
        let mut i: usize = 0;
        while i < n
            invariant
                n == self.pixels@.len(),
                self.pixels@ == old(self).pixels@,
                forall|k: int| 0 <= k < n ==> self.pixels@[k] <= 1,
                i <= n,
                out@.len() == i,
                forall|k: int| 0 <= k < i ==> out@[k] == 1 - self.pixels@[k],
            decreases n - i,
        {
            out.push(1 - self.pixels[i]);
            i = i + 1;
        }
        self.pixels = out;
    }

    /// Flips the image vertically, row by row of eight.
    pub fn flip(&mut self)
        requires
            old(self).pixels@.len() % 8 == 0,
        ensures
            final(self).pixels@.len() == old(self).pixels@.len(),
            forall|i: int|
                0 <= i < old(self).pixels@.len() ==> final(self).pixels@[i] == old(self).pixels@[(
                old(self).pixels@.len() / 8 - 1 - i / 8) * 8 + i % 8],
    {
        let n = self.pixels.len();
        let rows = n / 8;
        let mut out: Vec<u8> = Vec::new();
        let mut r: usize = 0;
        while r < rows
            invariant
                n == self.pixels@.len(),
                self.pixels@ == old(self).pixels@,
                n % 8 == 0,
                rows == n / 8,
                r <= rows,
                out@.len() == r * 8,
                forall|k: int|
                    0 <= k < out@.len() ==> out@[k] == self.pixels@[(rows - 1 - k / 8) * 8 + k % 8],
            decreases rows - r,
        {
            let src = rows - 1 - r;
            let mut c: usize = 0;
            while c < 8
                invariant
                    n == self.pixels@.len(),
                    self.pixels@ == old(self).pixels@,
                    n % 8 == 0,
                    rows == n / 8,
                    r < rows,
                    src == rows - 1 - r,
                    c <= 8,
                    out@.len() == r * 8 + c,
                    forall|k: int|
                        0 <= k < out@.len() ==> out@[k] == self.pixels@[(rows - 1 - k / 8) * 8 + k
                            % 8],
                decreases 8 - c,
            {
                proof {
                    assert(src * 8 + c < rows * 8 && rows * 8 <= n) by (nonlinear_arith)
                        requires
                            0 <= src < rows,
                            0 <= c < 8,
                            rows == n / 8,
                            n % 8 == 0,
                    ;
                }
                out.push(self.pixels[src * 8 + c]);
                proof {
                    let k = (r * 8 + c) as int;
                    assert(k / 8 == r && k % 8 == c) by (nonlinear_arith)
                        requires
                            0 <= c < 8,
                            0 <= r,
                            k == r * 8 + c,
                    ;
                }
                c = c + 1;
            }
            r = r + 1;
        }
        proof {
            assert(rows * 8 == n) by (nonlinear_arith)
                requires
                    rows == n / 8,
                    n % 8 == 0,
            ;
        }
        self.pixels = out;
    }

    /// Mirrors the image horizontally, row by row of eight.
    pub fn mirror(&mut self)
        requires
            old(self).pixels@.len() % 8 == 0,
        ensures
            final(self).pixels@.len() == old(self).pixels@.len(),
            forall|i: int|
                0 <= i < old(self).pixels@.len() ==> final(self).pixels@[i] == old(self).pixels@[(i
                    / 8) * 8 + (7 - i % 8)],
    {
        let n = self.pixels.len();
        let rows = n / 8;
        let mut out: Vec<u8> = Vec::new();
        let mut r: usize = 0;
        while r < rows
            invariant
                n == self.pixels@.len(),
                self.pixels@ == old(self).pixels@,
                n % 8 == 0,
                rows == n / 8,
                r <= rows,
                out@.len() == r * 8,
                forall|k: int|
                    0 <= k < out@.len() ==> out@[k] == self.pixels@[(k / 8) * 8 + (7 - k % 8)],
            decreases rows - r,
        {
            let mut c: usize = 0;
            while c < 8
                invariant
                    n == self.pixels@.len(),
                    self.pixels@ == old(self).pixels@,
                    n % 8 == 0,
                    rows == n / 8,
                    r < rows,
                    c <= 8,
                    out@.len() == r * 8 + c,
                    forall|k: int|
                        0 <= k < out@.len() ==> out@[k] == self.pixels@[(k / 8) * 8 + (7 - k % 8)],
                decreases 8 - c,
            {
                proof {
                    assert(r * 8 + (7 - c) < rows * 8 && rows * 8 <= n) by (nonlinear_arith)
                        requires
                            0 <= r < rows,
                            0 <= c < 8,
                            rows == n / 8,
                            n % 8 == 0,
                    ;
                }
                out.push(self.pixels[r * 8 + (7 - c)]);
                proof {
                    let k = (r * 8 + c) as int;
                    assert(k / 8 == r && k % 8 == c) by (nonlinear_arith)
                        requires
                            0 <= c < 8,
                            0 <= r,
                            k == r * 8 + c,
                    ;
                }
                c = c + 1;
            }
            r = r + 1;
        }
        proof {
            assert(rows * 8 == n) by (nonlinear_arith)
                requires
                    rows == n / 8,
                    n % 8 == 0,
            ;
        }
        self.pixels = out;
    }

    /// Rotates the top-left 8x8 quadrant ninety degrees clockwise; the
    /// result is always a 64-pixel image.
    pub fn rotate(&mut self)
        requires
            old(self).pixels@.len() >= 64,
        ensures
            final(self).pixels@.len() == 64,
            forall|k: int|
                0 <= k < 64 ==> final(self).pixels@[k] == old(self).pixels@[(7 - k % 8) * 8 + k
                    / 8],
    {
        let n = self.pixels.len();
        let mut out: Vec<u8> = Vec::new();
        let mut x: usize = 0;
        while x < 8
            invariant
                n == self.pixels@.len(),
                self.pixels@ == old(self).pixels@,
                n >= 64,
                x <= 8,
                out@.len() == x * 8,
                forall|k: int|
                    0 <= k < out@.len() ==> out@[k] == self.pixels@[(7 - k % 8) * 8 + k / 8],
            decreases 8 - x,
        {
            let mut yy: usize = 0;
            while yy < 8
                invariant
                    n == self.pixels@.len(),
                    self.pixels@ == old(self).pixels@,
                    n >= 64,
                    x < 8,
                    yy <= 8,
                    out@.len() == x * 8 + yy,
                    forall|k: int|
                        0 <= k < out@.len() ==> out@[k] == self.pixels@[(7 - k % 8) * 8 + k / 8],
                decreases 8 - yy,
            {
                let y = 7 - yy;
                out.push(self.pixels[y * 8 + x]);
                proof {
                    let k = (x * 8 + yy) as int;
                    assert(k / 8 == x && k % 8 == yy) by (nonlinear_arith)
                        requires
                            0 <= yy < 8,
                            0 <= x,
                            k == x * 8 + yy,
                    ;
                }
                yy = yy + 1;
            }
            x = x + 1;
        }
        self.pixels = out;
    }
}

} // verus!
