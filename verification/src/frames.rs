//! Animations: one or more images, separated in the text by a lone `>`
//! line.

use crate::error::Error;
use crate::image::{grid_pixels, image_text, img_dim, img_ok, Image};
use crate::strutil::views;
use vstd::prelude::*;

verus! {

/// The serialized form of an animation: its frames joined by `\n>\n`.
pub open spec fn frames_text(fs: Seq<Image>) -> Seq<char>
    decreases fs.len(),
{
    if fs.len() == 0 {
        Seq::<char>::empty()
    } else if fs.len() == 1 {
        image_text(fs[0])
    } else {
        image_text(fs[0]) + "\n>\n"@ + frames_text(fs.skip(1))
    }
}

/// The pixel arrays of the frames read from `ls[i..]`: one image block,
/// then another after each lone `>` line.
pub open spec fn frames_pixels(ls: Seq<Seq<char>>, i: nat) -> Result<Seq<Seq<u8>>, Error>
    decreases ls.len() - i,
    when i <= ls.len()
{
    if !img_ok(ls, i) {
        Err(Error::Image)
    } else {
        let d = img_dim(ls[i as int]);
        let ni = i + d;
        if ni < ls.len() && ls[ni as int] == ">"@ {
            match frames_pixels(ls, ni + 1) {
                Ok(rest) => Ok(seq![grid_pixels(ls, i, d)] + rest),
                Err(e) => Err(e),
            }
        } else {
            Ok(seq![grid_pixels(ls, i, d)])
        }
    }
}

/// A decoded animation always has at least one frame.
pub proof fn lemma_frames_pixels_len(ls: Seq<Seq<char>>, i: nat)
    requires
        i <= ls.len(),
    ensures
        match frames_pixels(ls, i) {
            Ok(pxs) => pxs.len() >= 1,
            Err(_) => true,
        },
    decreases ls.len() - i,
{
    if img_ok(ls, i) {
        let d = img_dim(ls[i as int]);
        let ni = i + d;
        if ni < ls.len() && ls[ni as int] == ">"@ {
            lemma_frames_pixels_len(ls, ni + 1);
        }
    }
}

/// Decodes the animation starting at `lines[start]`.
pub fn parse_frames(lines: &Vec<String>, start: usize) -> (r: Result<Vec<Image>, Error>)
    requires
        start <= lines@.len(),
    ensures
        match frames_pixels(views(lines@), start as nat) {
            Ok(pxs) => r matches Ok(fs) && fs@.map_values(|im: Image| im.pixels@) == pxs,
            Err(e) => r == Err::<Vec<Image>, Error>(e),
        },
{
    let ghost ls = views(lines@);
    let n = lines.len();
    let mut out: Vec<Image> = Vec::new();
    let ghost done = Seq::<Seq<u8>>::empty();
    let mut i: usize = start;
    proof {
        assert(out@.map_values(|im: Image| im.pixels@) =~= done);
    }
    loop
        invariant
            ls == views(lines@),
            n == lines@.len(),
            i <= n,
            out@.map_values(|im: Image| im.pixels@) == done,
            match frames_pixels(ls, i as nat) {
                Ok(rest) => frames_pixels(ls, start as nat) == Ok::<Seq<Seq<u8>>, Error>(
                    done + rest,
                ),
                Err(e) => frames_pixels(ls, start as nat) == Err::<Seq<Seq<u8>>, Error>(e),
            },
        decreases n - i,
    {
        let ghost olddone = done;
        let ghost oldi = i as nat;
        let step = Image::from_lines(lines, i);
        match step {
            Err(e) => {
                proof {
                    assert(frames_pixels(ls, oldi) == Err::<Seq<Seq<u8>>, Error>(Error::Image));
                }
                return Err(e);
            },
            Ok(p) => {
                let (img, ni) = p;
                proof {
                    assert(img_ok(ls, oldi));
                }
                let ghost d = img_dim(ls[oldi as int]);
                let ghost px = grid_pixels(ls, oldi, d);
                out.push(img);
                proof {
                    done = done.push(px);
                    assert(out@.map_values(|im: Image| im.pixels@) =~= done);
                }
                if ni < n && crate::strutil::str_eq(lines[ni].as_str(), ">") {
                    proof {
                        assert(ls[ni as int] == ">"@);
                        match frames_pixels(ls, ni as nat + 1) {
                            Ok(rest) => {
                                assert(frames_pixels(ls, oldi) == Ok::<Seq<Seq<u8>>, Error>(
                                    seq![px] + rest,
                                ));
                                assert(olddone + (seq![px] + rest) =~= done + rest);
                            },
                            Err(e) => {
                                assert(frames_pixels(ls, oldi) == Err::<Seq<Seq<u8>>, Error>(e));
                            },
                        }
                    }
                    i = ni + 1;
                } else {
                    proof {
                        assert(!(ni < n && ls[ni as int] == ">"@));
                        assert(frames_pixels(ls, oldi) == Ok::<Seq<Seq<u8>>, Error>(seq![px]));
                        assert(olddone + seq![px] =~= done);
                    }
                    return Ok(out);
                }
            },
        }
    }
}

/// An animation's frames know how to write themselves out.
pub trait AnimationFrames {
    /// The frames as a sequence of images.
    spec fn frames_view(&self) -> Seq<Image>;

    /// Writes the frames joined by `\n>\n`; an animation always has at
    /// least one frame.
    fn to_string(&self) -> (r: String)
        requires
            self.frames_view().len() >= 1,
        ensures
            r@ == frames_text(self.frames_view()),
    ;
}

impl AnimationFrames for Vec<Image> {
    open spec fn frames_view(&self) -> Seq<Image> {
        self@
    }

    fn to_string(&self) -> (r: String) {
        let ghost fs = self@;
        let n = self.len();
        let mut out = String::new();
        let mut i: usize = 0;
        proof {
            assert(fs.skip(0) =~= fs);
        }
        while i < n
            invariant
                fs == self@,
                n == fs.len(),
                n >= 1,
                i <= n,
                frames_text(fs) == out@ + frames_text(fs.skip(i as int)),
                i == n ==> out@ == frames_text(fs),
            decreases n - i,
        {
            let ghost rest = fs.skip(i as int);
            proof {
                assert(rest[0] == fs[i as int]);
                assert(rest.skip(1) =~= fs.skip(i as int + 1));
            }
            out.append(self[i].to_string().as_str());
            if i + 1 < n {
                out.append("\n>\n");
                proof {
                    assert(frames_text(rest) == image_text(rest[0]) + "\n>\n"@ + frames_text(
                        rest.skip(1),
                    ));
                    assert(out@ + frames_text(fs.skip(i as int + 1)) =~= frames_text(fs));
                }
            } else {
                proof {
                    assert(rest.len() == 1);
                    assert(frames_text(rest) == image_text(rest[0]));
                    assert(frames_text(fs.skip(i as int + 1)).len() == 0);
                    assert(out@ + frames_text(fs.skip(i as int + 1)) =~= frames_text(fs));
                }
            }
            i = i + 1;
        }
        out
    }
}

} // verus!
