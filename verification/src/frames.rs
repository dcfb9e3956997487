//! Decoded pictures.
use vstd::prelude::*;

use crate::model::Frame;
use crate::model::Resolution;

verus! {

/// How far a preview is scaled down before it is decoded.
#[derive(Clone, Copy, Debug, PartialEq, Eq, Structural)]
pub enum PreviewScale {
    Full,
    Half,
    Quarter,
}

/// One side of a picture at a scale: divided, and even, so that its planes of
/// half the size are whole.
pub open spec fn scaled_side(side: u32, scale: PreviewScale) -> u32 {
    let n = match scale {
        PreviewScale::Full => side,
        PreviewScale::Half => side / 2,
        PreviewScale::Quarter => side / 4,
    };
    if scale == PreviewScale::Full {
        side
    } else if n < 2 {
        2
    } else {
        (n - n % 2) as u32
    }
}

impl PreviewScale {
    /// The size of a picture at this scale.
    pub fn apply(self, full: Resolution) -> (r: Resolution)
        ensures
            r.width == scaled_side(full.width, self),
            r.height == scaled_side(full.height, self),
    {
        Resolution { width: self.side(full.width), height: self.side(full.height) }
    }

    fn side(self, side: u32) -> (n: u32)
        ensures
            n == scaled_side(side, self),
    {
        let n: u32 = match self {
            PreviewScale::Full => {
                return side;
            },
            PreviewScale::Half => side / 2,
            PreviewScale::Quarter => side / 4,
        };
        if n < 2 {
            2
        } else {
            n - n % 2
        }
    }
}

/// A decoded picture: rows of red, green, blue and opacity.
#[derive(Debug, PartialEq, Eq)]
pub struct VideoFrame {
    pub position: Frame,
    pub width: u32,
    pub height: u32,
    pub rgba: Vec<u8>,
}

/// The contents of a [`VideoFrame`].
pub struct Picture {
    pub position: Frame,
    pub width: u32,
    pub height: u32,
    pub rgba: Seq<u8>,
}

impl View for VideoFrame {
    type V = Picture;

    open spec fn view(&self) -> Picture {
        Picture {
            position: self.position,
            width: self.width,
            height: self.height,
            rgba: self.rgba@,
        }
    }
}

impl Clone for VideoFrame {
    fn clone(&self) -> (c: Self)
        ensures
            c@ == self@,
    {
        let rgba = self.rgba.clone();
        assert(rgba@ =~= self.rgba@);
        VideoFrame { position: self.position, width: self.width, height: self.height, rgba }
    }
}

/// The contents of a list of pictures.
pub open spec fn pictures(v: Seq<VideoFrame>) -> Seq<Picture> {
    Seq::new(v.len(), |i: int| v[i]@)
}

impl VideoFrame {
    /// The buffer holds exactly the picture.
    pub open spec fn wf(self) -> bool {
        self.rgba@.len() == self.width * self.height * 4
    }

    pub fn is_well_formed(&self) -> (ok: bool)
        ensures
            ok == self.wf(),
    {
        let w: u128 = self.width as u128;
        let h: u128 = self.height as u128;
        assert(w * h <= 0xffff_ffff * 0xffff_ffff) by (nonlinear_arith)
            requires
                w <= 0xffff_ffff,
                h <= 0xffff_ffff,
        ;
        self.rgba.len() as u128 == w * h * 4
    }

    pub fn resolution(&self) -> (r: Resolution)
        ensures
            r == (Resolution { width: self.width, height: self.height }),
    {
        Resolution { width: self.width, height: self.height }
    }
}

/// A decoded picture as planes: full-size brightness, and two colour planes
/// at half the width and half the height, rounded up.
#[derive(Debug, PartialEq, Eq)]
pub struct PlanarFrame {
    pub position: Frame,
    pub width: u32,
    pub height: u32,
    pub y: Vec<u8>,
    pub u: Vec<u8>,
    pub v: Vec<u8>,
}

/// Half of a size, rounded up.
pub open spec fn half_up(n: u32) -> int {
    (n as int + 1) / 2
}

impl PlanarFrame {
    /// The planes hold exactly the picture.
    pub open spec fn wf(self) -> bool {
        &&& self.y@.len() == self.width * self.height
        &&& self.u@.len() == half_up(self.width) * half_up(self.height)
        &&& self.v@.len() == half_up(self.width) * half_up(self.height)
    }

    pub fn is_well_formed(&self) -> (ok: bool)
        ensures
            ok == self.wf(),
    {
        let w: u128 = self.width as u128;
        let h: u128 = self.height as u128;
        let cw: u128 = (w + 1) / 2;
        let ch: u128 = (h + 1) / 2;
        assert(w * h <= 0xffff_ffff * 0xffff_ffff) by (nonlinear_arith)
            requires
                w <= 0xffff_ffff,
                h <= 0xffff_ffff,
        ;
        assert(cw * ch <= 0xffff_ffff * 0xffff_ffff) by (nonlinear_arith)
            requires
                cw <= 0xffff_ffff,
                ch <= 0xffff_ffff,
        ;
        self.y.len() as u128 == w * h && self.u.len() as u128 == cw * ch && self.v.len() as u128
            == cw * ch
    }

    pub fn resolution(&self) -> (r: Resolution)
        ensures
            r == (Resolution { width: self.width, height: self.height }),
    {
        Resolution { width: self.width, height: self.height }
    }

    /// Bytes held by the planes.
    pub fn bytes(&self) -> (n: u128)
        ensures
            n == self.y@.len() + self.u@.len() + self.v@.len(),
    {
        self.y.len() as u128 + self.u.len() as u128 + self.v.len() as u128
    }
}

/// A scaled side is its share of the whole, to within a pixel or two: even, so
/// that its planes are whole, and never less than two. The full scale changes
/// nothing.
pub proof fn a_scaled_side_is_its_share(side: u32)
    ensures
        scaled_side(side, PreviewScale::Full) == side,
        scaled_side(side, PreviewScale::Half) % 2 == 0,
        scaled_side(side, PreviewScale::Quarter) % 2 == 0,
        scaled_side(side, PreviewScale::Half) >= 2,
        scaled_side(side, PreviewScale::Quarter) >= 2,
        side >= 4 ==> 0 <= side - 2 * scaled_side(side, PreviewScale::Half) < 4,
        side >= 8 ==> 0 <= side - 4 * scaled_side(side, PreviewScale::Quarter) < 8,
{
}

/// A colour plane is half as wide and as tall as its picture, and has the odd
/// column and row as well.
pub proof fn a_colour_plane_is_half_a_side(n: u32)
    ensures
        2 * half_up(n) == n || 2 * half_up(n) == n + 1,
        n > 0 ==> half_up(n) > 0,
{
}

} // verus!
