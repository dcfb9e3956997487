//! Handing planes to a host that converts their colours itself.
use vstd::prelude::*;

use crate::frames::PlanarFrame;
use crate::frames::half_up;

verus! {

/// How far a colour converted by the host may differ from one converted here,
/// where both do the same arithmetic.
pub const SHADER_TOLERANCE: u8 = 2;

/// How far it may differ further, where the host smooths the colour planes.
pub const CHROMA_UPSAMPLE_TOLERANCE: u8 = 12;

/// What it takes to hand over a frame.
#[derive(Clone, Copy, Debug, PartialEq, Eq)]
pub struct Upload {
    /// Whether the planes of the host have another size.
    pub allocate: bool,
    pub luma: (u32, u32),
    pub chroma: (u32, u32),
}

/// What it takes to hand over a frame, where the host holds planes for a
/// picture of the size `held`. A frame whose planes are not whole is not handed
/// over.
pub fn plan_upload(held: Option<(u32, u32)>, frame: &PlanarFrame) -> (u: Option<Upload>)
    ensures
        match u {
            Some(p) => {
                &&& frame.wf()
                &&& frame.width > 0
                &&& frame.height > 0
                &&& p.allocate == (held != Some((frame.width, frame.height)))
                &&& p.luma == (frame.width, frame.height)
                &&& p.chroma.0 == half_up(frame.width)
                &&& p.chroma.1 == half_up(frame.height)
                &&& frame.y@.len() == p.luma.0 * p.luma.1
                &&& frame.u@.len() == p.chroma.0 * p.chroma.1
                &&& frame.v@.len() == p.chroma.0 * p.chroma.1
            },
            None => !frame.wf() || frame.width == 0 || frame.height == 0,
        },
{
    if !frame.is_well_formed() || frame.width == 0 || frame.height == 0 {
        return None;
    }
    let allocate = match held {
        Some((w, h)) => w != frame.width || h != frame.height,
        None => true,
    };
    let cw: u32 = frame.width / 2 + frame.width % 2;
    let ch: u32 = frame.height / 2 + frame.height % 2;
    Some(Upload { allocate, luma: (frame.width, frame.height), chroma: (cw, ch) })
}

} // verus!
