//! What a media file holds.
use vstd::prelude::*;
use vstd::string::*;

use crate::mlt::convert::at_least_zero;
use crate::mlt::convert::frames;
use crate::mlt::convert::size;
use crate::model::Fps;
use crate::model::Resolution;

verus! {

/// What a stream carries.
#[derive(Clone, Copy, Debug, PartialEq, Eq, Structural)]
pub enum StreamKind {
    Audio,
    Video,
    Other,
}

/// A stream as the framework reports it.
#[derive(Debug, PartialEq, Eq)]
pub struct StreamFacts {
    pub kind: StreamKind,
    pub codec: Option<String>,
    pub width: i32,
    pub height: i32,
    pub sample_rate: i32,
    /// The frame rate, as an exact ratio.
    pub fps: Option<Fps>,
}

/// What a media file holds.
#[derive(Debug, PartialEq, Eq)]
pub struct SourceInfo {
    pub path: String,
    pub has_video: bool,
    pub resolution: Option<Resolution>,
    pub fps: Option<Fps>,
    pub frames: u64,
    pub audio_streams: usize,
    pub sample_rate: Option<u32>,
}

/// What the first `n` streams say: the size and the rate of the picture, the
/// number of audio streams, and their sample rate.
pub open spec fn summary(s: Seq<StreamFacts>, n: int) -> (
    Option<Resolution>,
    Option<Fps>,
    int,
    Option<u32>,
)
    decreases n,
{
    if n <= 0 {
        (None, None, 0, None)
    } else {
        let (resolution, fps, audio, rate) = summary(s, n - 1);
        let f = s[n - 1];
        match f.kind {
            StreamKind::Audio => (
                resolution,
                fps,
                audio + 1,
                if rate is None && f.sample_rate > 0 {
                    Some(f.sample_rate as u32)
                } else {
                    rate
                },
            ),
            StreamKind::Video => if resolution is Some {
                (resolution, fps, audio, rate)
            } else {
                (
                    if f.width > 0 && f.height > 0 {
                        Some(Resolution { width: f.width as u32, height: f.height as u32 })
                    } else {
                        None
                    },
                    f.fps,
                    audio,
                    rate,
                )
            },
            StreamKind::Other => (resolution, fps, audio, rate),
        }
    }
}

/// What a media file holds, from its streams and its length.
pub fn describe(path: String, streams: &Vec<StreamFacts>, length: i32) -> (info: SourceInfo)
    ensures
        ({
            let (resolution, fps, audio, rate) = summary(streams@, streams@.len() as int);
            &&& info.path@ == path@
            &&& info.resolution == resolution
            &&& info.has_video == (resolution is Some)
            &&& info.fps == fps
            &&& info.frames == at_least_zero(length)
            &&& info.audio_streams == audio
            &&& info.sample_rate == rate
        }),
{
    let mut resolution: Option<Resolution> = None;
    let mut fps: Option<Fps> = None;
    let mut audio: usize = 0;
    let mut rate: Option<u32> = None;
    let n: usize = streams.len();
    let mut i: usize = 0;
    while i < n
        invariant
            i <= n == streams@.len(),
            audio <= i,
            (resolution, fps, audio as int, rate) == summary(streams@, i as int),
        decreases n - i,
    {
        let f = &streams[i];
        match f.kind {
            StreamKind::Audio => {
                audio = audio + 1;
                if rate.is_none() && f.sample_rate > 0 {
                    rate = Some(size(f.sample_rate));
                }
            },
            StreamKind::Video => {
                if resolution.is_none() {
                    if f.width > 0 && f.height > 0 {
                        resolution = Some(
                            Resolution { width: size(f.width), height: size(f.height) },
                        );
                    }
                    fps = f.fps;
                }
            },
            StreamKind::Other => {},
        }
        i = i + 1;
    }
    SourceInfo {
        path,
        has_video: resolution.is_some(),
        resolution,
        fps,
        frames: frames(length),
        audio_streams: audio,
        sample_rate: rate,
    }
}

/// The first picture stream, from the `i`-th on.
pub open spec fn first_video(s: Seq<StreamFacts>, i: int) -> Option<int>
    decreases s.len() - i,
{
    if i >= s.len() {
        None
    } else if s[i].kind == StreamKind::Video {
        Some(i)
    } else {
        first_video(s, i + 1)
    }
}

/// The text that an option holds.
pub open spec fn codec_view(o: Option<String>) -> Option<Seq<char>> {
    match o {
        Some(c) => Some(c@),
        None => None,
    }
}

/// The codec that is decoded: that of the first stream, or of the first
/// picture stream.
pub open spec fn decoded_codec(s: Seq<StreamFacts>) -> Option<Seq<char>> {
    if s.len() > 0 && s[0].codec is Some {
        codec_view(s[0].codec)
    } else {
        match first_video(s, 0) {
            Some(i) => codec_view(s[i].codec),
            None => None,
        }
    }
}

/// The pixels of the first stream.
pub open spec fn decoded_pixels(s: Seq<StreamFacts>) -> int {
    if s.len() == 0 {
        0
    } else {
        at_least_zero(s[0].width) * at_least_zero(s[0].height)
    }
}

/// What decides whether a source is decoded by hardware: its codec, and how
/// many pixels it has.
pub fn decode_facts(streams: &Vec<StreamFacts>) -> (r: (Option<String>, u64))
    ensures
        codec_view(r.0) == decoded_codec(streams@),
        r.1 == decoded_pixels(streams@),
{
    let n: usize = streams.len();
    if n == 0 {
        return (None, 0);
    }
    let w: u32 = size(streams[0].width);
    let h: u32 = size(streams[0].height);
    assert(0 <= w * h <= 0xffff_ffff * 0xffff_ffff) by (nonlinear_arith)
        requires
            0 <= w <= 0xffff_ffff,
            0 <= h <= 0xffff_ffff,
    ;
    let pixels: u64 = w as u64 * h as u64;
    if let Some(c) = &streams[0].codec {
        return (Some(c.clone()), pixels);
    }
    let mut i: usize = 0;
    while i < n
        invariant
            i <= n == streams@.len(),
            first_video(streams@, 0) == first_video(streams@, i as int),
            n > 0,
            streams@[0].codec is None,
            pixels == decoded_pixels(streams@),
        decreases n - i,
    {
        match streams[i].kind {
            StreamKind::Video => {
                let codec = match &streams[i].codec {
                    Some(c) => Some(c.clone()),
                    None => None,
                };
                return (codec, pixels);
            },
            _ => {},
        }
        i = i + 1;
    }
    (None, pixels)
}

/// What a file is said to hold is what its streams hold: its size is that of
/// the first picture stream that has one, each audio stream counts once, and
/// the sample rate is that of the first audio stream that has one.
pub proof fn a_file_holds_what_its_streams_hold(s: Seq<StreamFacts>, n: int)
    requires
        0 <= n <= s.len(),
    ensures
        ({
            let (resolution, fps, audio, rate) = summary(s, n);
            let sized = |i: int|
                s[i].kind == StreamKind::Video && s[i].width > 0 && s[i].height > 0;
            let rated = |i: int| s[i].kind == StreamKind::Audio && s[i].sample_rate > 0;
            &&& match resolution {
                Some(r) => exists|i: int|
                    {
                        &&& 0 <= i < n
                        &&& #[trigger] sized(i)
                        &&& r.width == s[i].width
                        &&& r.height == s[i].height
                        &&& fps == s[i].fps
                        &&& forall|k: int| 0 <= k < i ==> !#[trigger] sized(k)
                    },
                None => forall|k: int| 0 <= k < n ==> !#[trigger] sized(k),
            }
            &&& match rate {
                Some(r) => exists|i: int|
                    {
                        &&& 0 <= i < n
                        &&& #[trigger] rated(i)
                        &&& r == s[i].sample_rate
                        &&& forall|k: int| 0 <= k < i ==> !#[trigger] rated(k)
                    },
                None => forall|k: int| 0 <= k < n ==> !#[trigger] rated(k),
            }
            &&& audio == Set::new(|i: int| 0 <= i < n && s[i].kind == StreamKind::Audio).len()
        }),
    decreases n,
{
    let sized = |i: int| s[i].kind == StreamKind::Video && s[i].width > 0 && s[i].height > 0;
    let rated = |i: int| s[i].kind == StreamKind::Audio && s[i].sample_rate > 0;
    let now = Set::new(|i: int| 0 <= i < n && s[i].kind == StreamKind::Audio);
    if n == 0 {
        assert(now =~= Set::<int>::empty());
    } else {
        a_file_holds_what_its_streams_hold(s, n - 1);
        let before = Set::new(|i: int| 0 <= i < n - 1 && s[i].kind == StreamKind::Audio);
        lemma_finite(s, n - 1);
        if s[n - 1].kind == StreamKind::Audio {
            assert(now =~= before.insert(n - 1));
        } else {
            assert(now =~= before);
        }
        assert(sized(n - 1) == (s[n - 1].kind == StreamKind::Video && s[n - 1].width > 0
            && s[n - 1].height > 0));
        assert(rated(n - 1) == (s[n - 1].kind == StreamKind::Audio && s[n - 1].sample_rate > 0));
    }
}

proof fn lemma_finite(s: Seq<StreamFacts>, n: int)
    ensures
        Set::new(|i: int| 0 <= i < n && s[i].kind == StreamKind::Audio).finite(),
    decreases n,
{
    let now = Set::new(|i: int| 0 <= i < n && s[i].kind == StreamKind::Audio);
    if n <= 0 {
        assert(now =~= Set::<int>::empty());
    } else {
        lemma_finite(s, n - 1);
        let before = Set::new(|i: int| 0 <= i < n - 1 && s[i].kind == StreamKind::Audio);
        if s[n - 1].kind == StreamKind::Audio {
            assert(now =~= before.insert(n - 1));
        } else {
            assert(now =~= before);
        }
    }
}

/// The codec that decides is that of the first stream, or else of the first
/// picture stream, and the size that decides is that of the first stream.
pub proof fn the_first_stream_decides(s: Seq<StreamFacts>)
    ensures
        s.len() > 0 && s[0].codec is Some ==> decoded_codec(s) == Some(s[0].codec->Some_0@),
        s.len() > 0 && s[0].codec is None && s[0].kind == StreamKind::Video ==> decoded_codec(s)
            is None,
        s.len() > 0 && s[0].width >= 0 && s[0].height >= 0 ==> decoded_pixels(s) == s[0].width
            * s[0].height,
        s.len() == 0 ==> decoded_codec(s) is None && decoded_pixels(s) == 0,
{
}

/// The first picture stream is the first.
pub proof fn the_first_picture_stream_is_the_first(s: Seq<StreamFacts>, i: int)
    requires
        0 <= i <= s.len(),
    ensures
        match first_video(s, i) {
            Some(k) => {
                &&& i <= k < s.len()
                &&& s[k].kind == StreamKind::Video
                &&& forall|j: int| i <= j < k ==> (#[trigger] s[j]).kind != StreamKind::Video
            },
            None => forall|j: int|
                i <= j < s.len() ==> (#[trigger] s[j]).kind != StreamKind::Video,
        },
    decreases s.len() - i,
{
    if i < s.len() && s[i].kind != StreamKind::Video {
        the_first_picture_stream_is_the_first(s, i + 1);
    }
}

} // verus!
