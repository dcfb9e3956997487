//! Exports: what is rendered, with which encoder, and how far it has got.
use vstd::prelude::*;
use vstd::string::*;

use crate::mlt::convert::at_least_zero;
use crate::mlt::convert::frames;
use crate::mlt::convert::mlt_int;
use crate::mlt::convert::nearest_int;
use crate::mlt::error::BackendError;
use crate::mlt::graph::Setting;
use crate::mlt::graph::SettingValueView;
use crate::mlt::graph::SettingView;
use crate::mlt::graph::lemma_no_value;
use crate::mlt::graph::lemma_value_at;
use crate::mlt::graph::number_setting;
use crate::mlt::graph::push_number_setting;
use crate::mlt::graph::push_text_setting;
use crate::mlt::graph::settings_view;
use crate::mlt::graph::text_setting;
use crate::mlt::graph::value_of;
use crate::mlt::hwaccel::Acceleration;
use crate::mlt::hwaccel::AccelerationView;
use crate::mlt::hwaccel::EncodeChoice;
use crate::mlt::hwaccel::EncodeChoiceView;
use crate::mlt::hwaccel::HardwareEncode;
use crate::mlt::hwaccel::encode_choice;
use crate::mlt::hwaccel::refusal_sentence;
use crate::mlt::projection::AudioLayout;
use crate::mlt::projection::Projection;
use crate::mlt::projection::TrackView;
use crate::mlt::projection::audio_positions;
use crate::mlt::projection::route_at;
use crate::mlt::projection::routed_tracks;
use crate::mlt::projection::shares_output;
use crate::mlt::projection::tracks_view;
use crate::mlt::transitions::pairs_view;
use crate::model::Fps;
use crate::model::Frame;
use crate::model::Resolution;
use crate::model::TrackKind;
use crate::text::chars_of;
use crate::text::decimal;
use crate::text::decimal_string;
use crate::text::join3;
use crate::text::push_decimal;

verus! {

/// How an export is encoded.
#[derive(Debug)]
pub struct RenderSettings {
    pub video_codec: String,
    pub audio_codec: String,
    pub resolution: Resolution,
    pub fps: Fps,
    pub hardware: HardwareEncode,
    /// Whether every audio track keeps a stream of its own.
    pub separate_audio_tracks: bool,
    /// Whether subtitles become part of the picture.
    pub burn_subtitles: bool,
    /// Further properties of the encoder.
    pub extra: Vec<(String, String)>,
}

/// The sentence of a range that runs backwards.
pub open spec fn backwards_sentence(start: u64, end: u64) -> Seq<char> {
    "the export range "@ + decimal(start as nat) + " to "@ + decimal(end as nat)
        + " runs backwards"@
}

/// The frames that are exported: those that were asked for, or all of them.
pub open spec fn asked_range(range: Option<(Frame, Frame)>, length: i32) -> (u64, u64) {
    match range {
        Some((s, e)) => (s.0, e.0),
        None => (0, at_least_zero(length) as u64),
    }
}

/// The frames that are exported, where the timeline has `length` of them.
pub fn export_range(range: Option<(Frame, Frame)>, length: i32) -> (r: Result<
    (Frame, Frame),
    BackendError,
>)
    ensures
        ({
            let (start, end) = asked_range(range, length);
            match r {
                Ok((s, e)) => start <= end && s.0 == start && e.0 == end,
                Err(BackendError::Render { reason }) => end < start && reason@
                    == backwards_sentence(start, end),
                Err(_) => false,
            }
        }),
{
    let (start, end) = match range {
        Some((s, e)) => (s, e),
        None => (Frame(0), Frame(frames(length))),
    };
    if end.0 < start.0 {
        let from = decimal_string(start.0);
        let mut reason = join3("the export range ", from.as_str(), " to ");
        push_decimal(&mut reason, end.0);
        reason.append(" runs backwards");
        return Err(BackendError::Render { reason });
    }
    Ok((start, end))
}

/// What a trial of an encoder on a device is remembered by.
pub fn trial_key(encoder: &str, device: &str) -> (s: String)
    ensures
        s@ == encoder@ + "@"@ + device@,
{
    join3(encoder, "@", device)
}

/// A text with one character in the place of another.
pub open spec fn replaced(s: Seq<char>, from: char, to: char) -> Seq<char> {
    Seq::new(
        s.len(),
        |i: int|
            if s[i] == from {
                to
            } else {
                s[i]
            },
    )
}

/// The name of the file that a trial writes.
pub fn trial_name(encoder: &str, device: &str) -> (s: String)
    ensures
        s@ == "davimci-probe-"@ + encoder@ + "-"@ + replaced(device@, '/', '_') + ".mkv"@,
{
    let chars = chars_of(device);
    let n: usize = chars.len();
    let mut flat = String::new();
    let mut i: usize = 0;
    while i < n
        invariant
            i <= n == chars@.len(),
            chars@ == device@,
            flat@ =~= replaced(device@, '/', '_').take(i as int),
        decreases n - i,
    {
        flat.push(
            if chars[i] == '/' {
                '_'
            } else {
                chars[i]
            },
        );
        i = i + 1;
    }
    assert(flat@ =~= replaced(device@, '/', '_'));
    let mut s = join3("davimci-probe-", encoder, "-");
    s.append(flat.as_str());
    s.append(".mkv");
    s
}

/// The encoder of an export, and its device; or why there is none.
pub open spec fn resolved(
    choice: EncodeChoiceView,
    software: Seq<char>,
    works: bool,
    required: bool,
) -> Result<(Seq<char>, Option<Seq<char>>), Seq<char>> {
    match choice {
        EncodeChoiceView::Software => Ok((software, None)),
        EncodeChoiceView::Hardware(encoder, device) => if works {
            Ok((encoder, Some(device)))
        } else if required {
            Err(refusal_sentence(encoder))
        } else {
            Ok((software, None))
        },
        EncodeChoiceView::Refused(reason) => Err(reason),
    }
}

/// Resolves the encoder of an export, where `works` says whether the trial of
/// a hardware encoder succeeded. Nothing is opened before this, so a refusal
/// leaves no file behind.
pub fn resolve_encoder(choice: EncodeChoice, software: &str, works: bool, required: bool) -> (r:
    Result<(String, Option<String>), BackendError>)
    ensures
        match (r, resolved(choice@, software@, works, required)) {
            (Ok((codec, device)), Ok((c, d))) => codec@ == c && match (device, d) {
                (Some(x), Some(y)) => x@ == y,
                (None, None) => true,
                _ => false,
            },
            (Err(BackendError::Render { reason }), Err(s)) => reason@ == s,
            _ => false,
        },
{
    match choice {
        EncodeChoice::Software => Ok((software.to_owned(), None)),
        EncodeChoice::Hardware { encoder, device } => {
            if works {
                Ok((encoder, Some(device)))
            } else if required {
                Err(BackendError::Render { reason: Acceleration::encoder_refusal(encoder.as_str()) })
            } else {
                Ok((software.to_owned(), None))
            }
        },
        EncodeChoice::Refused(reason) => Err(BackendError::Render { reason }),
    }
}

/// An export is refused only where hardware was required of it.
pub proof fn only_a_requirement_fails_an_export(
    a: AccelerationView,
    software: Seq<char>,
    request: HardwareEncode,
    works: bool,
)
    requires
        request != HardwareEncode::Required,
    ensures
        resolved(encode_choice(a, software, request), software, works, false) is Ok,
{
}

/// Whether a track is a text track.
pub open spec fn is_text(t: TrackView) -> bool {
    t.kind == TrackKind::Text
}

/// The tracks of an export: text tracks go unless subtitles are burnt in.
pub open spec fn exported_tracks(tracks: Seq<TrackView>, burn: bool) -> Seq<TrackView> {
    if burn {
        tracks
    } else {
        tracks.filter(|t: TrackView| t.kind != TrackKind::Text)
    }
}

/// Prepares the projection of an export. Returns how the audio tracks share
/// the channels, where they are kept apart, and whether the export needs a
/// graph of its own.
pub fn prepare(projection: &mut Projection, separate: bool, burn: bool) -> (r: (
    Option<AudioLayout>,
    bool,
))
    ensures
        final(projection).props == old(projection).props,
        ({
            let before = tracks_view(old(projection).tracks@);
            let kept = exported_tracks(before, burn);
            let audio = audio_positions(kept);
            let routed = separate && shares_output(audio);
            &&& (r.0 is Some) == routed
            &&& r.0 matches Some(l) ==> l.total_channels == 2 * audio.len() && l.routes@ == Seq::new(
                audio.len(),
                |n: int| route_at(audio, n),
            )
            &&& r.1 == (routed || (!burn && exists|i: int|
                0 <= i < old(projection).tracks@.len() && (
                #[trigger] old(projection).tracks@[i]).kind == TrackKind::Text))
            &&& tracks_view(final(projection).tracks@) == if routed {
                routed_tracks(kept, audio, (2 * audio.len()) as u16, audio.len())
            } else {
                kept
            }
        }),
{
    let dropped = if burn {
        false
    } else {
        projection.drop_text_tracks()
    };
    let layout = if separate {
        projection.route_audio()
    } else {
        None
    };
    let own = layout.is_some() || dropped;
    (layout, own)
}

/// The properties that keep audio streams apart.
pub open spec fn channel_settings(routes: Seq<crate::mlt::projection::AudioRoute>, total: u16) -> Seq<
    SettingView,
> {
    seq![number_setting("channels"@, total as i32)] + Seq::new(
        routes.len(),
        |n: int| number_setting("channels."@ + decimal(n as nat), routes[n].channels as i32),
    )
}

/// The properties of the encoder. Nothing is dropped to keep pace.
pub open spec fn encoder_settings(
    s: RenderSettings,
    layout: Option<AudioLayout>,
    codec: Seq<char>,
    device: Option<Seq<char>>,
) -> Seq<SettingView> {
    (match layout {
        Some(l) => channel_settings(l.routes@, l.total_channels),
        None => Seq::empty(),
    }) + seq![
        number_setting("real_time"@, 0),
        number_setting("terminate_on_pause"@, 1),
        text_setting("vcodec"@, codec, true),
    ] + (match device {
        Some(d) => seq![
            text_setting("vaapi_device"@, d, true),
            number_setting("mlt_hwupload"@, 1),
        ],
        None => Seq::empty(),
    }) + seq![
        text_setting("acodec"@, s.audio_codec@, true),
        number_setting("width"@, nearest_int(s.resolution.width as u64)),
        number_setting("height"@, nearest_int(s.resolution.height as u64)),
        number_setting("frame_rate_num"@, nearest_int(s.fps.num as u64)),
        number_setting("frame_rate_den"@, nearest_int(s.fps.den as u64)),
    ] + Seq::new(
        s.extra@.len(),
        |i: int| text_setting(pairs_view(s.extra@)[i].0, pairs_view(s.extra@)[i].1, true),
    )
}

pub fn consumer_settings(
    s: &RenderSettings,
    layout: &Option<AudioLayout>,
    codec: &str,
    device: Option<&str>,
) -> (v: Vec<Setting>)
    ensures
        settings_view(v@) == encoder_settings(
            *s,
            *layout,
            codec@,
            match device {
                Some(d) => Some(d@),
                None => None,
            },
        ),
{
    let mut v: Vec<Setting> = Vec::new();
    assert(settings_view(v@) =~= Seq::<SettingView>::empty());
    if let Some(l) = layout {
        push_number_setting(&mut v, "channels", l.total_channels as i32);
        let n: usize = l.routes.len();
        let mut i: usize = 0;
        while i < n
            invariant
                i <= n == l.routes@.len(),
                settings_view(v@) =~= channel_settings(l.routes@, l.total_channels).take(1 + i),
            decreases n - i,
        {
            let mut key = "channels.".to_owned();
            push_decimal(&mut key, i as u64);
            push_number_setting(&mut v, key.as_str(), l.routes[i].channels as i32);
            i = i + 1;
        }
        assert(settings_view(v@) =~= channel_settings(l.routes@, l.total_channels));
    }
    push_number_setting(&mut v, "real_time", 0);
    push_number_setting(&mut v, "terminate_on_pause", 1);
    push_text_setting(&mut v, "vcodec", codec, true);
    if let Some(d) = device {
        push_text_setting(&mut v, "vaapi_device", d, true);
        push_number_setting(&mut v, "mlt_hwupload", 1);
    }
    push_text_setting(&mut v, "acodec", s.audio_codec.as_str(), true);
    push_number_setting(&mut v, "width", mlt_int(s.resolution.width as u64));
    push_number_setting(&mut v, "height", mlt_int(s.resolution.height as u64));
    push_number_setting(&mut v, "frame_rate_num", mlt_int(s.fps.num as u64));
    push_number_setting(&mut v, "frame_rate_den", mlt_int(s.fps.den as u64));
    let ghost head = settings_view(v@);
    let ghost extra = pairs_view(s.extra@);
    let n: usize = s.extra.len();
    let mut i: usize = 0;
    while i < n
        invariant
            i <= n == s.extra@.len(),
            extra == pairs_view(s.extra@),
            settings_view(v@) =~= head + Seq::new(
                i as nat,
                |k: int| text_setting(extra[k].0, extra[k].1, true),
            ),
        decreases n - i,
    {
        assert(extra[i as int] == (s.extra@[i as int].0@, s.extra@[i as int].1@));
        push_text_setting(&mut v, s.extra[i].0.as_str(), s.extra[i].1.as_str(), true);
        i = i + 1;
    }
    assert(settings_view(v@) =~= encoder_settings(
        *s,
        *layout,
        codec@,
        match device {
            Some(d) => Some(d@),
            None => None,
        },
    ));
    v
}

/// Whether the further properties of an export leave a property alone.
pub open spec fn leaves(s: RenderSettings, key: Seq<char>) -> bool {
    forall|i: int| 0 <= i < s.extra@.len() ==> (#[trigger] s.extra@[i]).0@ != key
}

proof fn lemma_setting_names(n: nat)
    ensures
        "real_time"@.len() == 9 && "real_time"@[0] == 'r',
        "terminate_on_pause"@.len() == 18 && "terminate_on_pause"@[0] == 't',
        "vcodec"@.len() == 6 && "vcodec"@[0] == 'v',
        "vaapi_device"@.len() == 12 && "vaapi_device"@[0] == 'v',
        "mlt_hwupload"@.len() == 12 && "mlt_hwupload"@[0] == 'm',
        "acodec"@.len() == 6 && "acodec"@[0] == 'a',
        "width"@.len() == 5 && "width"@[0] == 'w',
        "height"@.len() == 6 && "height"@[0] == 'h',
        "frame_rate_num"@.len() == 14 && "frame_rate_num"@[0] == 'f' && "frame_rate_num"@[11]
            == 'n',
        "frame_rate_den"@.len() == 14 && "frame_rate_den"@[0] == 'f' && "frame_rate_den"@[11]
            == 'd',
        "channels"@.len() == 8 && "channels"@[0] == 'c',
        ("channels."@ + decimal(n)).len() > 8 && ("channels."@ + decimal(n))[0] == 'c',
{
    reveal_strlit("real_time");
    reveal_strlit("terminate_on_pause");
    reveal_strlit("vcodec");
    reveal_strlit("vaapi_device");
    reveal_strlit("mlt_hwupload");
    reveal_strlit("acodec");
    reveal_strlit("width");
    reveal_strlit("height");
    reveal_strlit("frame_rate_num");
    reveal_strlit("frame_rate_den");
    reveal_strlit("channels");
    reveal_strlit("channels.");
}

/// Where the properties stand.
#[verifier::rlimit(40)]
proof fn lemma_told(s: RenderSettings, told: Seq<SettingView>, b: int, h: int)
    requires
        0 <= b,
        h == 0 || h == 2,
        told.len() == b + h + 8 + s.extra@.len(),
        b > 0 ==> told[0].key == "channels"@,
        forall|j: int|
            1 <= j < b ==> (#[trigger] told[j]).key.len() > 8 && told[j].key[0] == 'c',
        told[b].key == "real_time"@,
        told[b + 1].key == "terminate_on_pause"@,
        told[b + 2].key == "vcodec"@,
        h == 2 ==> told[b + 3].key == "vaapi_device"@ && told[b + 4].key == "mlt_hwupload"@,
        told[b + h + 3].key == "acodec"@,
        told[b + h + 4].key == "width"@,
        told[b + h + 5].key == "height"@,
        told[b + h + 6].key == "frame_rate_num"@,
        told[b + h + 7].key == "frame_rate_den"@,
        forall|j: int|
            b + h + 8 <= j < told.len() ==> (#[trigger] told[j]).key == s.extra@[j - (b + h
                + 8)].0@,
    ensures
        leaves(s, "width"@) ==> value_of(told, "width"@) == Some(told[b + h + 4].value),
        leaves(s, "height"@) ==> value_of(told, "height"@) == Some(told[b + h + 5].value),
        leaves(s, "frame_rate_num"@) ==> value_of(told, "frame_rate_num"@) == Some(told[b + h + 6].value),
        leaves(s, "frame_rate_den"@) ==> value_of(told, "frame_rate_den"@) == Some(told[b + h + 7].value),
        leaves(s, "vcodec"@) ==> value_of(told, "vcodec"@) == Some(told[b + 2].value),
        leaves(s, "acodec"@) ==> value_of(told, "acodec"@) == Some(told[b + h + 3].value),
        leaves(s, "real_time"@) ==> value_of(told, "real_time"@) == Some(told[b].value),
        leaves(s, "terminate_on_pause"@) ==> value_of(told, "terminate_on_pause"@) == Some(told[b + 1].value),
        leaves(s, "vaapi_device"@) ==> value_of(told, "vaapi_device"@) == if h == 2 {
            Some(told[b + 3].value)
        } else {
            None
        },
        leaves(s, "mlt_hwupload"@) ==> value_of(told, "mlt_hwupload"@) == if h == 2 {
            Some(told[b + 4].value)
        } else {
            None
        },
        leaves(s, "channels"@) ==> value_of(told, "channels"@) == if b > 0 {
            Some(told[0].value)
        } else {
            None
        },
{
    lemma_setting_names(0);
    if leaves(s, "width"@) {
        lemma_value_at(told, "width"@, b + h + 4);
    }
    if leaves(s, "height"@) {
        lemma_value_at(told, "height"@, b + h + 5);
    }
    if leaves(s, "frame_rate_num"@) {
        lemma_value_at(told, "frame_rate_num"@, b + h + 6);
    }
    if leaves(s, "frame_rate_den"@) {
        lemma_value_at(told, "frame_rate_den"@, b + h + 7);
    }
    if leaves(s, "vcodec"@) {
        lemma_value_at(told, "vcodec"@, b + 2);
    }
    if leaves(s, "acodec"@) {
        lemma_value_at(told, "acodec"@, b + h + 3);
    }
    if leaves(s, "real_time"@) {
        lemma_value_at(told, "real_time"@, b);
    }
    if leaves(s, "terminate_on_pause"@) {
        lemma_value_at(told, "terminate_on_pause"@, b + 1);
    }
    if leaves(s, "vaapi_device"@) {
        if h == 2 {
            lemma_value_at(told, "vaapi_device"@, b + 3);
        } else {
            lemma_no_value(told, "vaapi_device"@);
        }
    }
    if leaves(s, "mlt_hwupload"@) {
        if h == 2 {
            lemma_value_at(told, "mlt_hwupload"@, b + 4);
        } else {
            lemma_no_value(told, "mlt_hwupload"@);
        }
    }
    if leaves(s, "channels"@) {
        if b > 0 {
            lemma_value_at(told, "channels"@, 0);
        } else {
            lemma_no_value(told, "channels"@);
        }
    }
}

/// An encoder is told the size, the rate and the codecs that were asked for,
/// each under its own name, to play every frame and to stop at the end; the
/// hardware that was found, where there is any; and how many channels there
/// are, where audio tracks are kept apart. What is asked for beyond that goes
/// last, so it wins.
#[verifier::rlimit(40)]
pub proof fn an_encoder_is_told_what_was_asked(
    s: RenderSettings,
    layout: Option<AudioLayout>,
    codec: &str,
    device: Option<&str>,
    v: Vec<Setting>,
)
    requires
        call_ensures(consumer_settings, (&s, &layout, codec, device), v),
    ensures
        ({
            let told = settings_view(v@);
            let whole = |n: u32|
                Some(
                    SettingValueView::Number(
                        if n <= 0x7fff_ffff {
                            n as i32
                        } else {
                            0x7fff_ffff
                        },
                    ),
                );
            &&& leaves(s, "width"@) ==> value_of(told, "width"@) == whole(s.resolution.width)
            &&& leaves(s, "height"@) ==> value_of(told, "height"@) == whole(s.resolution.height)
            &&& leaves(s, "frame_rate_num"@) ==> value_of(told, "frame_rate_num"@) == whole(
                s.fps.num,
            )
            &&& leaves(s, "frame_rate_den"@) ==> value_of(told, "frame_rate_den"@) == whole(
                s.fps.den,
            )
            &&& leaves(s, "vcodec"@) ==> value_of(told, "vcodec"@) == Some(
                SettingValueView::Text(codec@),
            )
            &&& leaves(s, "acodec"@) ==> value_of(told, "acodec"@) == Some(
                SettingValueView::Text(s.audio_codec@),
            )
            &&& leaves(s, "real_time"@) ==> value_of(told, "real_time"@) == Some(
                SettingValueView::Number(0),
            )
            &&& leaves(s, "terminate_on_pause"@) ==> value_of(told, "terminate_on_pause"@) == Some(
                SettingValueView::Number(1),
            )
            &&& leaves(s, "vaapi_device"@) ==> value_of(told, "vaapi_device"@) == match device {
                Some(d) => Some(SettingValueView::Text(d@)),
                None => None,
            }
            &&& leaves(s, "mlt_hwupload"@) ==> value_of(told, "mlt_hwupload"@) == match device {
                Some(d) => Some(SettingValueView::Number(1)),
                None => None,
            }
            &&& leaves(s, "channels"@) ==> value_of(told, "channels"@) == match layout {
                Some(l) => Some(SettingValueView::Number(l.total_channels as i32)),
                None => None,
            }
        }),
{
    let told = settings_view(v@);
    let d = match device {
        Some(d) => Some(d@),
        None => None,
    };
    assert(told == encoder_settings(s, layout, codec@, d));
    let front = match layout {
        Some(l) => channel_settings(l.routes@, l.total_channels),
        None => Seq::empty(),
    };
    let b = front.len() as int;
    let h = if device is Some {
        2int
    } else {
        0
    };
    lemma_setting_names(0);
    assert forall|j: int| 1 <= j < b implies (#[trigger] told[j]).key.len() > 8 && told[j].key[0]
        == 'c' by {
        lemma_setting_names((j - 1) as nat);
        assert(told[j] == front[j]);
    }
    assert forall|j: int| b + h + 8 <= j < told.len() implies (#[trigger] told[j]).key
        == s.extra@[j - (b + h + 8)].0@ by {
        let i = j - (b + h + 8);
        assert(pairs_view(s.extra@)[i] == (s.extra@[i].0@, s.extra@[i].1@));
    }
    if layout is Some {
        assert(told[0].key == "channels"@);
    }
    assert(told[b].key == "real_time"@);
    assert(told[b + 1].key == "terminate_on_pause"@);
    assert(told[b + 2].key == "vcodec"@);
    if device is Some {
        assert(told[b + 3].key == "vaapi_device"@);
        assert(told[b + 4].key == "mlt_hwupload"@);
    }
    assert(told[b + h + 3].key == "acodec"@);
    assert(told[b + h + 4].key == "width"@);
    assert(told[b + h + 5].key == "height"@);
    assert(told[b + h + 6].key == "frame_rate_num"@);
    assert(told[b + h + 7].key == "frame_rate_den"@);
    lemma_told(s, told, b, h);
}

/// What is asked for beyond the rest is told as it stands: the last property
/// of a name wins, and every property must be taken.
pub proof fn further_properties_win(
    s: RenderSettings,
    layout: Option<AudioLayout>,
    codec: &str,
    device: Option<&str>,
    v: Vec<Setting>,
    i: int,
)
    requires
        call_ensures(consumer_settings, (&s, &layout, codec, device), v),
        0 <= i < s.extra@.len(),
        forall|j: int| i < j < s.extra@.len() ==> (#[trigger] s.extra@[j]).0@ != s.extra@[i].0@,
    ensures
        value_of(settings_view(v@), s.extra@[i].0@) == Some(
            SettingValueView::Text(s.extra@[i].1@),
        ),
        forall|k: int| 0 <= k < v@.len() ==> (#[trigger] v@[k]).required,
{
    let told = settings_view(v@);
    let extra = pairs_view(s.extra@);
    let first = told.len() - s.extra@.len();
    assert forall|j: int| first <= j < told.len() implies (#[trigger] told[j]) == text_setting(
        s.extra@[j - first].0@,
        s.extra@[j - first].1@,
        true,
    ) by {
        assert(extra[j - first] == (s.extra@[j - first].0@, s.extra@[j - first].1@));
    }
    assert forall|j: int| first + i < j < told.len() implies (#[trigger] told[j]).key
        != s.extra@[i].0@ by {
        assert(s.extra@[j - first].0@ != s.extra@[i].0@);
    }
    lemma_value_at(told, s.extra@[i].0@, first + i);
    assert forall|k: int| 0 <= k < v@.len() implies (#[trigger] v@[k]).required by {
        assert(told[k].required);
    }
}

/// An encoder is told how many channels each stream has.
pub proof fn every_stream_is_told_its_channels(
    s: RenderSettings,
    l: AudioLayout,
    codec: &str,
    device: Option<&str>,
    v: Vec<Setting>,
    n: int,
)
    requires
        call_ensures(consumer_settings, (&s, &Some(l), codec, device), v),
        0 <= n < l.routes@.len(),
    ensures
        settings_view(v@).contains(
            SettingView {
                key: "channels."@ + decimal(n as nat),
                value: SettingValueView::Number(l.routes@[n].channels as i32),
                required: true,
            },
        ),
{
    let told = settings_view(v@);
    assert(told[n + 1] == channel_settings(l.routes@, l.total_channels)[n + 1]);
}

/// Begins an export: there is none yet, and its range runs forwards.
pub fn begin_render(rendering: bool, range: Option<(Frame, Frame)>, length: i32) -> (r: Result<
    (Frame, Frame),
    BackendError,
>)
    ensures
        ({
            let (start, end) = asked_range(range, length);
            match r {
                Ok((s, e)) => !rendering && start <= end && s.0 == start && e.0 == end,
                Err(BackendError::Render { reason }) => if rendering {
                    reason@ == "a render is already in progress"@
                } else {
                    end < start && reason@ == backwards_sentence(start, end)
                },
                Err(_) => false,
            }
        }),
{
    if rendering {
        return Err(BackendError::Render { reason: "a render is already in progress".to_owned() });
    }
    export_range(range, length)
}

/// An export that is ready to start.
#[derive(Debug)]
pub struct RenderPlan {
    /// The first and the last frame, as the framework counts them.
    pub first: i32,
    pub last: i32,
    /// How many frames there are.
    pub total: u64,
    /// How the audio tracks share the channels, where they are kept apart.
    pub layout: Option<AudioLayout>,
    /// What the encoder is told.
    pub settings: Vec<Setting>,
    /// What the export is rendered from, where it is not what is shown.
    pub graph: Option<Projection>,
}

/// Whether the audio tracks of an export are kept apart.
pub open spec fn kept_apart(tracks: Seq<TrackView>, separate: bool, burn: bool) -> bool {
    separate && shares_output(audio_positions(exported_tracks(tracks, burn)))
}

/// Whether an export is rendered from a graph of its own.
pub open spec fn own_graph(tracks: Seq<TrackView>, separate: bool, burn: bool) -> bool {
    kept_apart(tracks, separate, burn) || (!burn && exists|i: int|
        0 <= i < tracks.len() && is_text(#[trigger] tracks[i]))
}

/// The tracks of an export, routed where they are kept apart.
pub open spec fn rendered_tracks(tracks: Seq<TrackView>, separate: bool, burn: bool) -> Seq<
    TrackView,
> {
    let kept = exported_tracks(tracks, burn);
    let audio = audio_positions(kept);
    if kept_apart(tracks, separate, burn) {
        routed_tracks(kept, audio, (2 * audio.len()) as u16, audio.len())
    } else {
        kept
    }
}

/// Plans an export of the frames from `start` up to `end`, where `projection`
/// is what is shown, and `works` says whether the trial of a hardware encoder
/// succeeded.
pub fn plan_render(
    start: Frame,
    end: Frame,
    s: &RenderSettings,
    choice: EncodeChoice,
    works: bool,
    projection: Option<Projection>,
) -> (r: Result<RenderPlan, BackendError>)
    ensures
        match (r, resolved(
            choice@,
            s.video_codec@,
            works,
            s.hardware == HardwareEncode::Required,
        )) {
            (Ok(p), Ok((codec, device))) => {
                &&& p.first == nearest_int(start.0)
                &&& p.last == nearest_int(
                    if end.0 == 0 {
                        0
                    } else {
                        (end.0 - 1) as u64
                    },
                )
                &&& p.total == if end.0 <= start.0 {
                    0
                } else {
                    end.0 - start.0
                }
                &&& settings_view(p.settings@) == encoder_settings(*s, p.layout, codec, device)
                &&& match projection {
                    None => p.layout is None && p.graph is None,
                    Some(shown) => {
                        let tracks = tracks_view(shown.tracks@);
                        let audio = audio_positions(exported_tracks(tracks, s.burn_subtitles));
                        &&& (p.layout is Some) == kept_apart(
                            tracks,
                            s.separate_audio_tracks,
                            s.burn_subtitles,
                        )
                        &&& p.layout matches Some(l) ==> l.total_channels == 2 * audio.len()
                            && l.routes@ == Seq::new(audio.len(), |n: int| route_at(audio, n))
                        &&& (p.graph is Some) == own_graph(
                            tracks,
                            s.separate_audio_tracks,
                            s.burn_subtitles,
                        )
                        &&& p.graph matches Some(g) ==> g.props == shown.props && tracks_view(
                            g.tracks@,
                        ) == rendered_tracks(tracks, s.separate_audio_tracks, s.burn_subtitles)
                    },
                }
            },
            (Err(BackendError::Render { reason }), Err(sentence)) => reason@ == sentence,
            _ => false,
        },
{
    let required = s.hardware == HardwareEncode::Required;
    let (codec, device) = match resolve_encoder(choice, s.video_codec.as_str(), works, required) {
        Ok(found) => found,
        Err(e) => {
            return Err(e);
        },
    };
    let mut layout: Option<AudioLayout> = None;
    let mut graph: Option<Projection> = None;
    if let Some(shown) = projection {
        let ghost tracks = tracks_view(shown.tracks@);
        assert forall|i: int| 0 <= i < tracks.len() implies is_text(#[trigger] tracks[i]) == (
        shown.tracks@[i].kind == TrackKind::Text) by {}
        let mut own = shown;
        let (routes, needed) = prepare(&mut own, s.separate_audio_tracks, s.burn_subtitles);
        proof {
            if exists|i: int|
                0 <= i < shown.tracks@.len() && (#[trigger] shown.tracks@[i]).kind
                    == TrackKind::Text {
                let i = choose|i: int|
                    0 <= i < shown.tracks@.len() && (#[trigger] shown.tracks@[i]).kind
                        == TrackKind::Text;
                assert(is_text(tracks[i]));
            }
            if exists|i: int| 0 <= i < tracks.len() && is_text(#[trigger] tracks[i]) {
                let i = choose|i: int| 0 <= i < tracks.len() && is_text(#[trigger] tracks[i]);
                assert(shown.tracks@[i].kind == TrackKind::Text);
            }
        }
        layout = routes;
        if needed {
            graph = Some(own);
        }
    }
    let settings = match &device {
        Some(d) => consumer_settings(s, &layout, codec.as_str(), Some(d.as_str())),
        None => consumer_settings(s, &layout, codec.as_str(), None),
    };
    Ok(
        RenderPlan {
            first: mlt_int(start.0),
            last: mlt_int(end.0.saturating_sub(1)),
            total: end.0.saturating_sub(start.0),
            layout,
            settings,
            graph,
        },
    )
}

/// What an encoder is told on its trial.
pub open spec fn trial_settings_of(encoder: Seq<char>, device: Seq<char>) -> Seq<SettingView> {
    seq![
        number_setting("real_time"@, 0),
        number_setting("terminate_on_pause"@, 1),
        text_setting("vcodec"@, encoder, true),
        text_setting("vaapi_device"@, device, true),
        number_setting("mlt_hwupload"@, 1),
        text_setting("an"@, "1"@, true),
    ]
}

pub fn trial_settings(encoder: &str, device: &str) -> (v: Vec<Setting>)
    ensures
        settings_view(v@) == trial_settings_of(encoder@, device@),
{
    let mut v: Vec<Setting> = Vec::new();
    assert(settings_view(v@) =~= Seq::<SettingView>::empty());
    push_number_setting(&mut v, "real_time", 0);
    push_number_setting(&mut v, "terminate_on_pause", 1);
    push_text_setting(&mut v, "vcodec", encoder, true);
    push_text_setting(&mut v, "vaapi_device", device, true);
    push_number_setting(&mut v, "mlt_hwupload", 1);
    push_text_setting(&mut v, "an", "1", true);
    assert(settings_view(v@) =~= trial_settings_of(encoder@, device@));
    v
}

/// How an export is doing.
#[derive(Clone, Copy, Debug, PartialEq, Eq, Structural)]
pub enum RenderState {
    Idle,
    Running,
    Done,
    Cancelled,
}

/// How far an export has got.
#[derive(Clone, Copy, Debug, PartialEq, Eq, Structural)]
pub struct RenderProgress {
    pub state: RenderState,
    pub rendered: u64,
    pub total: u64,
}

impl RenderProgress {
    /// No export was started.
    pub fn idle() -> (p: Self)
        ensures
            p == (RenderProgress { state: RenderState::Idle, rendered: 0, total: 0 }),
    {
        RenderProgress { state: RenderState::Idle, rendered: 0, total: 0 }
    }

    /// An export that was given up.
    pub fn given_up(total: u64) -> (p: Self)
        ensures
            p == (RenderProgress { state: RenderState::Cancelled, rendered: 0, total }),
    {
        RenderProgress { state: RenderState::Cancelled, rendered: 0, total }
    }
}

/// How far an export has got, from the position that its encoder reports: it
/// never counts past its end.
pub fn progress(position: i32, total: u64, cancelled: bool, stopped: bool) -> (p: RenderProgress)
    ensures
        p.total == total,
        p.rendered == if at_least_zero(position) < total {
            at_least_zero(position)
        } else {
            total as int
        },
        p.state == if cancelled {
            RenderState::Cancelled
        } else if stopped {
            RenderState::Done
        } else {
            RenderState::Running
        },
{
    let at = frames(position);
    RenderProgress {
        state: if cancelled {
            RenderState::Cancelled
        } else if stopped {
            RenderState::Done
        } else {
            RenderState::Running
        },
        rendered: if at < total {
            at
        } else {
            total
        },
        total,
    }
}

/// Text tracks are exported only where subtitles are burnt in; all other tracks
/// always are.
pub proof fn subtitles_are_burnt_only_where_asked(tracks: Seq<TrackView>, burn: bool, t: TrackView)
    ensures
        exported_tracks(tracks, burn).contains(t) <==> tracks.contains(t) && (burn || t.kind
            != TrackKind::Text),
        burn ==> exported_tracks(tracks, burn) == tracks,
{
    let keep = |t: TrackView| t.kind != TrackKind::Text;
    broadcast use vstd::seq_lib::group_filter_ensures;
    if !burn {
        let kept = tracks.filter(keep);
        if kept.contains(t) {
            let i = choose|i: int| 0 <= i < kept.len() && kept[i] == t;
            assert(keep(kept[i]));
            lemma_kept(tracks, keep, t);
        }
        if tracks.contains(t) && t.kind != TrackKind::Text {
            let i = choose|i: int| 0 <= i < tracks.len() && tracks[i] == t;
            assert(keep(tracks[i]));
        }
    }
}

proof fn lemma_kept(tracks: Seq<TrackView>, keep: spec_fn(TrackView) -> bool, t: TrackView)
    requires
        tracks.filter(keep).contains(t),
    ensures
        tracks.contains(t),
    decreases tracks.len(),
{
    reveal(Seq::filter);
    if tracks.len() > 0 {
        let front = tracks.drop_last();
        let kept = front.filter(keep);
        let i = choose|i: int| 0 <= i < tracks.filter(keep).len() && tracks.filter(keep)[i] == t;
        if keep(tracks.last()) && i == kept.len() {
            assert(tracks[tracks.len() - 1] == t);
        } else {
            assert(kept[i] == t);
            lemma_kept(front, keep, t);
            let j = choose|j: int| 0 <= j < front.len() && front[j] == t;
            assert(tracks[j] == t);
        }
    }
}

/// A trial uses the encoder and the device that are tried, without sound, and
/// drops nothing.
pub proof fn a_trial_tries_what_was_named(encoder: Seq<char>, device: Seq<char>)
    ensures
        value_of(trial_settings_of(encoder, device), "vcodec"@) == Some(
            SettingValueView::Text(encoder),
        ),
        value_of(trial_settings_of(encoder, device), "vaapi_device"@) == Some(
            SettingValueView::Text(device),
        ),
        value_of(trial_settings_of(encoder, device), "mlt_hwupload"@) == Some(
            SettingValueView::Number(1),
        ),
        value_of(trial_settings_of(encoder, device), "real_time"@) == Some(
            SettingValueView::Number(0),
        ),
        value_of(trial_settings_of(encoder, device), "an"@) == Some(SettingValueView::Text("1"@)),
{
    let v = trial_settings_of(encoder, device);
    reveal_strlit("real_time");
    reveal_strlit("terminate_on_pause");
    reveal_strlit("vcodec");
    reveal_strlit("vaapi_device");
    reveal_strlit("mlt_hwupload");
    reveal_strlit("an");
    assert("real_time"@.len() == 9);
    assert("terminate_on_pause"@.len() == 18);
    assert("vcodec"@.len() == 6);
    assert("vaapi_device"@.len() == 12 && "vaapi_device"@[0] == 'v');
    assert("mlt_hwupload"@.len() == 12 && "mlt_hwupload"@[0] == 'm');
    assert("an"@.len() == 2);
    lemma_value_at(v, "vcodec"@, 2);
    lemma_value_at(v, "vaapi_device"@, 3);
    lemma_value_at(v, "mlt_hwupload"@, 4);
    lemma_value_at(v, "real_time"@, 0);
    lemma_value_at(v, "an"@, 5);
}

/// An export covers the frames that were asked for, and everything where none
/// were.
pub proof fn an_export_covers_what_was_asked(first: Frame, end: Frame, length: i32)
    ensures
        asked_range(Some((first, end)), length).0 == first.0,
        asked_range(Some((first, end)), length).1 == end.0,
        asked_range(None, length).0 == 0,
        length >= 0 ==> asked_range(None, length).1 == length,
        length < 0 ==> asked_range(None, length).1 == 0,
{
}

/// An export without a graph of its own renders exactly the tracks that are
/// shown; audio tracks are kept apart only where that is asked for and there
/// are two or more of them, and no more than an output has pairs for.
pub proof fn an_export_shares_the_graph_only_of_its_own_tracks(
    tracks: Seq<TrackView>,
    separate: bool,
    burn: bool,
)
    ensures
        !own_graph(tracks, separate, burn) ==> rendered_tracks(tracks, separate, burn) == tracks,
        kept_apart(tracks, separate, burn) ==> separate && 2 <= audio_positions(
            exported_tracks(tracks, burn),
        ).len() <= 8,
        separate && 2 <= audio_positions(exported_tracks(tracks, burn)).len() <= 8 ==> kept_apart(
            tracks,
            separate,
            burn,
        ) && own_graph(tracks, separate, burn),
        !separate && burn ==> !own_graph(tracks, separate, burn),
{
    if !own_graph(tracks, separate, burn) && !burn {
        let keep = |t: TrackView| t.kind != TrackKind::Text;
        assert forall|i: int| 0 <= i < tracks.len() implies keep(#[trigger] tracks[i]) by {
            assert(!is_text(tracks[i]));
        }
        lemma_all_kept(tracks, keep);
    }
}

proof fn lemma_all_kept(tracks: Seq<TrackView>, keep: spec_fn(TrackView) -> bool)
    requires
        forall|i: int| 0 <= i < tracks.len() ==> keep(#[trigger] tracks[i]),
    ensures
        tracks.filter(keep) == tracks,
    decreases tracks.len(),
{
    reveal(Seq::filter);
    if tracks.len() > 0 {
        let front = tracks.drop_last();
        assert forall|i: int| 0 <= i < front.len() implies keep(#[trigger] front[i]) by {
            assert(keep(tracks[i]));
        }
        lemma_all_kept(front, keep);
        assert(keep(tracks[tracks.len() - 1]));
        assert(front.push(tracks.last()) =~= tracks);
    } else {
        assert(tracks.filter(keep) =~= tracks);
    }
}

} // verus!
