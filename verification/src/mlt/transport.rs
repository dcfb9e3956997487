//! Starting, stopping and steering the preview, and keeping the graph up to
//! date.
use vstd::prelude::*;
use vstd::string::*;

use crate::mlt::convert::at_least_zero;
use crate::mlt::convert::frames;
use crate::mlt::error::BackendError;
use crate::mlt::graph::Setting;
use crate::mlt::graph::SettingValueView;
use crate::mlt::graph::SettingView;
use crate::mlt::graph::lemma_no_value;
use crate::mlt::graph::lemma_value_at;
use crate::mlt::graph::number_setting;
use crate::mlt::graph::optional_number;
use crate::mlt::graph::push_number_setting;
use crate::mlt::graph::push_optional_number;
use crate::mlt::graph::push_text_setting;
use crate::mlt::graph::settings_view;
use crate::mlt::graph::text_setting;
use crate::mlt::graph::value_of;
use crate::mlt::patch::Patch;
use crate::mlt::patch::diff;
use crate::mlt::patch::mute_differs;
use crate::mlt::patch::patches_view;
use crate::mlt::patch::track_scripts;
use crate::mlt::projection::Projection;
use crate::model::Frame;
use crate::text::chars_of;
use crate::text::join3;
use crate::text::texts_view;
use crate::text::trim_chars;
use crate::text::trimmed;

verus! {

/// Where the sound is, from the position that its consumer reports.
pub fn clock_position(position: i32) -> (f: Option<Frame>)
    ensures
        f == if position >= 0 {
            Some(Frame(at_least_zero(position) as u64))
        } else {
            None
        },
{
    if position >= 0 {
        Some(Frame(frames(position)))
    } else {
        None
    }
}

/// Where the preview has got to: where the sound is, once it has started, and
/// where the graph stands before that.
pub fn preview_position(clock: Option<Frame>, graph: Option<i32>) -> (f: Frame)
    ensures
        f.0 == match clock {
            Some(c) => if c.0 != 0 {
                c.0 as int
            } else {
                match graph {
                    Some(p) => at_least_zero(p),
                    None => 0,
                }
            },
            None => match graph {
                Some(p) => at_least_zero(p),
                None => 0,
            },
        },
{
    let stands: u64 = match graph {
        Some(p) => frames(p),
        None => 0,
    };
    match clock {
        Some(c) => if c.0 != 0 {
            c
        } else {
            Frame(stands)
        },
        None => Frame(stands),
    }
}

/// Refuses what needs a graph where there is none.
pub fn check_graph(present: bool) -> (r: Result<(), BackendError>)
    ensures
        match r {
            Ok(_) => present,
            Err(BackendError::Projection { reason }) => !present && reason@
                == "no timeline has been given to the render backend yet"@,
            Err(_) => false,
        },
{
    if present {
        Ok(())
    } else {
        Err(
            BackendError::Projection {
                reason: "no timeline has been given to the render backend yet".to_owned(),
            },
        )
    }
}

/// Refuses a second preview.
pub fn check_start(previewing: bool) -> (r: Result<(), BackendError>)
    ensures
        match r {
            Ok(_) => !previewing,
            Err(e) => previewing && e == BackendError::PreviewAlreadyRunning,
        },
{
    if previewing {
        Err(BackendError::PreviewAlreadyRunning)
    } else {
        Ok(())
    }
}

/// Refuses what needs a preview where there is none.
pub fn check_preview(previewing: bool) -> (r: Result<(), BackendError>)
    ensures
        match r {
            Ok(_) => previewing,
            Err(e) => !previewing && e == BackendError::PreviewNotRunning,
        },
{
    if previewing {
        Ok(())
    } else {
        Err(BackendError::PreviewNotRunning)
    }
}

/// Refuses a file that is not there.
pub fn check_source(path: &str, exists: bool) -> (r: Result<(), BackendError>)
    ensures
        match r {
            Ok(_) => exists,
            Err(BackendError::Offline { path: missing }) => !exists && missing@ == path@,
            Err(_) => false,
        },
{
    if exists {
        Ok(())
    } else {
        Err(BackendError::Offline { path: path.to_owned() })
    }
}

/// Why a change of speed is refused.
pub fn rate_refusal() -> (e: BackendError)
    ensures
        e matches BackendError::Unavailable { reason } && reason@
            == "a playback rate must be a finite number"@,
{
    BackendError::Unavailable { reason: "a playback rate must be a finite number".to_owned() }
}

/// What a change of speed takes.
#[derive(Clone, Copy, Debug, PartialEq, Eq, Structural)]
pub enum RateChange {
    /// The speed is not a number.
    Refuse,
    /// The preview plays the other way, so it is opened again.
    Reopen,
    /// The graph plays at another speed.
    Adjust,
}

/// What a change of speed takes: `playing` is the direction of the preview,
/// backwards or not, where there is one.
pub fn plan_rate(finite: bool, backwards: bool, playing: Option<bool>) -> (c: RateChange)
    ensures
        c == if !finite {
            RateChange::Refuse
        } else if playing matches Some(b) && b != backwards {
            RateChange::Reopen
        } else {
            RateChange::Adjust
        },
{
    if !finite {
        return RateChange::Refuse;
    }
    match playing {
        Some(b) => if b != backwards {
            RateChange::Reopen
        } else {
            RateChange::Adjust
        },
        None => RateChange::Adjust,
    }
}

/// The services that play sound, the preferred one first.
pub open spec fn sound_service_names() -> Seq<Seq<char>> {
    seq!["sdl2_audio"@, "rtaudio"@, "null"@]
}

pub fn sound_services() -> (v: Vec<String>)
    ensures
        texts_view(v@) == sound_service_names(),
{
    let mut v: Vec<String> = Vec::new();
    v.push("sdl2_audio".to_owned());
    v.push("rtaudio".to_owned());
    v.push("null".to_owned());
    assert(texts_view(v@) =~= sound_service_names());
    v
}

/// The properties of the sound: it keeps the clock, it is heard at every
/// speed, and backwards it leaves the picture to others.
pub open spec fn sound_settings(backwards: bool) -> Seq<SettingView> {
    let head = seq![
        number_setting("real_time"@, 1),
        text_setting("terminate_on_pause"@, "0"@, false),
        optional_number("scrub_audio"@, 1),
    ];
    if backwards {
        head.push(optional_number("video_off"@, 1))
    } else {
        head
    }
}

pub fn preview_settings(backwards: bool) -> (v: Vec<Setting>)
    ensures
        settings_view(v@) == sound_settings(backwards),
{
    let mut v: Vec<Setting> = Vec::new();
    assert(settings_view(v@) =~= Seq::<SettingView>::empty());
    push_number_setting(&mut v, "real_time", 1);
    push_text_setting(&mut v, "terminate_on_pause", "0", false);
    push_optional_number(&mut v, "scrub_audio", 1);
    if backwards {
        push_optional_number(&mut v, "video_off", 1);
    }
    assert(settings_view(v@) =~= sound_settings(backwards));
    v
}

/// What it takes to show a timeline, given what is shown: `previous` is the
/// projection that the graph was built from, where there is a graph.
pub fn plan_update(previous: Option<&Projection>, next: &Projection) -> (p: Patch)
    ensures
        match previous {
            None => p matches Patch::Rebuild,
            Some(prev) => match p {
                Patch::Rebuild => !prev.shape_matches(*next) || mute_differs(*prev, *next),
                Patch::Nothing => prev.shape_matches(*next) && !mute_differs(*prev, *next)
                    && track_scripts(*prev, *next, prev.tracks@.len()).len() == 0,
                Patch::Tracks(patches) => prev.shape_matches(*next) && !mute_differs(*prev, *next)
                    && patches@.len() > 0 && patches_view(patches@) == track_scripts(
                    *prev,
                    *next,
                    prev.tracks@.len(),
                ),
            },
        },
{
    match previous {
        Some(prev) => diff(prev, next),
        None => Patch::Rebuild,
    }
}

/// Whether a transition type may be registered: it must name a service.
pub fn check_transition(name: &str, service: &str) -> (r: Result<(), BackendError>)
    ensures
        match r {
            Ok(_) => trimmed(service@).len() > 0,
            Err(BackendError::Unavailable { reason }) => trimmed(service@).len() == 0 && reason@
                == "the transition type '"@ + name@ + "' names no service"@,
            Err(_) => false,
        },
{
    let chars = chars_of(service);
    let kept = trim_chars(chars.as_slice());
    if kept.len() == 0 {
        return Err(
            BackendError::Unavailable {
                reason: join3("the transition type '", name, "' names no service"),
            },
        );
    }
    Ok(())
}

/// The sound of a preview keeps the clock and is heard at every speed; it
/// leaves the picture to others exactly where it plays backwards.
pub proof fn the_sound_keeps_the_clock(backwards: bool)
    ensures
        value_of(sound_settings(backwards), "real_time"@) == Some(SettingValueView::Number(1)),
        value_of(sound_settings(backwards), "scrub_audio"@) == Some(SettingValueView::Number(1)),
        value_of(sound_settings(backwards), "terminate_on_pause"@) == Some(
            SettingValueView::Text("0"@),
        ),
        backwards ==> value_of(sound_settings(backwards), "video_off"@) == Some(
            SettingValueView::Number(1),
        ),
        !backwards ==> value_of(sound_settings(backwards), "video_off"@) is None,
        forall|i: int|
            0 <= i < sound_settings(backwards).len() ==> (
            #[trigger] sound_settings(backwards)[i]).required == (i == 0),
{
    let v = sound_settings(backwards);
    reveal_strlit("real_time");
    reveal_strlit("terminate_on_pause");
    reveal_strlit("scrub_audio");
    reveal_strlit("video_off");
    assert("real_time"@.len() == 9 && "real_time"@[0] == 'r');
    assert("terminate_on_pause"@.len() == 18);
    assert("scrub_audio"@.len() == 11);
    assert("video_off"@.len() == 9 && "video_off"@[0] == 'v');
    lemma_value_at(v, "real_time"@, 0);
    lemma_value_at(v, "terminate_on_pause"@, 1);
    lemma_value_at(v, "scrub_audio"@, 2);
    if backwards {
        lemma_value_at(v, "video_off"@, 3);
    } else {
        lemma_no_value(v, "video_off"@);
    }
}

} // verus!
