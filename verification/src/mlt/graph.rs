//! The services that a graph is built of, and the calls that bring a graph up
//! to date. Making the calls is left to the program around this.
use vstd::prelude::*;
use vstd::string::*;

use crate::mlt::convert::mlt_int;
use crate::mlt::convert::nearest_int;
use crate::mlt::patch::OpView;
use crate::mlt::patch::TrackOp;
use crate::mlt::patch::apply_op;
use crate::mlt::projection::ClipEntry;
use crate::mlt::projection::ClipEntryView;
use crate::mlt::projection::Entry;
use crate::mlt::projection::EntryView;
use crate::mlt::projection::FilterSpec;
use crate::mlt::projection::FilterView;
use crate::mlt::projection::Projection;
use crate::mlt::projection::Resource;
use crate::mlt::projection::ResourceView;
use crate::mlt::projection::StreamSelect;
use crate::mlt::projection::TrackProjection;
use crate::mlt::projection::TransitionEntry;
use crate::mlt::projection::TransitionEntryView;
use crate::mlt::projection::copy_filters;
use crate::mlt::projection::entries_view;
use crate::mlt::projection::filters_view;
use crate::mlt::projection::is_visual;
use crate::mlt::projection::lemma_positions;
use crate::mlt::projection::positions;
use crate::mlt::projection::tracks_view;
use crate::mlt::transitions::pairs_view;
use crate::model::ClipId;
use crate::model::TrackKind;
use crate::text::decimal;
use crate::text::decimal_string;
use crate::text::same_text;
use crate::text::texts_view;

verus! {

/// The value of a property.
#[derive(Debug, PartialEq, Eq)]
pub enum SettingValue {
    Text(String),
    Number(i32),
}

/// The contents of a [`SettingValue`].
pub enum SettingValueView {
    Text(Seq<char>),
    Number(i32),
}

impl View for SettingValue {
    type V = SettingValueView;

    open spec fn view(&self) -> SettingValueView {
        match self {
            SettingValue::Text(t) => SettingValueView::Text(t@),
            SettingValue::Number(n) => SettingValueView::Number(*n),
        }
    }
}

/// A property of a service.
#[derive(Debug, PartialEq, Eq)]
pub struct Setting {
    pub key: String,
    pub value: SettingValue,
    /// Whether the service is of no use without it.
    pub required: bool,
}

/// The contents of a [`Setting`].
pub struct SettingView {
    pub key: Seq<char>,
    pub value: SettingValueView,
    pub required: bool,
}

impl View for Setting {
    type V = SettingView;

    open spec fn view(&self) -> SettingView {
        SettingView { key: self.key@, value: self.value@, required: self.required }
    }
}

/// The contents of a list of properties.
pub open spec fn settings_view(v: Seq<Setting>) -> Seq<SettingView> {
    Seq::new(v.len(), |i: int| v[i]@)
}

/// A text, and whether it must be set.
pub open spec fn text_setting(key: Seq<char>, value: Seq<char>, required: bool) -> SettingView {
    SettingView { key, value: SettingValueView::Text(value), required }
}

/// A number that must be set.
pub open spec fn number_setting(key: Seq<char>, value: i32) -> SettingView {
    SettingView { key, value: SettingValueView::Number(value), required: true }
}

/// A number that may be left unset.
pub open spec fn optional_number(key: Seq<char>, value: i32) -> SettingView {
    SettingView { key, value: SettingValueView::Number(value), required: false }
}

/// Appends a number that may be left unset.
pub fn push_optional_number(v: &mut Vec<Setting>, key: &str, value: i32)
    ensures
        settings_view(final(v)@) == settings_view(old(v)@).push(optional_number(key@, value)),
{
    let ghost before = settings_view(v@);
    v.push(Setting { key: key.to_owned(), value: SettingValue::Number(value), required: false });
    assert(settings_view(v@) =~= before.push(optional_number(key@, value)));
}

/// Appends a text.
pub fn push_text_setting(v: &mut Vec<Setting>, key: &str, value: &str, required: bool)
    ensures
        settings_view(final(v)@) == settings_view(old(v)@).push(
            text_setting(key@, value@, required),
        ),
{
    let ghost before = settings_view(v@);
    v.push(Setting { key: key.to_owned(), value: SettingValue::Text(value.to_owned()), required });
    assert(settings_view(v@) =~= before.push(text_setting(key@, value@, required)));
}

/// Appends a number.
pub fn push_number_setting(v: &mut Vec<Setting>, key: &str, value: i32)
    ensures
        settings_view(final(v)@) == settings_view(old(v)@).push(number_setting(key@, value)),
{
    let ghost before = settings_view(v@);
    v.push(Setting { key: key.to_owned(), value: SettingValue::Number(value), required: true });
    assert(settings_view(v@) =~= before.push(number_setting(key@, value)));
}

/// Whether a service of the Qt toolkit may be made on a thread: the first one
/// makes the application object, which belongs to the main thread.
pub fn qt_is_safe(thread: Option<&str>) -> (b: bool)
    ensures
        b == (thread matches Some(t) && t@ == "main"@),
{
    match thread {
        Some(t) => same_text(t, "main"),
        None => false,
    }
}

/// The services that draw text, the preferred one first.
pub open spec fn text_service_names(qt: bool) -> Seq<Seq<char>> {
    if qt {
        seq!["qtext"@, "pango"@]
    } else {
        seq!["pango"@, "qtext"@]
    }
}

pub fn text_services(qt: bool) -> (v: Vec<String>)
    ensures
        texts_view(v@) == text_service_names(qt),
{
    let mut v: Vec<String> = Vec::new();
    if qt {
        v.push("qtext".to_owned());
        v.push("pango".to_owned());
    } else {
        v.push("pango".to_owned());
        v.push("qtext".to_owned());
    }
    assert(texts_view(v@) =~= text_service_names(qt));
    v
}

/// The services that blend a track over the ones below, the preferred one
/// first.
pub open spec fn blend_service_names() -> Seq<Seq<char>> {
    seq!["frei0r.cairoblend"@, "qtblend"@, "composite"@]
}

pub fn blend_services() -> (v: Vec<String>)
    ensures
        texts_view(v@) == blend_service_names(),
{
    let mut v: Vec<String> = Vec::new();
    v.push("frei0r.cairoblend".to_owned());
    v.push("qtblend".to_owned());
    v.push("composite".to_owned());
    assert(texts_view(v@) =~= blend_service_names());
    v
}

/// The filters that bring every source to the shape of the timeline, in the
/// order in which they apply; of each list the first that exists is used.
pub open spec fn normaliser_names() -> Seq<Seq<Seq<char>>> {
    seq![
        seq!["avcolor_space"@],
        seq!["rescale"@],
        seq!["resize"@],
        seq!["swresample"@, "audiochannels"@],
        seq!["resample"@],
        seq!["audioconvert"@],
    ]
}

fn names1(a: &str) -> (v: Vec<String>)
    ensures
        texts_view(v@) == seq![a@],
{
    let mut v: Vec<String> = Vec::new();
    v.push(a.to_owned());
    assert(texts_view(v@) =~= seq![a@]);
    v
}

pub fn normalisers() -> (v: Vec<Vec<String>>)
    ensures
        v@.len() == normaliser_names().len(),
        forall|i: int| 0 <= i < v@.len() ==> texts_view((#[trigger] v@[i])@) == normaliser_names()[i],
{
    let mut v: Vec<Vec<String>> = Vec::new();
    v.push(names1("avcolor_space"));
    v.push(names1("rescale"));
    v.push(names1("resize"));
    let mut both: Vec<String> = Vec::new();
    both.push("swresample".to_owned());
    both.push("audiochannels".to_owned());
    assert(texts_view(both@) =~= seq!["swresample"@, "audiochannels"@]);
    v.push(both);
    v.push(names1("resample"));
    v.push(names1("audioconvert"));
    v
}

/// How a source is opened.
#[derive(Debug, PartialEq, Eq)]
pub struct ProducerPlan {
    /// The services to try, the preferred one first.
    pub services: Vec<String>,
    pub resource: String,
    /// The colour that stands in for a source that does not open.
    pub fallback: String,
    pub settings: Vec<Setting>,
    /// Whether the source may be decoded by hardware.
    pub hardware: bool,
    pub filters: Vec<FilterSpec>,
}

/// The contents of a [`ProducerPlan`].
pub struct ProducerView {
    pub services: Seq<Seq<char>>,
    pub resource: Seq<char>,
    pub fallback: Seq<char>,
    pub settings: Seq<SettingView>,
    pub hardware: bool,
    pub filters: Seq<FilterView>,
}

impl View for ProducerPlan {
    type V = ProducerView;

    open spec fn view(&self) -> ProducerView {
        ProducerView {
            services: texts_view(self.services@),
            resource: self.resource@,
            fallback: self.fallback@,
            settings: settings_view(self.settings@),
            hardware: self.hardware,
            filters: filters_view(self.filters@),
        }
    }
}

/// The properties that choose a stream: a track that names none decodes the
/// default one of its container.
pub open spec fn stream_settings(stream: Option<StreamSelect>) -> Seq<SettingView> {
    match stream {
        Some(StreamSelect::Audio(s)) => seq![
            number_setting("audio_index"@, nearest_int(s as u64)),
            number_setting("video_index"@, (-1) as i32),
        ],
        Some(StreamSelect::Video(s)) => seq![
            number_setting("video_index"@, nearest_int(s as u64)),
            number_setting("audio_index"@, (-1) as i32),
        ],
        None => Seq::empty(),
    }
}

/// The properties of a source.
pub open spec fn source_settings(c: ClipEntryView) -> Seq<SettingView> {
    seq![text_setting("davimci.clip"@, decimal(c.clip.0 as nat), true)] + (match c.resource {
        ResourceView::Text(t) => seq![
            text_setting("text"@, t, false),
            text_setting("bgcolour"@, "#00000000"@, false),
        ],
        ResourceView::Offline(path) => seq![text_setting("davimci.offline"@, path, true)],
        _ => Seq::empty(),
    }) + stream_settings(c.stream)
}

/// How a source is opened. Text that does not open is shown as nothing, so
/// that it does not cover the picture; anything else as a colour.
pub open spec fn source_of(c: ClipEntryView, qt: bool) -> ProducerView {
    ProducerView {
        services: match c.resource {
            ResourceView::Text(_) => text_service_names(qt),
            ResourceView::File(_) => seq!["avformat"@],
            _ => seq!["color"@],
        },
        resource: match c.resource {
            ResourceView::File(p) => p,
            ResourceView::Text(_) => "#00000000"@,
            ResourceView::Offline(_) => "#ff202080"@,
            ResourceView::Colour => "#ff000000"@,
        },
        fallback: if c.resource is Text {
            "#00000000"@
        } else {
            "#ff202080"@
        },
        settings: source_settings(c),
        hardware: c.resource is File,
        filters: c.filters,
    }
}

pub fn plan_producer(entry: &ClipEntry, qt: bool) -> (p: ProducerPlan)
    ensures
        p@ == source_of(entry@, qt),
{
    let (is_text, hardware) = match &entry.resource {
        Resource::Text(_) => (true, false),
        Resource::File(_) => (false, true),
        _ => (false, false),
    };
    let services = if is_text {
        text_services(qt)
    } else {
        names1(entry.resource.service())
    };
    let fallback = if is_text {
        "#00000000".to_owned()
    } else {
        "#ff202080".to_owned()
    };
    let mut settings: Vec<Setting> = Vec::new();
    assert(settings_view(settings@) =~= Seq::<SettingView>::empty());
    let id = decimal_string(entry.clip.0);
    push_text_setting(&mut settings, "davimci.clip", id.as_str(), true);
    match &entry.resource {
        Resource::Text(t) => {
            push_text_setting(&mut settings, "text", t.as_str(), false);
            push_text_setting(&mut settings, "bgcolour", "#00000000", false);
        },
        Resource::Offline { path } => {
            push_text_setting(&mut settings, "davimci.offline", path.as_str(), true);
        },
        _ => {},
    }
    match entry.stream {
        Some(StreamSelect::Audio(s)) => {
            push_number_setting(&mut settings, "audio_index", mlt_int(s as u64));
            push_number_setting(&mut settings, "video_index", -1);
        },
        Some(StreamSelect::Video(s)) => {
            push_number_setting(&mut settings, "video_index", mlt_int(s as u64));
            push_number_setting(&mut settings, "audio_index", -1);
        },
        None => {},
    }
    assert(settings_view(settings@) =~= source_settings(entry@));
    ProducerPlan {
        services,
        resource: entry.resource.resource(),
        fallback,
        settings,
        hardware,
        filters: copy_filters(&entry.filters),
    }
}

/// How an overlap of two clips is made: the end of one and the beginning of
/// the other as two tracks, and a transition across them.
#[derive(Debug, PartialEq, Eq)]
pub struct TransitionPlan {
    pub from: ProducerPlan,
    pub from_range: (i32, i32),
    pub to: ProducerPlan,
    pub to_range: (i32, i32),
    pub service: String,
    pub settings: Vec<Setting>,
}

/// The contents of a [`TransitionPlan`].
pub struct OverlapView {
    pub from: ProducerView,
    pub from_range: (i32, i32),
    pub to: ProducerView,
    pub to_range: (i32, i32),
    pub service: Seq<char>,
    pub settings: Seq<SettingView>,
}

impl View for TransitionPlan {
    type V = OverlapView;

    open spec fn view(&self) -> OverlapView {
        OverlapView {
            from: self.from@,
            from_range: self.from_range,
            to: self.to@,
            to_range: self.to_range,
            service: self.service@,
            settings: settings_view(self.settings@),
        }
    }
}

/// The last frame of something of a length.
pub open spec fn last_of(length: int) -> i32 {
    nearest_int(
        (if length < 1 {
            0
        } else {
            length - 1
        }) as u64,
    )
}

/// The frames of a source that are played.
pub open spec fn range_of(c: ClipEntryView) -> (i32, i32) {
    (nearest_int(c.in_point.0), nearest_int(c.out_point.0))
}

/// The properties of a transition: it spans the whole overlap, and has those
/// of its type.
pub open spec fn overlap_settings(t: TransitionEntryView) -> Seq<SettingView> {
    seq![number_setting("in"@, 0), number_setting("out"@, last_of(t.from.length()))] + Seq::new(
        t.props.len(),
        |i: int| text_setting(t.props[i].0, t.props[i].1, true),
    ) + seq![text_setting("davimci.transition"@, t.kind, true)]
}

/// How an overlap is made.
pub open spec fn overlap_of(t: TransitionEntryView, qt: bool) -> OverlapView {
    OverlapView {
        from: source_of(t.from, qt),
        from_range: range_of(t.from),
        to: source_of(t.to, qt),
        to_range: range_of(t.to),
        service: t.service,
        settings: overlap_settings(t),
    }
}

pub fn plan_transition(entry: &TransitionEntry, qt: bool) -> (p: TransitionPlan)
    requires
        entry@.from.wf(),
    ensures
        p@ == overlap_of(entry@, qt),
{
    let mut settings: Vec<Setting> = Vec::new();
    assert(settings_view(settings@) =~= Seq::<SettingView>::empty());
    push_number_setting(&mut settings, "in", 0);
    push_number_setting(&mut settings, "out", mlt_int(entry.length().saturating_sub(1)));
    let ghost head = settings_view(settings@);
    let ghost props = pairs_view(entry.props@);
    let n: usize = entry.props.len();
    let mut i: usize = 0;
    while i < n
        invariant
            i <= n == entry.props@.len(),
            props == pairs_view(entry.props@),
            settings_view(settings@) =~= head + Seq::new(
                i as nat,
                |k: int| text_setting(props[k].0, props[k].1, true),
            ),
        decreases n - i,
    {
        assert(props[i as int] == (entry.props@[i as int].0@, entry.props@[i as int].1@));
        push_text_setting(
            &mut settings,
            entry.props[i].0.as_str(),
            entry.props[i].1.as_str(),
            true,
        );
        i = i + 1;
    }
    push_text_setting(&mut settings, "davimci.transition", entry.kind.as_str(), true);
    assert(settings_view(settings@) =~= overlap_settings(entry@));
    TransitionPlan {
        from: plan_producer(&entry.from, qt),
        from_range: (mlt_int(entry.from.in_point.0), mlt_int(entry.from.out_point.0)),
        to: plan_producer(&entry.to, qt),
        to_range: (mlt_int(entry.to.in_point.0), mlt_int(entry.to.out_point.0)),
        service: entry.service.clone(),
        settings,
    }
}

/// How an entry of a playlist is made.
#[derive(Debug, PartialEq, Eq)]
pub enum EntryPlan {
    Blank(i32),
    Clip { producer: Box<ProducerPlan>, first: i32, last: i32 },
    Overlap { plan: Box<TransitionPlan>, last: i32, clip: ClipId },
}

/// The contents of an [`EntryPlan`]: what an entry of a playlist plays.
pub enum SlotView {
    Blank(i32),
    Clip { producer: ProducerView, first: i32, last: i32 },
    Overlap { plan: OverlapView, last: i32, clip: ClipId },
}

impl View for EntryPlan {
    type V = SlotView;

    open spec fn view(&self) -> SlotView {
        match self {
            EntryPlan::Blank(n) => SlotView::Blank(*n),
            EntryPlan::Clip { producer, first, last } => SlotView::Clip {
                producer: producer@,
                first: *first,
                last: *last,
            },
            EntryPlan::Overlap { plan, last, clip } => SlotView::Overlap {
                plan: plan@,
                last: *last,
                clip: *clip,
            },
        }
    }
}

/// What an entry plays.
pub open spec fn slot_of(e: EntryView, qt: bool) -> SlotView {
    match e {
        EntryView::Blank(length) => SlotView::Blank(nearest_int(length.0)),
        EntryView::Clip(c) => SlotView::Clip {
            producer: source_of(c, qt),
            first: range_of(c).0,
            last: range_of(c).1,
        },
        EntryView::Transition(t) => SlotView::Overlap {
            plan: overlap_of(t, qt),
            last: last_of(t.from.length()),
            clip: t.clip,
        },
    }
}

/// What a playlist plays.
pub open spec fn slots_of(v: Seq<EntryView>, qt: bool) -> Seq<SlotView> {
    Seq::new(v.len(), |i: int| slot_of(v[i], qt))
}

/// The contents of a list of plans.
pub open spec fn slots_view(v: Seq<EntryPlan>) -> Seq<SlotView> {
    Seq::new(v.len(), |i: int| v[i]@)
}

pub fn plan_entry(entry: &Entry, qt: bool) -> (p: EntryPlan)
    requires
        entry@.wf(),
    ensures
        p@ == slot_of(entry@, qt),
{
    match entry {
        Entry::Blank { length } => EntryPlan::Blank(mlt_int(length.0)),
        Entry::Clip(c) => EntryPlan::Clip {
            producer: Box::new(plan_producer(c, qt)),
            first: mlt_int(c.in_point.0),
            last: mlt_int(c.out_point.0),
        },
        Entry::Transition(t) => EntryPlan::Overlap {
            plan: Box::new(plan_transition(t, qt)),
            last: mlt_int(t.length().saturating_sub(1)),
            clip: t.clip,
        },
    }
}

/// Whether every entry of a playlist can be played.
pub open spec fn playable(v: Seq<EntryView>) -> bool {
    forall|i: int| 0 <= i < v.len() ==> (#[trigger] v[i]).wf()
}

/// How a track is made.
#[derive(Debug, PartialEq, Eq)]
pub struct TrackPlan {
    pub name: String,
    /// Which of picture and sound are left out.
    pub hidden: i32,
    pub entries: Vec<EntryPlan>,
}

pub fn plan_track(track: &TrackProjection, qt: bool) -> (p: TrackPlan)
    requires
        playable(track@.entries),
    ensures
        p.name@ == track@.name,
        p.hidden == (if track.kind == TrackKind::Audio {
            1int
        } else {
            0
        }) + (if track.muted {
            2int
        } else {
            0
        }),
        slots_view(p.entries@) == slots_of(track@.entries, qt),
{
    let ghost all = track@.entries;
    let mut entries: Vec<EntryPlan> = Vec::new();
    let n: usize = track.entries.len();
    let mut i: usize = 0;
    while i < n
        invariant
            i <= n == track.entries@.len(),
            all == entries_view(track.entries@),
            playable(all),
            slots_view(entries@) =~= slots_of(all, qt).take(i as int),
        decreases n - i,
    {
        let ghost before = slots_view(entries@);
        assert(all[i as int] == track.entries@[i as int]@);
        assert(all[i as int].wf());
        let p = plan_entry(&track.entries[i], qt);
        entries.push(p);
        assert(slots_view(entries@) =~= before.push(slots_of(all, qt)[i as int]));
        i = i + 1;
    }
    assert(slots_view(entries@) =~= slots_of(all, qt));
    TrackPlan { name: track.name.clone(), hidden: track.hide_flags() as i32, entries }
}

/// How a whole graph is made: the tracks, which of them are blended over the
/// lowest, and which are mixed into the first.
#[derive(Debug, PartialEq, Eq)]
pub struct GraphPlan {
    pub tracks: Vec<TrackPlan>,
    pub blends: Vec<i32>,
    pub mixes: Vec<i32>,
}

/// Positions as the framework counts them.
pub open spec fn counted(v: Seq<usize>) -> Seq<i32> {
    Seq::new(v.len(), |i: int| nearest_int(v[i] as u64))
}

fn count_all(v: &Vec<usize>) -> (c: Vec<i32>)
    ensures
        c@ == counted(v@),
{
    let mut c: Vec<i32> = Vec::new();
    let n: usize = v.len();
    let mut i: usize = 0;
    while i < n
        invariant
            i <= n == v@.len(),
            c@ =~= counted(v@).take(i as int),
        decreases n - i,
    {
        c.push(mlt_int(v[i] as u64));
        i = i + 1;
    }
    assert(c@ =~= counted(v@));
    c
}

pub fn plan_graph(projection: &Projection, qt: bool) -> (g: GraphPlan)
    requires
        forall|i: int|
            0 <= i < projection.tracks@.len() ==> playable((#[trigger] projection.tracks@[i])@.entries),
    ensures
        g.tracks@.len() == projection.tracks@.len(),
        forall|i: int|
            0 <= i < g.tracks@.len() ==> {
                let t = projection.tracks@[i]@;
                &&& (#[trigger] g.tracks@[i]).name@ == t.name
                &&& slots_view(g.tracks@[i].entries@) == slots_of(t.entries, qt)
                &&& g.tracks@[i].hidden == (if t.kind == TrackKind::Audio {
                    1int
                } else {
                    0
                }) + (if t.muted {
                    2int
                } else {
                    0
                })
            },
        ({
            let visual = positions(
                tracks_view(projection.tracks@),
                |k: TrackKind| is_visual(k),
                projection.tracks@.len(),
            );
            g.blends@ == counted(
                if visual.len() == 0 {
                    visual
                } else {
                    visual.drop_first()
                },
            )
        }),
        g.mixes@ == counted(
            Seq::new(
                if projection.tracks@.len() == 0 {
                    0
                } else {
                    (projection.tracks@.len() - 1) as nat
                },
                |i: int| (i + 1) as usize,
            ),
        ),
{
    let mut tracks: Vec<TrackPlan> = Vec::new();
    let n: usize = projection.tracks.len();
    let mut i: usize = 0;
    while i < n
        invariant
            i <= n == projection.tracks@.len(),
            forall|i: int|
                0 <= i < projection.tracks@.len() ==> playable(
                    (#[trigger] projection.tracks@[i])@.entries,
                ),
            tracks@.len() == i,
            forall|k: int|
                0 <= k < i ==> {
                    let t = projection.tracks@[k]@;
                    &&& (#[trigger] tracks@[k]).name@ == t.name
                    &&& slots_view(tracks@[k].entries@) == slots_of(t.entries, qt)
                    &&& tracks@[k].hidden == (if t.kind == TrackKind::Audio {
                        1int
                    } else {
                        0
                    }) + (if t.muted {
                        2int
                    } else {
                        0
                    })
                },
        decreases n - i,
    {
        assert(playable(projection.tracks@[i as int]@.entries));
        tracks.push(plan_track(&projection.tracks[i], qt));
        i = i + 1;
    }
    let blends = count_all(&projection.video_blend_tracks());
    let mixes = count_all(&projection.audio_mix_tracks());
    GraphPlan { tracks, blends, mixes }
}

/// A call on a playlist.
#[derive(Debug, PartialEq, Eq)]
pub enum Call {
    Remove(i32),
    Insert(i32, EntryPlan),
    /// Plays other frames of the same source.
    Resize { index: i32, first: i32, last: i32 },
}

/// The contents of a [`Call`].
pub enum CallView {
    Remove(i32),
    Insert(i32, SlotView),
    Resize { index: i32, first: i32, last: i32 },
}

impl View for Call {
    type V = CallView;

    open spec fn view(&self) -> CallView {
        match self {
            Call::Remove(i) => CallView::Remove(*i),
            Call::Insert(i, p) => CallView::Insert(*i, p@),
            Call::Resize { index, first, last } => CallView::Resize {
                index: *index,
                first: *first,
                last: *last,
            },
        }
    }
}

/// The contents of a list of calls.
pub open spec fn calls_view(v: Seq<Call>) -> Seq<CallView> {
    Seq::new(v.len(), |i: int| v[i]@)
}

/// Whether two entries are opened from one source, so that one can be turned
/// into the other by playing other frames of it.
pub open spec fn same_source(a: EntryView, b: EntryView) -> bool {
    match (a, b) {
        (EntryView::Clip(x), EntryView::Clip(y)) => x.clip == y.clip && x.resource == y.resource
            && x.stream == y.stream && x.channels == y.channels && x.filters == y.filters,
        _ => false,
    }
}

/// The calls of an edit.
pub open spec fn calls_of(live: Seq<EntryView>, op: OpView, qt: bool) -> Seq<CallView> {
    match op {
        OpView::Remove(i) => seq![CallView::Remove(nearest_int(i as u64))],
        OpView::Insert(i, e) => seq![CallView::Insert(nearest_int(i as u64), slot_of(e, qt))],
        OpView::Update(i, e) => if i < live.len() && same_source(live[i], e) {
            seq![
                CallView::Resize {
                    index: nearest_int(i as u64),
                    first: range_of(e->Clip_0).0,
                    last: range_of(e->Clip_0).1,
                },
            ]
        } else {
            seq![
                CallView::Remove(nearest_int(i as u64)),
                CallView::Insert(nearest_int(i as u64), slot_of(e, qt)),
            ]
        },
    }
}

/// What a call does to a playlist.
pub open spec fn called(s: Seq<SlotView>, c: CallView) -> Seq<SlotView> {
    match c {
        CallView::Remove(i) => if 0 <= i < s.len() {
            s.remove(i as int)
        } else {
            s
        },
        CallView::Insert(i, slot) => s.insert(
            if i < s.len() {
                i as int
            } else {
                s.len() as int
            },
            slot,
        ),
        CallView::Resize { index, first, last } => if 0 <= index < s.len() {
            match s[index as int] {
                SlotView::Clip { producer, .. } => s.update(
                    index as int,
                    SlotView::Clip { producer, first, last },
                ),
                _ => s,
            }
        } else {
            s
        },
    }
}

/// What calls do to a playlist.
pub open spec fn all_called(s: Seq<SlotView>, calls: Seq<CallView>) -> Seq<SlotView>
    decreases calls.len(),
{
    if calls.len() == 0 {
        s
    } else {
        all_called(called(s, calls[0]), calls.drop_first())
    }
}

/// The calls of an edit make the playlist play what it would play if it were
/// built anew.
pub proof fn calls_reproduce_the_playlist(live: Seq<EntryView>, op: OpView, qt: bool)
    requires
        live.len() <= i32::MAX,
        match op {
            OpView::Insert(i, _) => 0 <= i <= live.len(),
            OpView::Remove(i) => 0 <= i < live.len(),
            OpView::Update(i, _) => 0 <= i < live.len(),
        },
    ensures
        all_called(slots_of(live, qt), calls_of(live, op, qt)) == slots_of(apply_op(live, op), qt),
{
    let s = slots_of(live, qt);
    let calls = calls_of(live, op, qt);
    let goal = slots_of(apply_op(live, op), qt);
    reveal_with_fuel(all_called, 3);
    assert(calls.drop_first().len() == calls.len() - 1);
    match op {
        OpView::Insert(i, e) => {
            assert(calls.drop_first() =~= Seq::<CallView>::empty());
            assert(called(s, calls[0]) =~= goal);
        },
        OpView::Remove(i) => {
            assert(calls.drop_first() =~= Seq::<CallView>::empty());
            assert(called(s, calls[0]) =~= goal);
        },
        OpView::Update(i, e) => {
            if same_source(live[i], e) {
                assert(calls.drop_first() =~= Seq::<CallView>::empty());
                assert(slot_of(live[i], qt) == s[i]);
                assert(called(s, calls[0]) =~= goal);
            } else {
                let mid = called(s, calls[0]);
                assert(mid =~= s.remove(i));
                assert(calls.drop_first()[0] == calls[1]);
                assert(calls.drop_first().drop_first() =~= Seq::<CallView>::empty());
                assert(called(mid, calls[1]) =~= goal);
            }
        },
    }
}

/// The calls of an edit; `live` is what the playlist holds, before and after.
pub fn plan_op(op: &TrackOp, live: &mut Vec<Entry>, qt: bool) -> (calls: Vec<Call>)
    requires
        match op {
            TrackOp::Insert { entry, .. } => entry@.wf(),
            TrackOp::Update { entry, .. } => entry@.wf(),
            TrackOp::Remove { .. } => true,
        },
    ensures
        calls_view(calls@) == calls_of(entries_view(old(live)@), op@, qt),
        entries_view(final(live)@) == apply_op(entries_view(old(live)@), op@),
{
    let ghost before = entries_view(live@);
    let mut calls: Vec<Call> = Vec::new();
    let n: usize = live.len();
    match op {
        TrackOp::Remove { index } => {
            calls.push(Call::Remove(mlt_int(*index as u64)));
            if *index < n {
                let _ = live.remove(*index);
                assert(entries_view(live@) =~= before.remove(*index as int));
            }
        },
        TrackOp::Insert { index, entry } => {
            calls.push(Call::Insert(mlt_int(*index as u64), plan_entry(entry, qt)));
            let at: usize = if *index < n {
                *index
            } else {
                n
            };
            live.insert(at, entry.clone());
            assert(entries_view(live@) =~= before.insert(at as int, entry@));
        },
        TrackOp::Update { index, entry } => {
            let mut range: Option<(i32, i32)> = None;
            if *index < n {
                assert(before[*index as int] == live@[*index as int]@);
                if let (Entry::Clip(a), Entry::Clip(b)) = (&live[*index], entry) {
                    if a.same_producer(b) {
                        range = Some((mlt_int(b.in_point.0), mlt_int(b.out_point.0)));
                    }
                }
            }
            match range {
                Some((first, last)) => {
                    calls.push(Call::Resize { index: mlt_int(*index as u64), first, last });
                },
                None => {
                    calls.push(Call::Remove(mlt_int(*index as u64)));
                    calls.push(Call::Insert(mlt_int(*index as u64), plan_entry(entry, qt)));
                },
            }
            if *index < n {
                live.set(*index, entry.clone());
                assert(entries_view(live@) =~= before.update(*index as int, entry@));
            }
        },
    }
    assert(calls_view(calls@) =~= calls_of(before, op@, qt));
    calls
}

/// What a property ends up as, where properties are set one after the other:
/// the last that has the name.
pub open spec fn value_of(v: Seq<SettingView>, key: Seq<char>) -> Option<SettingValueView>
    decreases v.len(),
{
    if v.len() == 0 {
        None
    } else if v.last().key == key {
        Some(v.last().value)
    } else {
        value_of(v.drop_last(), key)
    }
}

pub proof fn lemma_value_at(v: Seq<SettingView>, key: Seq<char>, i: int)
    requires
        0 <= i < v.len(),
        v[i].key == key,
        forall|j: int| i < j < v.len() ==> (#[trigger] v[j]).key != key,
    ensures
        value_of(v, key) == Some(v[i].value),
    decreases v.len(),
{
    if i < v.len() - 1 {
        assert(v[v.len() - 1].key != key);
        let front = v.drop_last();
        assert forall|j: int| i < j < front.len() implies (#[trigger] front[j]).key != key by {
            assert(v[j].key != key);
        }
        lemma_value_at(front, key, i);
    }
}

pub proof fn lemma_no_value(v: Seq<SettingView>, key: Seq<char>)
    requires
        forall|j: int| 0 <= j < v.len() ==> (#[trigger] v[j]).key != key,
    ensures
        value_of(v, key) is None,
    decreases v.len(),
{
    if v.len() > 0 {
        assert(v[v.len() - 1].key != key);
        let front = v.drop_last();
        assert forall|j: int| 0 <= j < front.len() implies (#[trigger] front[j]).key != key by {
            assert(v[j].key != key);
        }
        lemma_no_value(front, key);
    }
}

/// An entry plays the frames that it stands for: a blank as many, a clip from
/// its first to its last, and an overlap both of its clips, from one end to
/// the other. Each is as long as the entry.
pub proof fn an_entry_plays_its_frames(e: EntryView, qt: bool)
    requires
        e.wf(),
        match e {
            EntryView::Blank(n) => n.0 <= i32::MAX,
            EntryView::Clip(c) => c.out_point.0 < i32::MAX,
            EntryView::Transition(t) => t.from.out_point.0 < i32::MAX && t.to.out_point.0
                < i32::MAX,
        },
    ensures
        match (e, slot_of(e, qt)) {
            (EntryView::Blank(n), SlotView::Blank(m)) => m == n.0,
            (EntryView::Clip(c), SlotView::Clip { producer, first, last }) => {
                &&& first == c.in_point.0
                &&& last == c.out_point.0
                &&& last - first + 1 == e.length()
                &&& producer.filters == c.filters
            },
            (EntryView::Transition(t), SlotView::Overlap { plan, last, clip }) => {
                &&& clip == t.clip
                &&& last + 1 == e.length()
                &&& plan.from_range.0 == t.from.in_point.0
                &&& plan.from_range.1 == t.from.out_point.0
                &&& plan.to_range.0 == t.to.in_point.0
                &&& plan.to_range.1 == t.to.out_point.0
                &&& plan.service == t.service
                &&& plan.from.filters == t.from.filters
                &&& plan.to.filters == t.to.filters
            },
            _ => false,
        },
{
}

/// A source is opened as what it is: a file by the decoder, text by a service
/// that draws it, and anything else as a colour. Only a file may be decoded by
/// hardware. Missing media show as a colour that is not black, and text that
/// cannot be drawn as nothing.
pub proof fn a_source_is_opened_as_what_it_is(c: ClipEntryView, qt: bool)
    ensures
        ({
            let p = source_of(c, qt);
            &&& p.filters == c.filters
            &&& match c.resource {
                ResourceView::File(path) => {
                    &&& p.services == seq!["avformat"@]
                    &&& p.resource == path
                    &&& p.hardware
                    &&& p.fallback == "#ff202080"@
                },
                ResourceView::Text(_) => {
                    &&& p.services.len() == 2
                    &&& p.services.contains("qtext"@)
                    &&& p.services.contains("pango"@)
                    &&& p.services[0] == if qt {
                        "qtext"@
                    } else {
                        "pango"@
                    }
                    &&& p.resource == "#00000000"@
                    &&& p.fallback == "#00000000"@
                    &&& !p.hardware
                },
                ResourceView::Offline(_) => {
                    &&& p.services == seq!["color"@]
                    &&& p.resource == "#ff202080"@
                    &&& !p.hardware
                },
                ResourceView::Colour => {
                    &&& p.services == seq!["color"@]
                    &&& p.resource == "#ff000000"@
                    &&& !p.hardware
                },
            }
        }),
{
    if c.resource is Text {
        let p = source_of(c, qt);
        if qt {
            assert(p.services[0] == "qtext"@ && p.services[1] == "pango"@);
        } else {
            assert(p.services[0] == "pango"@ && p.services[1] == "qtext"@);
        }
    }
}

/// A source is told its clip and its stream under their names: the stream that
/// is played by its number, and the other kind switched off. Text is told what
/// it says, on a background that shows nothing.
pub proof fn a_source_is_told_its_clip_and_stream(c: ClipEntryView)
    ensures
        ({
            let told = source_settings(c);
            let number = |n: int| Some(SettingValueView::Number(n as i32));
            &&& value_of(told, "davimci.clip"@) == Some(
                SettingValueView::Text(decimal(c.clip.0 as nat)),
            )
            &&& c.resource matches ResourceView::Text(t) ==> value_of(told, "text"@) == Some(
                SettingValueView::Text(t),
            ) && value_of(told, "bgcolour"@) == Some(SettingValueView::Text("#00000000"@))
            &&& c.resource matches ResourceView::Offline(p) ==> value_of(told, "davimci.offline"@)
                == Some(SettingValueView::Text(p))
            &&& match c.stream {
                Some(StreamSelect::Audio(s)) => {
                    &&& s <= i32::MAX ==> value_of(told, "audio_index"@) == number(s as int)
                    &&& value_of(told, "video_index"@) == number(-1)
                },
                Some(StreamSelect::Video(s)) => {
                    &&& s <= i32::MAX ==> value_of(told, "video_index"@) == number(s as int)
                    &&& value_of(told, "audio_index"@) == number(-1)
                },
                None => value_of(told, "audio_index"@) is None && value_of(told, "video_index"@)
                    is None,
            }
        }),
{
    let told = source_settings(c);
    reveal_strlit("davimci.clip");
    reveal_strlit("davimci.offline");
    reveal_strlit("text");
    reveal_strlit("bgcolour");
    reveal_strlit("audio_index");
    reveal_strlit("video_index");
    assert("davimci.clip"@.len() == 12 && "davimci.offline"@.len() == 15);
    assert("davimci.clip"@[0] == 'd' && "davimci.offline"@[0] == 'd' && "text"@[0] == 't'
        && "bgcolour"@[0] == 'b' && "audio_index"@[0] == 'a' && "video_index"@[0] == 'v');
    let n = told.len() as int;
    lemma_value_at(told, "davimci.clip"@, 0);
    if c.resource is Text {
        lemma_value_at(told, "text"@, 1);
        lemma_value_at(told, "bgcolour"@, 2);
    }
    if c.resource is Offline {
        lemma_value_at(told, "davimci.offline"@, 1);
    }
    match c.stream {
        Some(StreamSelect::Audio(s)) => {
            lemma_value_at(told, "audio_index"@, n - 2);
            lemma_value_at(told, "video_index"@, n - 1);
        },
        Some(StreamSelect::Video(s)) => {
            lemma_value_at(told, "video_index"@, n - 2);
            lemma_value_at(told, "audio_index"@, n - 1);
        },
        None => {
            lemma_no_value(told, "audio_index"@);
            lemma_no_value(told, "video_index"@);
        },
    }
}

/// A transition spans its whole overlap, and has every property of its type.
pub proof fn a_transition_spans_its_overlap(t: TransitionEntryView, i: int)
    requires
        t.from.wf(),
        t.from.out_point.0 < i32::MAX,
        0 <= i < t.props.len(),
    ensures
        overlap_settings(t)[0] == (SettingView {
            key: "in"@,
            value: SettingValueView::Number(0),
            required: true,
        }),
        overlap_settings(t)[1] == (SettingView {
            key: "out"@,
            value: SettingValueView::Number((t.from.out_point.0 - t.from.in_point.0) as i32),
            required: true,
        }),
        overlap_settings(t).contains(
            SettingView {
                key: t.props[i].0,
                value: SettingValueView::Text(t.props[i].1),
                required: true,
            },
        ),
{
    assert(overlap_settings(t)[i + 2].key == t.props[i].0);
}

/// Every track that shows a picture is blended over those below it, but for
/// the lowest, and every track is mixed into the first. The order is that of
/// the tracks.
pub proof fn pictures_are_blended_and_sounds_mixed(
    projection: Projection,
    qt: bool,
    g: GraphPlan,
    i: int,
)
    requires
        call_ensures(plan_graph, (&projection, qt), g),
        projection.tracks@.len() <= i32::MAX,
        0 <= i < projection.tracks@.len(),
    ensures
        g.tracks@.len() == projection.tracks@.len(),
        g.tracks@[i].name@ == projection.tracks@[i].name@,
        g.mixes@.contains(i as i32) <==> i > 0,
        g.blends@.contains(i as i32) <==> (projection.tracks@[i].kind != TrackKind::Audio && exists|
            j: int,
        |
            0 <= j < i && (#[trigger] projection.tracks@[j]).kind != TrackKind::Audio),
        g.tracks@[i].hidden == match (
            projection.tracks@[i].kind == TrackKind::Audio,
            projection.tracks@[i].muted,
        ) {
            (false, false) => 0int,
            (true, false) => 1,
            (false, true) => 2,
            (true, true) => 3,
        },
{
    let tracks = tracks_view(projection.tracks@);
    let n = tracks.len();
    let wanted = |k: TrackKind| is_visual(k);
    let visual = positions(tracks, wanted, n);
    lemma_positions(tracks, wanted, n);
    assert(projection.tracks@[i]@.name == projection.tracks@[i].name@);
    assert(g.tracks@[i].name@ == projection.tracks@[i]@.name);
    if i > 0 {
        assert(g.mixes@[i - 1] == i as i32);
    }
    if g.mixes@.contains(i as i32) {
        let m = choose|m: int| 0 <= m < g.mixes@.len() && g.mixes@[m] == i as i32;
        assert(g.mixes@[m] == nearest_int((m + 1) as u64));
    }
    if g.blends@.contains(i as i32) {
        let m = choose|m: int| 0 <= m < g.blends@.len() && g.blends@[m] == i as i32;
        assert(g.blends@[m] == nearest_int(visual[m + 1] as u64));
        assert(visual[m + 1] < n);
        assert(visual[m + 1] == i);
        assert(visual[0] < visual[m + 1]);
        assert(wanted(tracks[visual[0] as int].kind));
        assert(wanted(tracks[visual[m + 1] as int].kind));
        assert(projection.tracks@[visual[0] as int].kind != TrackKind::Audio);
    }
    if projection.tracks@[i].kind != TrackKind::Audio && exists|j: int|
        0 <= j < i && (#[trigger] projection.tracks@[j]).kind != TrackKind::Audio {
        let j = choose|j: int|
            0 <= j < i && (#[trigger] projection.tracks@[j]).kind != TrackKind::Audio;
        assert(wanted(tracks[j].kind));
        assert(wanted(tracks[i].kind));
        let a = choose|a: int| 0 <= a < visual.len() && visual[a] == j as usize;
        let b = choose|b: int| 0 <= b < visual.len() && visual[b] == i as usize;
        assert(b > 0);
        assert(g.blends@[b - 1] == nearest_int(visual[b] as u64));
    }
}

/// A setting keeps its name and its value, and only an optional one may be left
/// unset.
pub proof fn only_optional_settings_may_be_left_unset(key: Seq<char>, n: i32, text: Seq<char>)
    ensures
        number_setting(key, n).key == key && number_setting(key, n).value
            == SettingValueView::Number(n) && number_setting(key, n).required,
        optional_number(key, n).key == key && optional_number(key, n).value
            == SettingValueView::Number(n) && !optional_number(key, n).required,
        text_setting(key, text, true).required && !text_setting(key, text, false).required,
        text_setting(key, text, true).key == key && text_setting(key, text, true).value
            == SettingValueView::Text(text),
{
}

} // verus!
