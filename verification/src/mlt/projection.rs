//! The projection of a timeline onto playlists: what every track plays, in
//! the shape the playback graph wants it.
//!
//! A gap becomes a blank, a clip becomes an entry with an inclusive out-point,
//! and a transition becomes an entry of its own, made of the handle frames on
//! both sides of its cut.
use vstd::prelude::*;
use vstd::string::*;

use crate::mlt::transitions::Registry;
use crate::mlt::transitions::copy_pairs;
use crate::mlt::transitions::pairs_view;
use crate::mlt::transitions::same_pairs;
use crate::mlt::transitions::spec;
use crate::mlt::transitions::spec_view;
use crate::model::Clip;
use crate::model::ClipId;
use crate::model::Decimal;
use crate::model::Frame;
use crate::model::Placement;
use crate::model::Timeline;
use crate::model::TimelineProps;
use crate::model::Track;
use crate::model::TrackId;
use crate::model::TrackKind;
use crate::model::Transition;
use crate::text::a_number_reads_back;
use crate::text::a_padded_number_reads_back;
use crate::text::decimal;
use crate::text::decimal_string;
use crate::text::digits_value;
use crate::text::padded;
use crate::text::push_decimal;
use crate::text::push_padded;

verus! {

/// What an entry plays.
#[derive(Debug, PartialEq, Eq)]
pub enum Resource {
    File(String),
    Text(String),
    Offline { path: String },
    Colour,
}

/// The contents of a [`Resource`].
pub enum ResourceView {
    File(Seq<char>),
    Text(Seq<char>),
    Offline(Seq<char>),
    Colour,
}

impl View for Resource {
    type V = ResourceView;

    open spec fn view(&self) -> ResourceView {
        match self {
            Resource::File(p) => ResourceView::File(p@),
            Resource::Text(t) => ResourceView::Text(t@),
            Resource::Offline { path } => ResourceView::Offline(path@),
            Resource::Colour => ResourceView::Colour,
        }
    }
}

impl Clone for Resource {
    fn clone(&self) -> (c: Self)
        ensures
            c@ == self@,
    {
        match self {
            Resource::File(p) => Resource::File(p.clone()),
            Resource::Text(t) => Resource::Text(t.clone()),
            Resource::Offline { path } => Resource::Offline { path: path.clone() },
            Resource::Colour => Resource::Colour,
        }
    }
}

impl Resource {
    /// The producer service that plays this resource.
    pub fn service(&self) -> (s: &'static str)
        ensures
            s@ == match self@ {
                ResourceView::File(_) => "avformat"@,
                ResourceView::Text(_) => "qtext"@,
                ResourceView::Offline(_) => "color"@,
                ResourceView::Colour => "color"@,
            },
    {
        match self {
            Resource::File(_) => "avformat",
            Resource::Text(_) => "qtext",
            Resource::Offline { .. } => "color",
            Resource::Colour => "color",
        }
    }

    /// What the service is asked to play. Offline media shows as a colour
    /// that is not black, and a text card is transparent.
    pub fn resource(&self) -> (s: String)
        ensures
            s@ == match self@ {
                ResourceView::File(p) => p,
                ResourceView::Text(_) => "#00000000"@,
                ResourceView::Offline(_) => "#ff202080"@,
                ResourceView::Colour => "#ff000000"@,
            },
    {
        match self {
            Resource::File(p) => p.clone(),
            Resource::Offline { .. } => "#ff202080".to_owned(),
            Resource::Text(_) => "#00000000".to_owned(),
            Resource::Colour => "#ff000000".to_owned(),
        }
    }

    /// Whether two resources play the same.
    pub fn same(&self, other: &Resource) -> (b: bool)
        ensures
            b == (self@ == other@),
    {
        match (self, other) {
            (Resource::File(a), Resource::File(b)) => *a == *b,
            (Resource::Text(a), Resource::Text(b)) => *a == *b,
            (Resource::Offline { path: a }, Resource::Offline { path: b }) => *a == *b,
            (Resource::Colour, Resource::Colour) => true,
            _ => false,
        }
    }
}

/// Which stream of a file an entry plays.
#[derive(Clone, Copy, Debug, PartialEq, Eq, Structural)]
pub enum StreamSelect {
    Audio(u32),
    Video(u32),
}

/// A filter attached to an entry.
#[derive(Debug, PartialEq, Eq)]
pub struct FilterSpec {
    pub service: String,
    pub props: Vec<(String, String)>,
}

/// The contents of a [`FilterSpec`].
pub struct FilterView {
    pub service: Seq<char>,
    pub props: Seq<(Seq<char>, Seq<char>)>,
}

impl View for FilterSpec {
    type V = FilterView;

    open spec fn view(&self) -> FilterView {
        FilterView { service: self.service@, props: pairs_view(self.props@) }
    }
}

impl Clone for FilterSpec {
    fn clone(&self) -> (c: Self)
        ensures
            c@ == self@,
    {
        FilterSpec { service: self.service.clone(), props: copy_pairs(&self.props) }
    }
}

/// The contents of a list of filters.
pub open spec fn filters_view(v: Seq<FilterSpec>) -> Seq<FilterView> {
    Seq::new(v.len(), |i: int| v[i]@)
}

pub fn copy_filters(v: &Vec<FilterSpec>) -> (c: Vec<FilterSpec>)
    ensures
        filters_view(c@) == filters_view(v@),
{
    let mut c: Vec<FilterSpec> = Vec::new();
    let mut i: usize = 0;
    while i < v.len()
        invariant
            i <= v@.len(),
            c@.len() == i,
            forall|k: int| 0 <= k < i ==> (#[trigger] c@[k])@ == v@[k]@,
        decreases v@.len() - i,
    {
        c.push(v[i].clone());
        i = i + 1;
    }
    assert(filters_view(c@) =~= filters_view(v@));
    c
}

fn same_filters(a: &Vec<FilterSpec>, b: &Vec<FilterSpec>) -> (same: bool)
    ensures
        same == (filters_view(a@) == filters_view(b@)),
{
    assert(filters_view(a@).len() == a@.len());
    assert(filters_view(b@).len() == b@.len());
    if a.len() != b.len() {
        return false;
    }
    let mut i: usize = 0;
    while i < a.len()
        invariant
            i <= a@.len(),
            a@.len() == b@.len(),
            forall|k: int| 0 <= k < i ==> (#[trigger] a@[k])@ == b@[k]@,
        decreases a@.len() - i,
    {
        if a[i].service != b[i].service || !same_pairs(&a[i].props, &b[i].props) {
            proof {
                assert(filters_view(a@)[i as int] != filters_view(b@)[i as int]);
            }
            return false;
        }
        i = i + 1;
    }
    assert(filters_view(a@) =~= filters_view(b@));
    true
}

/// A clip as it is played. The out-point is the last frame played.
#[derive(Debug, PartialEq, Eq)]
pub struct ClipEntry {
    pub clip: ClipId,
    pub label: String,
    pub resource: Resource,
    pub in_point: Frame,
    pub out_point: Frame,
    pub stream: Option<StreamSelect>,
    pub channels: Option<u16>,
    pub filters: Vec<FilterSpec>,
}

/// The contents of a [`ClipEntry`].
pub struct ClipEntryView {
    pub clip: ClipId,
    pub label: Seq<char>,
    pub resource: ResourceView,
    pub in_point: Frame,
    pub out_point: Frame,
    pub stream: Option<StreamSelect>,
    pub channels: Option<u16>,
    pub filters: Seq<FilterView>,
}

impl View for ClipEntry {
    type V = ClipEntryView;

    open spec fn view(&self) -> ClipEntryView {
        ClipEntryView {
            clip: self.clip,
            label: self.label@,
            resource: self.resource@,
            in_point: self.in_point,
            out_point: self.out_point,
            stream: self.stream,
            channels: self.channels,
            filters: filters_view(self.filters@),
        }
    }
}

impl Clone for ClipEntry {
    fn clone(&self) -> (c: Self)
        ensures
            c@ == self@,
    {
        ClipEntry {
            clip: self.clip,
            label: self.label.clone(),
            resource: self.resource.clone(),
            in_point: self.in_point,
            out_point: self.out_point,
            stream: self.stream,
            channels: self.channels,
            filters: copy_filters(&self.filters),
        }
    }
}

impl ClipEntryView {
    /// Frames played.
    pub open spec fn length(self) -> int {
        self.out_point.0 + 1 - self.in_point.0
    }

    /// The entry plays at least one frame, and its length is a frame count.
    pub open spec fn wf(self) -> bool {
        self.in_point.0 <= self.out_point.0 < u64::MAX
    }
}

fn same_stream(a: &Option<StreamSelect>, b: &Option<StreamSelect>) -> (same: bool)
    ensures
        same == (a == b),
{
    match (a, b) {
        (Some(x), Some(y)) => *x == *y,
        (None, None) => true,
        _ => false,
    }
}

fn same_count(a: &Option<u16>, b: &Option<u16>) -> (same: bool)
    ensures
        same == (a == b),
{
    match (a, b) {
        (Some(x), Some(y)) => *x == *y,
        (None, None) => true,
        _ => false,
    }
}

impl ClipEntry {
    pub fn length(&self) -> (n: u64)
        requires
            self@.wf(),
        ensures
            n == self@.length(),
    {
        self.out_point.0 + 1 - self.in_point.0
    }

    /// Whether the producer built for `self` can be kept for `other`, so that
    /// only the in and out points move.
    pub fn same_producer(&self, other: &ClipEntry) -> (b: bool)
        ensures
            b == (self@.clip == other@.clip && self@.resource == other@.resource && self@.stream
                == other@.stream && self@.channels == other@.channels && self@.filters
                == other@.filters),
    {
        self.clip == other.clip && self.resource.same(&other.resource) && same_stream(
            &self.stream,
            &other.stream,
        ) && same_count(&self.channels, &other.channels) && same_filters(
            &self.filters,
            &other.filters,
        )
    }

    /// Whether two entries are the same in every respect.
    pub fn same(&self, other: &ClipEntry) -> (b: bool)
        ensures
            b == (self@ == other@),
    {
        self.same_producer(other) && self.label == other.label && self.in_point == other.in_point
            && self.out_point == other.out_point
    }
}

/// The overlap of two clips, played through a transition service.
#[derive(Debug, PartialEq, Eq)]
pub struct TransitionEntry {
    pub clip: ClipId,
    pub kind: String,
    pub service: String,
    pub props: Vec<(String, String)>,
    pub from: Box<ClipEntry>,
    pub to: Box<ClipEntry>,
}

/// The contents of a [`TransitionEntry`].
pub struct TransitionEntryView {
    pub clip: ClipId,
    pub kind: Seq<char>,
    pub service: Seq<char>,
    pub props: Seq<(Seq<char>, Seq<char>)>,
    pub from: ClipEntryView,
    pub to: ClipEntryView,
}

impl View for TransitionEntry {
    type V = TransitionEntryView;

    open spec fn view(&self) -> TransitionEntryView {
        TransitionEntryView {
            clip: self.clip,
            kind: self.kind@,
            service: self.service@,
            props: pairs_view(self.props@),
            from: self.from@,
            to: self.to@,
        }
    }
}

impl Clone for TransitionEntry {
    fn clone(&self) -> (c: Self)
        ensures
            c@ == self@,
    {
        TransitionEntry {
            clip: self.clip,
            kind: self.kind.clone(),
            service: self.service.clone(),
            props: copy_pairs(&self.props),
            from: Box::new((*self.from).clone()),
            to: Box::new((*self.to).clone()),
        }
    }
}

impl TransitionEntry {
    pub fn length(&self) -> (n: u64)
        requires
            self@.from.wf(),
        ensures
            n == self@.from.length(),
    {
        self.from.length()
    }

    /// Whether two overlaps are the same in every respect.
    pub fn same(&self, other: &TransitionEntry) -> (b: bool)
        ensures
            b == (self@ == other@),
    {
        self.clip == other.clip && self.kind == other.kind && self.service == other.service
            && same_pairs(&self.props, &other.props) && self.from.same(&other.from)
            && self.to.same(&other.to)
    }
}

/// One item of a track's playlist.
#[derive(Debug, PartialEq, Eq)]
pub enum Entry {
    Blank { length: Frame },
    Clip(Box<ClipEntry>),
    Transition(Box<TransitionEntry>),
}

/// The contents of an [`Entry`].
pub enum EntryView {
    Blank(Frame),
    Clip(ClipEntryView),
    Transition(TransitionEntryView),
}

impl View for Entry {
    type V = EntryView;

    open spec fn view(&self) -> EntryView {
        match self {
            Entry::Blank { length } => EntryView::Blank(*length),
            Entry::Clip(c) => EntryView::Clip(c@),
            Entry::Transition(t) => EntryView::Transition(t@),
        }
    }
}

impl Clone for Entry {
    fn clone(&self) -> (c: Self)
        ensures
            c@ == self@,
    {
        match self {
            Entry::Blank { length } => Entry::Blank { length: *length },
            Entry::Clip(c) => Entry::Clip(Box::new((**c).clone())),
            Entry::Transition(t) => Entry::Transition(Box::new((**t).clone())),
        }
    }
}

impl EntryView {
    /// Frames played.
    pub open spec fn length(self) -> int {
        match self {
            EntryView::Blank(length) => length.0 as int,
            EntryView::Clip(c) => c.length(),
            EntryView::Transition(t) => t.from.length(),
        }
    }

    pub open spec fn wf(self) -> bool {
        match self {
            EntryView::Blank(length) => true,
            EntryView::Clip(c) => c.wf(),
            EntryView::Transition(t) => t.from.wf() && t.to.wf(),
        }
    }
}

/// The contents of a playlist.
pub open spec fn entries_view(v: Seq<Entry>) -> Seq<EntryView> {
    Seq::new(v.len(), |i: int| v[i]@)
}

/// Frames played by a whole playlist.
pub open spec fn total_length(v: Seq<EntryView>) -> int
    decreases v.len(),
{
    if v.len() == 0 {
        0
    } else {
        total_length(v.drop_last()) + v.last().length()
    }
}

impl Entry {
    pub fn length(&self) -> (n: u64)
        requires
            self@.wf(),
        ensures
            n == self@.length(),
    {
        match self {
            Entry::Blank { length } => length.0,
            Entry::Clip(c) => c.length(),
            Entry::Transition(t) => t.length(),
        }
    }

    /// The filters of a clip; a blank or an overlap has none of its own.
    pub fn filters(&self) -> (v: &[FilterSpec])
        ensures
            filters_view(v@) == match self@ {
                EntryView::Clip(c) => c.filters,
                _ => Seq::<FilterView>::empty(),
            },
    {
        match self {
            Entry::Clip(c) => c.filters.as_slice(),
            _ => {
                let none: &[FilterSpec] = &[];
                assert(filters_view(none@) =~= Seq::<FilterView>::empty());
                none
            },
        }
    }

    /// The clip that an entry belongs to: an overlap belongs to the clip it
    /// leads into.
    pub fn clip_id(&self) -> (id: Option<ClipId>)
        ensures
            id == match self@ {
                EntryView::Blank(_) => None,
                EntryView::Clip(c) => Some(c.clip),
                EntryView::Transition(t) => Some(t.clip),
            },
    {
        match self {
            Entry::Blank { .. } => None,
            Entry::Clip(c) => Some(c.clip),
            Entry::Transition(t) => Some(t.clip),
        }
    }

    pub fn is_transition(&self) -> (b: bool)
        ensures
            b == (self@ is Transition),
    {
        match self {
            Entry::Transition(_) => true,
            _ => false,
        }
    }

    /// Whether two entries are the same in every respect.
    pub fn same(&self, other: &Entry) -> (b: bool)
        ensures
            b == (self@ == other@),
    {
        match (self, other) {
            (Entry::Blank { length: a }, Entry::Blank { length: b }) => *a == *b,
            (Entry::Clip(a), Entry::Clip(b)) => a.same(b),
            (Entry::Transition(a), Entry::Transition(b)) => a.same(b),
            _ => false,
        }
    }
}

/// A copy of a playlist.
pub fn copy_entries(v: &Vec<Entry>) -> (c: Vec<Entry>)
    ensures
        entries_view(c@) == entries_view(v@),
{
    let mut c: Vec<Entry> = Vec::new();
    let mut i: usize = 0;
    while i < v.len()
        invariant
            i <= v@.len(),
            c@.len() == i,
            forall|k: int| 0 <= k < i ==> (#[trigger] c@[k])@ == v@[k]@,
        decreases v@.len() - i,
    {
        c.push(v[i].clone());
        i = i + 1;
    }
    assert(entries_view(c@) =~= entries_view(v@));
    c
}

/// A track as it is played.
#[derive(Debug, PartialEq, Eq)]
pub struct TrackProjection {
    pub id: TrackId,
    pub name: String,
    pub kind: TrackKind,
    pub muted: bool,
    pub entries: Vec<Entry>,
}

/// The contents of a [`TrackProjection`].
pub struct TrackView {
    pub id: TrackId,
    pub name: Seq<char>,
    pub kind: TrackKind,
    pub muted: bool,
    pub entries: Seq<EntryView>,
}

impl View for TrackProjection {
    type V = TrackView;

    open spec fn view(&self) -> TrackView {
        TrackView {
            id: self.id,
            name: self.name@,
            kind: self.kind,
            muted: self.muted,
            entries: entries_view(self.entries@),
        }
    }
}

impl Clone for TrackProjection {
    fn clone(&self) -> (c: Self)
        ensures
            c@ == self@,
    {
        TrackProjection {
            id: self.id,
            name: self.name.clone(),
            kind: self.kind,
            muted: self.muted,
            entries: copy_entries(&self.entries),
        }
    }
}

impl TrackProjection {
    /// The graph's `hide` flags: one hides video, two hides audio. An audio
    /// track contributes no video, ever.
    pub fn hide_flags(&self) -> (flags: u8)
        ensures
            flags == (if self.kind == TrackKind::Audio { 1int } else { 0 }) + (if self.muted { 2int } else {
                0
            }),
    {
        match (self.kind, self.muted) {
            (TrackKind::Audio, false) => 1,
            (TrackKind::Audio, true) => 3,
            (_, true) => 2,
            _ => 0,
        }
    }
}


/// A number with four decimals.
pub open spec fn decimal_view(d: Decimal) -> Seq<char> {
    (if d.negative { "-"@ } else { ""@ }) + decimal(d.units as nat / 10000) + "."@ + padded(
        d.units as nat % 10000,
        4,
    )
}

fn push_number(s: &mut String, d: Decimal)
    ensures
        final(s)@ == old(s)@ + decimal_view(d),
{
    proof {
        reveal_strlit("");
    }
    if d.negative {
        s.append("-");
    }
    push_decimal(s, d.units / 10000);
    s.append(".");
    push_padded(s, d.units % 10000, 4);
    assert(s@ =~= old(s)@ + decimal_view(d));
}

/// A filter with one property.
pub open spec fn filter_view(service: Seq<char>, key: Seq<char>, value: Seq<char>) -> FilterView {
    FilterView { service, props: seq![(key, value)] }
}

fn one_filter(service: &str, key: &str, value: String) -> (f: FilterSpec)
    ensures
        f@ == filter_view(service@, key@, value@),
{
    let mut props: Vec<(String, String)> = Vec::new();
    props.push((key.to_owned(), value));
    let f = FilterSpec { service: service.to_owned(), props };
    assert(f@.props =~= seq![(key@, value@)]);
    f
}

/// An animated value that goes from one level to another over a span.
pub open spec fn fade_view(kind: TrackKind, from: nat, to: nat, rising: bool) -> Seq<char> {
    let silent = if kind == TrackKind::Audio { "-60"@ } else { "0"@ };
    let full = if kind == TrackKind::Audio { "0"@ } else { "1"@ };
    decimal(from) + "="@ + (if rising { silent } else { full }) + ";"@ + decimal(to) + "="@ + (
    if rising { full } else { silent })
}

fn fade_value(kind: TrackKind, from: u64, to: u64, rising: bool) -> (s: String)
    ensures
        s@ == fade_view(kind, from as nat, to as nat, rising),
{
    let silent = if kind == TrackKind::Audio { "-60" } else { "0" };
    let full = if kind == TrackKind::Audio { "0" } else { "1" };
    let mut s = decimal_string(from);
    s.append("=");
    s.append(if rising { silent } else { full });
    s.append(";");
    push_decimal(&mut s, to);
    s.append("=");
    s.append(if rising { full } else { silent });
    s
}

/// The filter that carries a fade: loudness on an audio track, opacity on
/// any other.
pub open spec fn fade_filter_view(kind: TrackKind, animation: Seq<char>) -> FilterView {
    if kind == TrackKind::Audio {
        filter_view("volume"@, "level"@, animation)
    } else {
        filter_view("brightness"@, "alpha"@, animation)
    }
}

fn fade_filter(kind: TrackKind, animation: String) -> (f: FilterSpec)
    ensures
        f@ == fade_filter_view(kind, animation@),
{
    if kind == TrackKind::Audio {
        one_filter("volume", "level", animation)
    } else {
        one_filter("brightness", "alpha", animation)
    }
}

/// The rectangle a picture is drawn into.
pub open spec fn rect_view(p: Placement) -> Seq<char> {
    decimal_view(p.x) + " "@ + decimal_view(p.y) + " "@ + decimal_view(p.percent) + "% "@
        + decimal_view(p.percent) + "% 1"@
}

fn rect_value(p: Placement) -> (s: String)
    ensures
        s@ == rect_view(p),
{
    let mut s = String::new();
    push_number(&mut s, p.x);
    s.append(" ");
    push_number(&mut s, p.y);
    s.append(" ");
    push_number(&mut s, p.percent);
    s.append("% ");
    push_number(&mut s, p.percent);
    s.append("% 1");
    assert(s@ =~= rect_view(p));
    s
}

/// The last frame of a clip, counted from its first.
pub open spec fn last_frame(clip: Clip) -> int {
    if clip.duration.0 == 0 { 0 } else { clip.duration.0 - 1 }
}

/// The loudness change of a clip.
pub open spec fn gain_filters(clip: Clip) -> Seq<FilterView> {
    match clip.props.gain_db {
        Some(gain) => seq![filter_view("volume"@, "level"@, decimal_view(gain))],
        None => Seq::empty(),
    }
}

/// The fade at the start of a clip, over its first frames.
pub open spec fn fade_in_filters(clip: Clip, kind: TrackKind) -> Seq<FilterView> {
    if clip.props.fade_in.0 == 0 {
        Seq::empty()
    } else {
        let full = clip.props.fade_in.0 - 1;
        let end = if full < last_frame(clip) { full } else { last_frame(clip) };
        seq![fade_filter_view(kind, fade_view(kind, 0, end as nat, true))]
    }
}

/// The fade at the end of a clip, over its last frames.
pub open spec fn fade_out_filters(clip: Clip, kind: TrackKind) -> Seq<FilterView> {
    if clip.props.fade_out.0 == 0 {
        Seq::empty()
    } else {
        let back = last_frame(clip) - (clip.props.fade_out.0 - 1);
        let start = if back > 0 { back } else { 0 };
        seq![
            fade_filter_view(
                kind,
                fade_view(kind, start as nat, last_frame(clip) as nat, false),
            ),
        ]
    }
}

/// Where the picture of a clip is drawn, and how opaque it is. Sound has
/// neither.
pub open spec fn picture_filters(clip: Clip, kind: TrackKind) -> Seq<FilterView> {
    if kind == TrackKind::Audio {
        Seq::empty()
    } else {
        (match clip.props.placement {
            Some(p) => seq![filter_view("qtblend"@, "rect"@, rect_view(p))],
            None => Seq::empty(),
        }) + (match clip.props.opacity {
            Some(o) => seq![filter_view("brightness"@, "alpha"@, decimal_view(o))],
            None => Seq::empty(),
        })
    }
}

/// The filters of a clip, in the order in which they apply.
pub open spec fn clip_filters(clip: Clip, kind: TrackKind) -> Seq<FilterView> {
    gain_filters(clip) + fade_in_filters(clip, kind) + fade_out_filters(clip, kind)
        + picture_filters(clip, kind)
}

fn number(d: Decimal) -> (s: String)
    ensures
        s@ == decimal_view(d),
{
    let mut s = String::new();
    push_number(&mut s, d);
    assert(s@ =~= decimal_view(d));
    s
}

fn push_filter(v: &mut Vec<FilterSpec>, f: FilterSpec)
    ensures
        filters_view(final(v)@) == filters_view(old(v)@).push(f@),
{
    v.push(f);
    assert(filters_view(v@) =~= filters_view(old(v)@).push(f@));
}

fn filters_for(clip: &Clip, kind: TrackKind) -> (v: Vec<FilterSpec>)
    ensures
        filters_view(v@) == clip_filters(*clip, kind),
{
    let mut out: Vec<FilterSpec> = Vec::new();
    let last: u64 = clip.duration.0.saturating_sub(1);
    assert(filters_view(out@) =~= Seq::<FilterView>::empty());
    if let Some(gain) = clip.props.gain_db {
        let text = number(gain);
        push_filter(&mut out, one_filter("volume", "level", text));
    }
    assert(filters_view(out@) =~= gain_filters(*clip));
    if clip.props.fade_in.0 > 0 {
        let full: u64 = clip.props.fade_in.0 - 1;
        let end: u64 = if full < last { full } else { last };
        push_filter(&mut out, fade_filter(kind, fade_value(kind, 0, end, true)));
    }
    assert(filters_view(out@) =~= gain_filters(*clip) + fade_in_filters(*clip, kind));
    if clip.props.fade_out.0 > 0 {
        let start: u64 = last.saturating_sub(clip.props.fade_out.0 - 1);
        push_filter(&mut out, fade_filter(kind, fade_value(kind, start, last, false)));
    }
    assert(filters_view(out@) =~= gain_filters(*clip) + fade_in_filters(*clip, kind)
        + fade_out_filters(*clip, kind));
    if kind != TrackKind::Audio {
        if let Some(p) = clip.props.placement {
            push_filter(&mut out, one_filter("qtblend", "rect", rect_value(p)));
        }
        if let Some(o) = clip.props.opacity {
            push_filter(&mut out, one_filter("brightness", "alpha", number(o)));
        }
    }
    assert(filters_view(out@) =~= clip_filters(*clip, kind));
    out
}

/// What a clip plays: its media, a placeholder where that is offline, its
/// text, or black.
pub open spec fn clip_resource(clip: Clip) -> ResourceView {
    match clip.media {
        Some(m) => if m.offline {
            ResourceView::Offline(m.path@)
        } else {
            ResourceView::File(m.path@)
        },
        None => match clip.text {
            Some(t) => ResourceView::Text(t@),
            None => ResourceView::Colour,
        },
    }
}

/// The stream of its media that a clip plays on a track of `kind`.
pub open spec fn clip_stream(clip: Clip, kind: TrackKind) -> Option<StreamSelect> {
    match clip.media {
        Some(m) => match m.stream {
            Some(s) => if kind == TrackKind::Audio {
                Some(StreamSelect::Audio(s))
            } else {
                Some(StreamSelect::Video(s))
            },
            None => None,
        },
        None => None,
    }
}

/// A whole clip as an entry.
pub open spec fn clip_entry(clip: Clip, kind: TrackKind) -> ClipEntryView {
    ClipEntryView {
        clip: clip.id,
        label: clip.label@,
        resource: clip_resource(clip),
        in_point: clip.source_in,
        out_point: Frame((clip.source_in.0 + clip.duration.0 - 1) as u64),
        stream: clip_stream(clip, kind),
        channels: match clip.media {
            Some(m) => m.channels,
            None => None,
        },
        filters: clip_filters(clip, kind),
    }
}

fn project_clip(clip: &Clip, kind: TrackKind) -> (e: ClipEntry)
    requires
        clip.wf(),
    ensures
        e@ == clip_entry(*clip, kind),
{
    let resource = match &clip.media {
        Some(m) => if m.offline {
            Resource::Offline { path: m.path.clone() }
        } else {
            Resource::File(m.path.clone())
        },
        None => match &clip.text {
            Some(t) => Resource::Text(t.clone()),
            None => Resource::Colour,
        },
    };
    let stream = match &clip.media {
        Some(m) => match m.stream {
            Some(s) => if kind == TrackKind::Audio {
                Some(StreamSelect::Audio(s))
            } else {
                Some(StreamSelect::Video(s))
            },
            None => None,
        },
        None => None,
    };
    let channels = match &clip.media {
        Some(m) => m.channels,
        None => None,
    };
    ClipEntry {
        clip: clip.id,
        label: clip.label.clone(),
        resource,
        in_point: clip.source_in,
        out_point: Frame(clip.source_in.0 + (clip.duration.0 - 1)),
        stream,
        channels,
        filters: filters_for(clip, kind),
    }
}

/// The subtraction of frame counts that stops at zero.
pub open spec fn less(a: int, b: int) -> int {
    if a > b { a - b } else { 0 }
}

/// The overlap of two clips. The outgoing clip runs past its out-point, and
/// the incoming clip starts before its in-point.
pub open spec fn overlap_entry(
    registry: Registry,
    prev: Clip,
    clip: Clip,
    t: Transition,
    kind: TrackKind,
) -> TransitionEntryView {
    let last = less(t.duration.0 as int, 1);
    let from_in = less(prev.spec_source_out(), t.spec_head());
    let to_in = less(clip.source_in.0 as int, t.spec_head());
    let from = clip_entry(prev, kind);
    let to = clip_entry(clip, kind);
    let named = spec_view(registry, t.kind@, kind);
    TransitionEntryView {
        clip: clip.id,
        kind: t.kind@,
        service: named.service,
        props: named.props,
        from: ClipEntryView {
            in_point: Frame(from_in as u64),
            out_point: Frame((from_in + last) as u64),
            ..from
        },
        to: ClipEntryView {
            in_point: Frame(to_in as u64),
            out_point: Frame((to_in + last) as u64),
            ..to
        },
    }
}

fn project_transition(
    registry: &Registry,
    track: &Track,
    index: usize,
    t: &Transition,
) -> (e: TransitionEntry)
    requires
        registry.wf(),
        track.wf(),
        track.transition_fits(index as int, *t),
    ensures
        e@ == overlap_entry(
            *registry,
            track.clips@[index - 1],
            track.clips@[index as int],
            *t,
            track.kind,
        ),
{
    let prev = &track.clips[index - 1];
    let clip = &track.clips[index];
    let head: u64 = t.head();
    let last: u64 = t.duration.0.saturating_sub(1);
    let mut from = project_clip(prev, track.kind);
    from.in_point = Frame(prev.source_out().0.saturating_sub(head));
    from.out_point = Frame(from.in_point.0 + last);
    let mut to = project_clip(clip, track.kind);
    to.in_point = Frame(clip.source_in.0.saturating_sub(head));
    to.out_point = Frame(to.in_point.0 + last);
    let named = spec(registry, t.kind.as_str(), track.kind);
    TransitionEntry {
        clip: clip.id,
        kind: t.kind.clone(),
        service: named.service,
        props: named.props,
        from: Box::new(from),
        to: Box::new(to),
    }
}

/// Where the clip before `index` ends; the start of the timeline before the
/// first clip.
pub open spec fn cursor_at(track: Track, index: int) -> int {
    if index <= 0 { 0 } else { track.clips@[index - 1].spec_end() }
}

/// The entries that clip `index` adds: a blank for the gap before it, the
/// overlap played into it, and what the overlaps at its ends leave of it.
pub open spec fn entries_of(registry: Registry, track: Track, index: int) -> Seq<EntryView> {
    let clip = track.clips@[index];
    let cursor = cursor_at(track, index);
    let incoming = track.attached_transition(index);
    let outgoing = track.attached_transition(index + 1);
    let whole = clip_entry(clip, track.kind);
    let tail = match incoming {
        Some(t) => t.spec_tail(),
        None => 0,
    };
    let head = match outgoing {
        Some(t) => t.spec_head(),
        None => 0,
    };
    (if clip.start.0 > cursor {
        seq![EntryView::Blank(Frame((clip.start.0 - cursor) as u64))]
    } else {
        Seq::empty()
    }) + (match incoming {
        Some(t) => seq![
            EntryView::Transition(
                overlap_entry(registry, track.clips@[index - 1], clip, t, track.kind),
            ),
        ],
        None => Seq::empty(),
    }) + seq![
        EntryView::Clip(
            ClipEntryView {
                in_point: Frame((whole.in_point.0 + tail) as u64),
                out_point: Frame((whole.out_point.0 - head) as u64),
                ..whole
            },
        ),
    ]
}

/// The playlist made of the first `n` clips of a track.
pub open spec fn playlist(registry: Registry, track: Track, n: nat) -> Seq<EntryView>
    decreases n,
{
    if n == 0 {
        Seq::empty()
    } else {
        playlist(registry, track, (n - 1) as nat) + entries_of(registry, track, n - 1)
    }
}

fn push_entry(v: &mut Vec<Entry>, e: Entry)
    ensures
        entries_view(final(v)@) == entries_view(old(v)@).push(e@),
{
    v.push(e);
    assert(entries_view(v@) =~= entries_view(old(v)@).push(e@));
}

/// What the overlaps leave of a clip is at least one frame.
proof fn lemma_room(track: Track, index: int)
    requires
        track.wf(),
        0 <= index < track.clips@.len(),
    ensures
        ({
            let tail = match track.attached_transition(index) {
                Some(t) => t.spec_tail(),
                None => 0,
            };
            let head = match track.attached_transition(index + 1) {
                Some(t) => t.spec_head(),
                None => 0,
            };
            0 <= tail && 0 <= head && tail + head < track.clips@[index].duration.0
        }),
{
    assert(track.clips@[index].wf());
    let incoming = track.attached_transition(index);
    let outgoing = track.attached_transition(index + 1);
    if outgoing is Some {
        assert(track.taken_at_start(index) + outgoing->Some_0.spec_head()
            < track.clips@[index].duration.0);
    }
    if incoming is Some {
        assert(incoming->Some_0.spec_tail() + track.taken_at_end(index)
            < track.clips@[index].duration.0);
    }
}

#[verifier::rlimit(60)]
fn track_entries(registry: &Registry, track: &Track) -> (v: Vec<Entry>)
    requires
        registry.wf(),
        track.wf(),
    ensures
        entries_view(v@) == playlist(*registry, *track, track.clips@.len()),
{
    let mut entries: Vec<Entry> = Vec::new();
    let mut cursor: u64 = 0;
    let mut i: usize = 0;
    assert(entries_view(entries@) =~= Seq::<EntryView>::empty());
    while i < track.clips.len()
        invariant
            registry.wf(),
            track.wf(),
            i <= track.clips@.len(),
            cursor == cursor_at(*track, i as int),
            entries_view(entries@) == playlist(*registry, *track, i as nat),
        decreases track.clips@.len() - i,
    {
        let clip = &track.clips[i];
        let ghost before = entries_view(entries@);
        let ghost blank = if clip.start.0 > cursor {
            seq![EntryView::Blank(Frame((clip.start.0 - cursor) as u64))]
        } else {
            Seq::empty()
        };
        assert(clip.wf());
        if clip.start.0 > cursor {
            push_entry(&mut entries, Entry::Blank { length: Frame(clip.start.0 - cursor) });
        }
        assert(entries_view(entries@) =~= before + blank);
        let incoming = track.attached(i);
        let outgoing = track.attached(i + 1);
        proof {
            lemma_room(*track, i as int);
        }
        let mut tail: u64 = 0;
        let mut head: u64 = 0;
        let ghost mut overlap = Seq::<EntryView>::empty();
        if let Some(t) = incoming {
            let e = project_transition(registry, track, i, t);
            proof {
                overlap = seq![EntryView::Transition(e@)];
            }
            push_entry(&mut entries, Entry::Transition(Box::new(e)));
            tail = t.tail();
        }
        if let Some(t) = outgoing {
            head = t.head();
        }
        assert(entries_view(entries@) =~= before + blank + overlap);
        let mut entry = project_clip(clip, track.kind);
        entry.in_point = Frame(entry.in_point.0 + tail);
        entry.out_point = Frame(entry.out_point.0 - head);
        push_entry(&mut entries, Entry::Clip(Box::new(entry)));
        cursor = clip.end().0;
        assert(entries_view(entries@) =~= before + entries_of(*registry, *track, i as int));
        i = i + 1;
    }
    entries
}

proof fn lemma_total_push(v: Seq<EntryView>, e: EntryView)
    ensures
        total_length(v.push(e)) == total_length(v) + e.length(),
{
    assert(v.push(e).drop_last() =~= v);
}

proof fn lemma_total_add(a: Seq<EntryView>, b: Seq<EntryView>)
    ensures
        total_length(a + b) == total_length(a) + total_length(b),
    decreases b.len(),
{
    if b.len() == 0 {
        assert(a + b =~= a);
    } else {
        lemma_total_add(a, b.drop_last());
        assert((a + b).drop_last() =~= a + b.drop_last());
    }
}

/// A playlist fills its track without a hole: the first `n` clips play up to
/// the end of the last of them, less what the next overlap takes from it.
pub proof fn lemma_playlist_length(registry: Registry, track: Track, n: nat)
    requires
        track.wf(),
        n <= track.clips@.len(),
    ensures
        total_length(playlist(registry, track, n)) == cursor_at(track, n as int) - (
        match track.attached_transition(n as int) {
            Some(t) => t.spec_head(),
            None => 0,
        }),
    decreases n,
{
    if n > 0 {
        let index = n - 1;
        lemma_playlist_length(registry, track, (n - 1) as nat);
        lemma_total_add(
            playlist(registry, track, (n - 1) as nat),
            entries_of(registry, track, index),
        );
        lemma_room(track, index);
        let clip = track.clips@[index];
        assert(clip.wf());
        if index > 0 {
            assert(track.clips@[index - 1].wf());
            assert(track.clips@[index - 1].spec_end() <= clip.start.0);
        }
        let cursor = cursor_at(track, index);
        let incoming = track.attached_transition(index);
        let whole = clip_entry(clip, track.kind);
        let e = entries_of(registry, track, index);
        let last = e.last();
        assert(e.last().length() == clip.duration.0 - (match incoming {
            Some(t) => t.spec_tail(),
            None => 0,
        }) - (match track.attached_transition(index + 1) {
            Some(t) => t.spec_head(),
            None => 0,
        }));
        let front = e.drop_last();
        assert(e =~= front.push(e.last()));
        lemma_total_push(front, e.last());
        match incoming {
            Some(t) => {
                assert(track.clips@[index - 1].spec_end() == clip.start.0);
                assert(front =~= Seq::<EntryView>::empty().push(front[0]));
                lemma_total_push(Seq::<EntryView>::empty(), front[0]);
                assert(front[0].length() == t.duration.0);
            },
            None => {
                if clip.start.0 > cursor {
                    assert(front =~= Seq::<EntryView>::empty().push(front[0]));
                    lemma_total_push(Seq::<EntryView>::empty(), front[0]);
                } else {
                    assert(front =~= Seq::<EntryView>::empty());
                }
            },
        }
    }
}

/// A track plays exactly up to the end of its last clip, whatever transitions
/// it carries: an overlap is made of handle frames, so planting one moves no
/// clip and never changes the length.
pub proof fn transitions_keep_the_track_length(registry: Registry, track: Track)
    requires
        track.wf(),
    ensures
        total_length(playlist(registry, track, track.clips@.len())) == (if track.clips@.len() == 0 {
            0
        } else {
            track.clips@.last().spec_end()
        }),
{
    lemma_playlist_length(registry, track, track.clips@.len());
}

/// What a playlist plays at frame `f`, and how far into that entry the frame
/// lies; `None` where the playlist is over.
pub open spec fn playing(v: Seq<EntryView>, f: int) -> Option<(EntryView, int)>
    decreases v.len(),
{
    if v.len() == 0 {
        None
    } else {
        let before = total_length(v.drop_last());
        if f < before {
            playing(v.drop_last(), f)
        } else if f - before < v.last().length() {
            Some((v.last(), f - before))
        } else {
            None
        }
    }
}

proof fn lemma_total_nonnegative(v: Seq<EntryView>)
    requires
        forall|i: int| 0 <= i < v.len() ==> (#[trigger] v[i]).length() >= 0,
    ensures
        total_length(v) >= 0,
    decreases v.len(),
{
    if v.len() > 0 {
        lemma_total_nonnegative(v.drop_last());
        assert(v[v.len() - 1].length() >= 0);
    }
}

proof fn lemma_playing_add(a: Seq<EntryView>, b: Seq<EntryView>, f: int)
    requires
        forall|i: int| 0 <= i < a.len() ==> (#[trigger] a[i]).length() >= 0,
        forall|i: int| 0 <= i < b.len() ==> (#[trigger] b[i]).length() >= 0,
    ensures
        f < total_length(a) ==> playing(a + b, f) == playing(a, f),
        f >= total_length(a) ==> playing(a + b, f) == playing(b, f - total_length(a)),
    decreases b.len(),
{
    if b.len() == 0 {
        assert(a + b =~= a);
        if a.len() > 0 {
            assert(a[a.len() - 1].length() >= 0);
        }
    } else {
        let front = b.drop_last();
        lemma_total_add(a, front);
        lemma_playing_add(a, front, f);
        lemma_total_nonnegative(front);
        assert((a + b).drop_last() =~= a + front);
        assert((a + b).last() == b.last());
    }
}

proof fn lemma_entry_lengths(registry: Registry, track: Track, index: int)
    requires
        track.wf(),
        0 <= index < track.clips@.len(),
    ensures
        forall|i: int|
            0 <= i < entries_of(registry, track, index).len() ==> (#[trigger] entries_of(
                registry,
                track,
                index,
            )[i]).length() >= 0,
{
    lemma_room(track, index);
    assert(track.clips@[index].wf());
    if index > 0 {
        assert(track.clips@[index - 1].wf());
    }
}

proof fn lemma_playlist_lengths(registry: Registry, track: Track, n: nat)
    requires
        track.wf(),
        n <= track.clips@.len(),
    ensures
        forall|i: int|
            0 <= i < playlist(registry, track, n).len() ==> (#[trigger] playlist(
                registry,
                track,
                n,
            )[i]).length() >= 0,
    decreases n,
{
    if n > 0 {
        let before = playlist(registry, track, (n - 1) as nat);
        let own = entries_of(registry, track, n - 1);
        lemma_playlist_lengths(registry, track, (n - 1) as nat);
        lemma_entry_lengths(registry, track, n - 1);
        assert forall|i: int| 0 <= i < playlist(registry, track, n).len() implies (
        #[trigger] playlist(registry, track, n)[i]).length() >= 0 by {
            if i < before.len() {
                assert(before[i].length() >= 0);
            } else {
                assert(own[i - before.len()].length() >= 0);
            }
        }
    }
}

/// What the playlist of the first clips plays before the next clip's entries
/// begin, it plays whatever clips come after.
proof fn lemma_playing_prefix(registry: Registry, track: Track, m: nat, n: nat, f: int)
    requires
        track.wf(),
        m <= n <= track.clips@.len(),
        f < total_length(playlist(registry, track, m)),
    ensures
        playing(playlist(registry, track, n), f) == playing(playlist(registry, track, m), f),
    decreases n,
{
    if m < n {
        let k = (n - 1) as nat;
        lemma_playing_prefix(registry, track, m, k, f);
        lemma_playlist_grows(registry, track, m, k);
        lemma_playlist_lengths(registry, track, k);
        lemma_entry_lengths(registry, track, n - 1);
        lemma_playing_add(
            playlist(registry, track, k),
            entries_of(registry, track, n - 1),
            f,
        );
    }
}

proof fn lemma_playlist_grows(registry: Registry, track: Track, m: nat, n: nat)
    requires
        track.wf(),
        m <= n <= track.clips@.len(),
    ensures
        total_length(playlist(registry, track, m)) <= total_length(playlist(registry, track, n)),
    decreases n,
{
    if m < n {
        let k = (n - 1) as nat;
        lemma_playlist_grows(registry, track, m, k);
        lemma_entry_lengths(registry, track, n - 1);
        lemma_total_nonnegative(entries_of(registry, track, n - 1));
        lemma_total_add(playlist(registry, track, k), entries_of(registry, track, n - 1));
    }
}

/// The entries that clip `k` adds are played at the frames from where the
/// clips before it stop.
proof fn lemma_playing_clip(registry: Registry, track: Track, k: int, f: int)
    requires
        track.wf(),
        0 <= k < track.clips@.len(),
    ensures
        ({
            let from = total_length(playlist(registry, track, k as nat));
            let all = playlist(registry, track, track.clips@.len());
            let own = entries_of(registry, track, k);
            from <= f < from + total_length(own) ==> playing(all, f) == playing(own, f - from)
        }),
{
    let a = playlist(registry, track, k as nat);
    let own = entries_of(registry, track, k);
    let from = total_length(a);
    if from <= f < from + total_length(own) {
        lemma_playlist_lengths(registry, track, k as nat);
        lemma_entry_lengths(registry, track, k);
        lemma_playing_add(a, own, f);
        lemma_total_add(a, own);
        lemma_playing_prefix(registry, track, (k + 1) as nat, track.clips@.len(), f);
    }
}

/// How many frames of clip `k` the overlap into it takes.
pub open spec fn overlapped_before(track: Track, k: int) -> int {
    match track.attached_transition(k) {
        Some(t) => t.duration.0 - t.duration.0 as int / 2,
        None => 0,
    }
}

/// How many frames of clip `k` the overlap out of it takes.
pub open spec fn overlapped_after(track: Track, k: int) -> int {
    match track.attached_transition(k + 1) {
        Some(t) => t.duration.0 as int / 2,
        None => 0,
    }
}

/// A clip plays its own frames in their own places: at every frame that it
/// covers and that no overlap takes, its playlist plays the frame of its
/// source that lies as far into the source as the frame lies into the clip.
pub proof fn every_frame_plays_its_source(registry: Registry, track: Track, k: int, f: int)
    requires
        track.wf(),
        0 <= k < track.clips@.len(),
        track.clips@[k].start.0 + overlapped_before(track, k) <= f,
        f < track.clips@[k].start.0 + track.clips@[k].duration.0 - overlapped_after(track, k),
    ensures
        ({
            let clip = track.clips@[k];
            playing(playlist(registry, track, track.clips@.len()), f) matches Some((e, into)) && {
                &&& e matches EntryView::Clip(c) && {
                    &&& c.in_point.0 + into == clip.source_in.0 + (f - clip.start.0)
                    &&& c.in_point.0 + into <= c.out_point.0
                    &&& c.clip == clip.id
                    &&& c.label == clip.label@
                    &&& c.filters == clip_filters(clip, track.kind)
                    &&& match clip.media {
                        Some(m) => {
                            &&& c.channels == m.channels
                            &&& m.offline ==> c.resource == ResourceView::Offline(m.path@)
                            &&& !m.offline ==> c.resource == ResourceView::File(m.path@)
                            &&& m.stream is None ==> c.stream is None
                            &&& m.stream matches Some(s) ==> c.stream == Some(
                                if track.kind == TrackKind::Audio {
                                    StreamSelect::Audio(s)
                                } else {
                                    StreamSelect::Video(s)
                                },
                            )
                        },
                        None => {
                            &&& c.channels is None
                            &&& c.stream is None
                            &&& clip.text matches Some(t) ==> c.resource == ResourceView::Text(t@)
                            &&& clip.text is None ==> c.resource == ResourceView::Colour
                        },
                    }
                }
                &&& 0 <= into
            }
        }),
{
    let clip = track.clips@[k];
    let own = entries_of(registry, track, k);
    let from = total_length(playlist(registry, track, k as nat));
    lemma_own_entries(registry, track, k);
    lemma_playing_clip(registry, track, k, f);
    let front = own.drop_last();
    assert(total_length(own) == total_length(front) + own.last().length());
    assert(playing(own, f - from) == Some((own.last(), f - from - total_length(front))));
}

/// How long the entries of a clip are, and where they begin.
proof fn lemma_own_entries(registry: Registry, track: Track, k: int)
    requires
        track.wf(),
        0 <= k < track.clips@.len(),
    ensures
        ({
            let clip = track.clips@[k];
            let own = entries_of(registry, track, k);
            let from = total_length(playlist(registry, track, k as nat));
            &&& own.len() > 0
            &&& from + total_length(own.drop_last()) == clip.start.0 + overlapped_before(track, k)
            &&& own.last().length() == clip.duration.0 - overlapped_before(track, k)
                - overlapped_after(track, k)
            &&& from == cursor_at(track, k) - (match track.attached_transition(k) {
                Some(t) => t.duration.0 as int / 2,
                None => 0,
            })
        }),
{
    let clip = track.clips@[k];
    let own = entries_of(registry, track, k);
    let front = own.drop_last();
    let cursor = cursor_at(track, k);
    lemma_playlist_length(registry, track, k as nat);
    lemma_room(track, k);
    assert(clip.wf());
    if k > 0 {
        assert(track.clips@[k - 1].wf());
        assert(track.clips@[k - 1].spec_end() <= clip.start.0);
    }
    match track.attached_transition(k) {
        Some(t) => {
            assert(front =~= Seq::<EntryView>::empty().push(front[0]));
            lemma_total_push(Seq::<EntryView>::empty(), front[0]);
            assert(front[0].length() == t.duration.0);
        },
        None => {
            if clip.start.0 > cursor {
                assert(front =~= Seq::<EntryView>::empty().push(front[0]));
                lemma_total_push(Seq::<EntryView>::empty(), front[0]);
            } else {
                assert(front =~= Seq::<EntryView>::empty());
            }
        },
    }
}

/// An overlap plays both clips in their own places: at each of its frames the
/// outgoing clip shows the frame that it would show if it ran on, and the
/// incoming clip the frame that it would show if it had begun earlier. It lies
/// around the cut, half of it before.
pub proof fn an_overlap_plays_both_clips_in_place(
    registry: Registry,
    track: Track,
    k: int,
    t: Transition,
    f: int,
)
    requires
        track.wf(),
        0 < k < track.clips@.len(),
        track.attached_transition(k) == Some(t),
        track.clips@[k].start.0 - t.duration.0 as int / 2 <= f,
        f < track.clips@[k].start.0 - t.duration.0 as int / 2 + t.duration.0,
    ensures
        ({
            let before = track.clips@[k - 1];
            let clip = track.clips@[k];
            playing(playlist(registry, track, track.clips@.len()), f) matches Some((e, into)) && {
                &&& e matches EntryView::Transition(x) && {
                    &&& x.from.in_point.0 + into == before.source_in.0 + (f - before.start.0)
                    &&& t.duration.0 as int / 2 <= clip.source_in.0 ==> x.to.in_point.0 + into
                        == clip.source_in.0 + (f - clip.start.0)
                    &&& x.from.out_point.0 - x.from.in_point.0 == t.duration.0 - 1
                    &&& x.to.out_point.0 - x.to.in_point.0 == t.duration.0 - 1
                    &&& x.from.clip == before.id
                    &&& x.to.clip == clip.id
                    &&& x.clip == clip.id
                    &&& x.kind == t.kind@
                    &&& x.service == spec_view(registry, t.kind@, track.kind).service
                    &&& x.props == spec_view(registry, t.kind@, track.kind).props
                    &&& x.from.resource == clip_resource(before)
                    &&& x.to.resource == clip_resource(clip)
                    &&& x.from.filters == clip_filters(before, track.kind)
                    &&& x.to.filters == clip_filters(clip, track.kind)
                    &&& x.from.stream == clip_stream(before, track.kind)
                    &&& x.to.stream == clip_stream(clip, track.kind)
                }
                &&& 0 <= into < t.duration.0
            }
        }),
{
    let before = track.clips@[k - 1];
    let clip = track.clips@[k];
    let own = entries_of(registry, track, k);
    let from = total_length(playlist(registry, track, k as nat));
    lemma_own_entries(registry, track, k);
    lemma_room(track, k);
    lemma_playing_clip(registry, track, k, f);
    assert(before.wf() && clip.wf());
    let front = own.drop_last();
    assert(front =~= Seq::<EntryView>::empty().push(front[0]));
    lemma_total_push(Seq::<EntryView>::empty(), front[0]);
    assert(total_length(own) == total_length(front) + own.last().length());
    assert(front.drop_last() =~= Seq::<EntryView>::empty());
    assert(playing(front, f - from) == Some((front[0], f - from)));
    assert(playing(own, f - from) == playing(front, f - from));
}

/// Where no clip is, nothing is played: between two clips, before the first,
/// and after the last.
pub proof fn gaps_are_blank(registry: Registry, track: Track, k: int, f: int)
    requires
        track.wf(),
        0 <= k <= track.clips@.len(),
        k == 0 ==> 0 <= f,
        k > 0 ==> track.clips@[k - 1].start.0 + track.clips@[k - 1].duration.0 <= f,
        k < track.clips@.len() ==> f < track.clips@[k].start.0,
    ensures
        ({
            let all = playlist(registry, track, track.clips@.len());
            &&& k < track.clips@.len() ==> (playing(all, f) matches Some((e, _)) && e is Blank)
            &&& k == track.clips@.len() ==> playing(all, f) is None
        }),
{
    let all = playlist(registry, track, track.clips@.len());
    if k == track.clips@.len() {
        lemma_playlist_length(registry, track, track.clips@.len());
        if all.len() > 0 {
            assert(playing(all, f) is None);
        }
    } else {
        let own = entries_of(registry, track, k);
        let from = total_length(playlist(registry, track, k as nat));
        lemma_own_entries(registry, track, k);
        lemma_room(track, k);
        lemma_playing_clip(registry, track, k, f);
        let front = own.drop_last();
        assert(track.attached_transition(k) is None);
        assert(front =~= Seq::<EntryView>::empty().push(front[0]));
        lemma_total_push(Seq::<EntryView>::empty(), front[0]);
        assert(total_length(own) == total_length(front) + own.last().length());
        assert(front.drop_last() =~= Seq::<EntryView>::empty());
        assert(playing(front, f - from) == Some((front[0], f - from)));
        assert(playing(own, f - from) == playing(front, f - from));
    }
}

/// A soloed track silences every track that is not soloed.
pub open spec fn silenced_by_solo(timeline: Timeline, index: int) -> bool {
    &&& exists|i: int| 0 <= i < timeline.tracks@.len() && (#[trigger] timeline.tracks@[i]).solo
    &&& !timeline.tracks@[index].solo
}

/// Whether some track is soloed, and `track` is not.
fn soloed_out(timeline: &Timeline, index: usize) -> (out: bool)
    requires
        index < timeline.tracks@.len(),
    ensures
        out == silenced_by_solo(*timeline, index as int),
{
    let mut any = false;
    let mut i: usize = 0;
    while i < timeline.tracks.len()
        invariant
            i <= timeline.tracks@.len(),
            any == exists|k: int| 0 <= k < i && (#[trigger] timeline.tracks@[k]).solo,
        decreases timeline.tracks@.len() - i,
    {
        if timeline.tracks[i].solo {
            any = true;
        }
        i = i + 1;
    }
    any && !timeline.tracks[index].solo
}

/// A track of a timeline as it is played.
pub open spec fn track_view(registry: Registry, timeline: Timeline, index: int) -> TrackView {
    let track = timeline.tracks@[index];
    TrackView {
        id: track.id,
        name: track.name@,
        kind: track.kind,
        muted: track.muted || silenced_by_solo(timeline, index),
        entries: playlist(registry, track, track.clips@.len()),
    }
}

/// A channel pair of the output that one audio track is given.
#[derive(Clone, Copy, Debug, PartialEq, Eq, Structural)]
pub struct AudioRoute {
    pub track_index: usize,
    pub start: u16,
    pub channels: u16,
}

/// How audio tracks share the channels of one output.
#[derive(Debug, PartialEq, Eq)]
pub struct AudioLayout {
    pub total_channels: u16,
    pub routes: Vec<AudioRoute>,
}

pub const CHANNELS_PER_TRACK: u16 = 2;

pub const MAX_AUDIO_STREAMS: usize = 8;

/// A timeline as it is played.
#[derive(Debug, PartialEq, Eq)]
pub struct Projection {
    pub props: TimelineProps,
    pub tracks: Vec<TrackProjection>,
}

/// The contents of the tracks of a projection.
pub open spec fn tracks_view(v: Seq<TrackProjection>) -> Seq<TrackView> {
    Seq::new(v.len(), |i: int| v[i]@)
}

impl Clone for Projection {
    fn clone(&self) -> (c: Self)
        ensures
            c.props == self.props,
            tracks_view(c.tracks@) == tracks_view(self.tracks@),
    {
        let mut tracks: Vec<TrackProjection> = Vec::new();
        let mut i: usize = 0;
        while i < self.tracks.len()
            invariant
                i <= self.tracks@.len(),
                tracks@.len() == i,
                forall|k: int| 0 <= k < i ==> (#[trigger] tracks@[k])@ == self.tracks@[k]@,
            decreases self.tracks@.len() - i,
        {
            tracks.push(self.tracks[i].clone());
            i = i + 1;
        }
        assert(tracks_view(tracks@) =~= tracks_view(self.tracks@));
        Projection { props: self.props, tracks }
    }
}

/// The positions, among the first `n`, of the tracks of which `wanted` holds.
pub open spec fn positions(tracks: Seq<TrackView>, wanted: spec_fn(TrackKind) -> bool, n: nat) -> Seq<
    usize,
>
    decreases n,
{
    if n == 0 {
        Seq::empty()
    } else {
        let before = positions(tracks, wanted, (n - 1) as nat);
        if wanted(tracks[n - 1].kind) {
            before.push((n - 1) as usize)
        } else {
            before
        }
    }
}

/// The positions of the audio tracks.
pub open spec fn audio_positions(tracks: Seq<TrackView>) -> Seq<usize> {
    positions(tracks, |k: TrackKind| k == TrackKind::Audio, tracks.len())
}

/// Positions are in increasing order, in range, and are exactly those of the
/// tracks that are wanted.
pub proof fn lemma_positions(tracks: Seq<TrackView>, wanted: spec_fn(TrackKind) -> bool, n: nat)
    requires
        n <= tracks.len() <= usize::MAX,
    ensures
        positions(tracks, wanted, n).len() <= n,
        forall|k: int|
            0 <= k < positions(tracks, wanted, n).len() ==> (#[trigger] positions(
                tracks,
                wanted,
                n,
            )[k]) < n && wanted(tracks[positions(tracks, wanted, n)[k] as int].kind),
        forall|j: int, k: int|
            0 <= j < k < positions(tracks, wanted, n).len() ==> positions(tracks, wanted, n)[j]
                < positions(tracks, wanted, n)[k],
        forall|i: int|
            0 <= i < n && wanted((#[trigger] tracks[i]).kind) ==> positions(
                tracks,
                wanted,
                n,
            ).contains(i as usize),
    decreases n,
{
    if n > 0 {
        let m = (n - 1) as nat;
        lemma_positions(tracks, wanted, m);
        let before = positions(tracks, wanted, m);
        let now = positions(tracks, wanted, n);
        assert forall|i: int| 0 <= i < n && wanted((#[trigger] tracks[i]).kind) implies now.contains(
            i as usize,
        ) by {
            if i < m {
                assert(before.contains(i as usize));
                let k = choose|k: int| 0 <= k < before.len() && before[k] == i as usize;
                assert(now[k] == i as usize);
            } else {
                assert(now.last() == i as usize);
            }
        }
    }
}

/// The channel pair of the `n`-th audio track.
pub open spec fn route_at(audio: Seq<usize>, n: int) -> AudioRoute {
    AudioRoute { track_index: audio[n], start: (2 * n) as u16, channels: 2 }
}

/// Two to eight audio tracks share an output; fewer need none, and more are
/// mixed down.
pub open spec fn shares_output(audio: Seq<usize>) -> bool {
    2 <= audio.len() <= 8
}

/// One step of moving samples between the channels of an output: a swap, or a
/// copy.
#[derive(Clone, Copy, Debug, PartialEq, Eq, Structural)]
pub struct ChannelMove {
    pub from: u16,
    pub to: u16,
    pub swap: bool,
}

/// The filter that performs a move.
pub open spec fn move_filter(m: ChannelMove) -> FilterView {
    FilterView {
        service: "channelcopy"@,
        props: seq![
            ("from"@, decimal(m.from as nat)),
            ("to"@, decimal(m.to as nat)),
            ("swap"@, decimal(if m.swap { 1 } else { 0 })),
        ],
    }
}

/// The filter that moves the channel `from` to `to`.
pub fn channel_op(from: u16, to: u16, swap: bool) -> (f: FilterSpec)
    ensures
        f@ == move_filter(ChannelMove { from, to, swap }),
{
    let mut props: Vec<(String, String)> = Vec::new();
    props.push(("from".to_owned(), decimal_string(from as u64)));
    props.push(("to".to_owned(), decimal_string(to as u64)));
    props.push(("swap".to_owned(), decimal_string(if swap { 1 } else { 0 })));
    let f = FilterSpec { service: "channelcopy".to_owned(), props };
    assert(f@.props =~= move_filter(ChannelMove { from, to, swap }).props);
    f
}

/// Where the channels of a source arrive on an output of `total` channels.
/// On more than two, a mono source arrives in the centre.
pub open spec fn arrivals(src_channels: u16, total: u16) -> Seq<u16> {
    if total <= 2 {
        Seq::new(
            (if src_channels < total { src_channels } else { total }) as nat,
            |i: int| i as u16,
        )
    } else if src_channels == 0 {
        Seq::empty()
    } else if src_channels == 1 {
        seq![2u16]
    } else {
        seq![0u16, 1u16]
    }
}

/// Where the channels of a source arrive on an output of `total` channels.
pub fn source_positions(src_channels: u16, total: u16) -> (v: Vec<u16>)
    ensures
        v@ == arrivals(src_channels, total),
{
    let mut v: Vec<u16> = Vec::new();
    if total <= 2 {
        let n: u16 = if src_channels < total { src_channels } else { total };
        let mut i: u16 = 0;
        while i < n
            invariant
                i <= n,
                v@.len() == i,
                forall|k: int| 0 <= k < i ==> v@[k] == k as u16,
            decreases n - i,
        {
            v.push(i);
            i = i + 1;
        }
    } else if src_channels == 1 {
        v.push(2);
    } else if src_channels > 1 {
        v.push(0);
        v.push(1);
    }
    assert(v@ =~= arrivals(src_channels, total));
    v
}

/// The moves that bring a source to the pair that begins at `start`. Each
/// swap also moves whatever was in its target, which matters when the other
/// channel of the same source was there; a mono source is copied across.
pub open spec fn routing_moves(src_channels: u16, total: u16, start: u16) -> Seq<ChannelMove> {
    if total <= 2 || src_channels == 0 {
        Seq::empty()
    } else if src_channels == 1 {
        (if start == 2 {
            Seq::empty()
        } else {
            seq![ChannelMove { from: 2, to: start, swap: true }]
        }) + seq![ChannelMove { from: start, to: (start + 1) as u16, swap: false }]
    } else {
        let second: u16 = if start == 1 { 0 } else { 1 };
        (if start == 0 {
            Seq::empty()
        } else {
            seq![ChannelMove { from: 0, to: start, swap: true }]
        }) + (if second == start + 1 {
            Seq::empty()
        } else {
            seq![ChannelMove { from: second, to: (start + 1) as u16, swap: true }]
        })
    }
}

/// The filters that perform a list of moves.
pub open spec fn move_filters(moves: Seq<ChannelMove>) -> Seq<FilterView> {
    Seq::new(moves.len(), |i: int| move_filter(moves[i]))
}

/// The filters that bring a source to the pair that begins at `start`.
pub fn routing_filters(src_channels: u16, total: u16, start: u16) -> (v: Vec<FilterSpec>)
    requires
        total > 2 && src_channels > 0 ==> start < u16::MAX,
    ensures
        filters_view(v@) == move_filters(routing_moves(src_channels, total, start)),
{
    let ghost moves = routing_moves(src_channels, total, start);
    let mut out: Vec<FilterSpec> = Vec::new();
    assert(filters_view(out@) =~= Seq::<FilterView>::empty());
    if total <= CHANNELS_PER_TRACK {
        assert(filters_view(out@) =~= move_filters(moves));
        return out;
    }
    let mut at = source_positions(src_channels, total);
    let n: usize = at.len();
    if n > 0 {
        if at[0] != start {
            let from: u16 = at[0];
            push_filter(&mut out, channel_op(from, start, true));
            at.set(0, start);
            if n > 1 && at[1] == start {
                at.set(1, from);
            }
        }
    }
    if n > 1 {
        if at[1] != start + 1 {
            push_filter(&mut out, channel_op(at[1], start + 1, true));
        }
    }
    if n == 1 {
        push_filter(&mut out, channel_op(start, start + 1, false));
    }
    assert(filters_view(out@) =~= move_filters(moves));
    out
}

/// The channels that hold samples of a source after one move.
pub open spec fn occupied_after(held: Set<int>, m: ChannelMove) -> Set<int> {
    if m.swap {
        Set::new(
            |c: int|
                if c == m.to {
                    held.contains(m.from as int)
                } else if c == m.from {
                    held.contains(m.to as int)
                } else {
                    held.contains(c)
                },
        )
    } else if held.contains(m.from as int) {
        held.insert(m.to as int)
    } else {
        held
    }
}

/// The channels that hold samples of a source after a list of moves.
pub open spec fn occupied(held: Set<int>, moves: Seq<ChannelMove>) -> Set<int>
    decreases moves.len(),
{
    if moves.len() == 0 {
        held
    } else {
        occupied_after(occupied(held, moves.drop_last()), moves.last())
    }
}

/// After routing, the samples of a track occupy its own pair of channels and
/// nothing else, wherever they started.
pub proof fn routing_fills_exactly_its_pair(src_channels: u16, total: u16, start: u16)
    requires
        total > 2,
        src_channels >= 1,
        start < u16::MAX,
    ensures
        occupied(
            Set::new(|c: int| arrivals(src_channels, total).contains(c as u16) && 0 <= c <= u16::MAX),
            routing_moves(src_channels, total, start),
        ) =~= set![start as int, start + 1],
{
    let first = Set::new(
        |c: int| arrivals(src_channels, total).contains(c as u16) && 0 <= c <= u16::MAX,
    );
    let at = arrivals(src_channels, total);
    if src_channels == 1 {
        assert(first =~= set![2int]) by {
            assert(at[0] == 2);
        }
    } else {
        assert(first =~= set![0int, 1int]) by {
            assert(at[0] == 0);
            assert(at[1] == 1);
        }
    }
    let moves = routing_moves(src_channels, total, start);
    if moves.len() == 2 {
        assert(moves.drop_last().drop_last() =~= Seq::<ChannelMove>::empty());
        assert(moves.drop_last().last() == moves[0]);
        let one = occupied(first, moves.drop_last());
        assert(one == occupied_after(first, moves[0])) by {
            reveal_with_fuel(occupied, 3);
        }
        assert(occupied(first, moves) == occupied_after(one, moves[1]));
    } else if moves.len() == 1 {
        assert(moves.drop_last() =~= Seq::<ChannelMove>::empty());
        assert(occupied(first, moves) == occupied_after(first, moves[0])) by {
            reveal_with_fuel(occupied, 3);
        }
    }
}


/// A track kind that carries pictures.
pub open spec fn is_visual(kind: TrackKind) -> bool {
    kind == TrackKind::Video || kind == TrackKind::Overlay || kind == TrackKind::Text
}

/// An entry of an audio track with its samples brought to the pair at `start`.
pub open spec fn routed_entry(e: EntryView, total: u16, start: u16) -> EntryView {
    match e {
        EntryView::Clip(c) => {
            let src = match c.channels {
                Some(n) => n,
                None => 2,
            };
            EntryView::Clip(
                ClipEntryView {
                    filters: c.filters + move_filters(routing_moves(src, total, start)),
                    ..c
                },
            )
        },
        _ => e,
    }
}

/// A playlist with the samples of its clips brought to the pair at `start`.
pub open spec fn routed_entries(v: Seq<EntryView>, total: u16, start: u16) -> Seq<EntryView> {
    Seq::new(v.len(), |i: int| routed_entry(v[i], total, start))
}

/// The tracks after the first `n` routes have been applied.
pub open spec fn routed_tracks(tracks: Seq<TrackView>, audio: Seq<usize>, total: u16, n: nat) -> Seq<
    TrackView,
>
    decreases n,
{
    if n == 0 {
        tracks
    } else {
        let before = routed_tracks(tracks, audio, total, (n - 1) as nat);
        let at = audio[n - 1] as int;
        before.update(
            at,
            TrackView {
                entries: routed_entries(before[at].entries, total, (2 * (n - 1)) as u16),
                ..before[at]
            },
        )
    }
}

fn append_filters(v: &mut Vec<FilterSpec>, more: Vec<FilterSpec>)
    ensures
        filters_view(final(v)@) == filters_view(old(v)@) + filters_view(more@),
{
    let mut more = more;
    let ghost tail = more@;
    v.append(&mut more);
    assert(filters_view(v@) =~= filters_view(old(v)@) + filters_view(tail));
}

/// Brings the samples of every clip of a playlist to the pair at `start`.
fn route_entries(entries: Vec<Entry>, total: u16, start: u16) -> (v: Vec<Entry>)
    requires
        start < u16::MAX,
    ensures
        entries_view(v@) == routed_entries(entries_view(entries@), total, start),
{
    let mut rest = entries;
    let mut out: Vec<Entry> = Vec::new();
    let ghost all = entries_view(entries@);
    let n: usize = rest.len();
    let mut i: usize = 0;
    while i < n
        invariant
            start < u16::MAX,
            i <= n,
            n == all.len(),
            rest@.len() == n - i,
            forall|k: int| 0 <= k < rest@.len() ==> (#[trigger] rest@[k])@ == all[i + k],
            out@.len() == i,
            forall|k: int|
                0 <= k < i ==> (#[trigger] out@[k])@ == routed_entry(all[k], total, start),
        decreases n - i,
    {
        let ghost held = rest@;
        let entry = rest.remove(0);
        assert(entry@ == all[i as int]) by {
            assert(held[0]@ == all[i + 0]);
        }
        assert forall|k: int| 0 <= k < rest@.len() implies (#[trigger] rest@[k])@ == all[i + 1 + k] by {
            assert(held[k + 1]@ == all[i + (k + 1)]);
        }
        let routed = match entry {
            Entry::Clip(c) => {
                let mut c = *c;
                let src: u16 = match c.channels {
                    Some(n) => n,
                    None => 2,
                };
                append_filters(&mut c.filters, routing_filters(src, total, start));
                Entry::Clip(Box::new(c))
            },
            other => other,
        };
        out.push(routed);
        i = i + 1;
    }
    assert(entries_view(out@) =~= routed_entries(all, total, start));
    out
}

/// Whether an entry is the overlap that leads into the clip `id`.
pub open spec fn leads_into(e: EntryView, id: ClipId) -> bool {
    match e {
        EntryView::Transition(x) => x.clip == id,
        _ => false,
    }
}

impl Projection {
    /// The projection of a timeline.
    pub fn of(timeline: &Timeline, registry: &Registry) -> (p: Self)
        requires
            timeline.wf(),
            registry.wf(),
        ensures
            p.props == timeline.props,
            p.tracks@.len() == timeline.tracks@.len(),
            forall|i: int|
                0 <= i < p.tracks@.len() ==> (#[trigger] p.tracks@[i])@ == track_view(
                    *registry,
                    *timeline,
                    i,
                ),
    {
        let mut tracks: Vec<TrackProjection> = Vec::new();
        let mut i: usize = 0;
        while i < timeline.tracks.len()
            invariant
                timeline.wf(),
                registry.wf(),
                i <= timeline.tracks@.len(),
                tracks@.len() == i,
                forall|k: int|
                    0 <= k < i ==> (#[trigger] tracks@[k])@ == track_view(
                        *registry,
                        *timeline,
                        k,
                    ),
            decreases timeline.tracks@.len() - i,
        {
            let track = &timeline.tracks[i];
            assert(timeline.tracks@[i as int].wf());
            let entries = track_entries(registry, track);
            tracks.push(
                TrackProjection {
                    id: track.id,
                    name: track.name.clone(),
                    kind: track.kind,
                    muted: track.muted || soloed_out(timeline, i),
                    entries,
                },
            );
            i = i + 1;
        }
        Projection { props: timeline.props, tracks }
    }

    /// Whether an overlap leads into `id` on one of the first `n` tracks.
    pub open spec fn enters_by_transition(self, id: ClipId, n: int) -> bool {
        exists|t: int, e: int|
            0 <= t < n && 0 <= e < self.tracks@[t].entries@.len() && leads_into((#[trigger] self.tracks@[t].entries@[e])@, id)
    }

    /// The clips that an overlap leads into, in order and each once.
    pub fn transition_clips(&self) -> (v: Vec<ClipId>)
        ensures
            forall|i: int, j: int| 0 <= i < j < v@.len() ==> v@[i].0 < v@[j].0,
            forall|id: ClipId|
                (#[trigger] v@.contains(id)) == self.enters_by_transition(id, self.tracks@.len() as int),
    {
        let mut v: Vec<ClipId> = Vec::new();
        let mut t: usize = 0;
        while t < self.tracks.len()
            invariant
                t <= self.tracks@.len(),
                forall|i: int, j: int| 0 <= i < j < v@.len() ==> v@[i].0 < v@[j].0,
                forall|id: ClipId| (#[trigger] v@.contains(id)) == self.enters_by_transition(id, t as int),
            decreases self.tracks@.len() - t,
        {
            let entries = &self.tracks[t].entries;
            let mut e: usize = 0;
            let ghost done = v@;
            while e < entries.len()
                invariant
                    t < self.tracks@.len(),
                    entries@ == self.tracks@[t as int].entries@,
                    e <= entries@.len(),
                    forall|i: int, j: int| 0 <= i < j < v@.len() ==> v@[i].0 < v@[j].0,
                    forall|id: ClipId|
                        (#[trigger] v@.contains(id)) == (done.contains(id) || exists|k: int|
                            0 <= k < e && leads_into((#[trigger] entries@[k])@, id)),
                decreases entries@.len() - e,
            {
                let ghost before = v@;
                if let Entry::Transition(x) = &entries[e] {
                    insert_sorted(&mut v, x.clip);
                }
                assert forall|id: ClipId| (#[trigger] v@.contains(id)) == (done.contains(id) || exists|k: int|
                    0 <= k < e + 1 && leads_into((#[trigger] entries@[k])@, id)) by {
                    if before.contains(id) && !done.contains(id) {
                        let k = choose|k: int|
                            0 <= k < e && leads_into((#[trigger] entries@[k])@, id);
                        assert(leads_into(entries@[k]@, id));
                    }
                    if leads_into(entries@[e as int]@, id) {
                        assert(v@.contains(id));
                    }
                    if exists|k: int| 0 <= k < e + 1 && leads_into((#[trigger] entries@[k])@, id) {
                        let k = choose|k: int|
                            0 <= k < e + 1 && leads_into((#[trigger] entries@[k])@, id);
                        if k < e {
                            assert(before.contains(id));
                        }
                    }
                    if v@.contains(id) && !before.contains(id) {
                        assert(leads_into(entries@[e as int]@, id));
                    }
                }
                e = e + 1;
            }
            assert forall|id: ClipId| (#[trigger] v@.contains(id)) == self.enters_by_transition(
                id,
                t as int + 1,
            ) by {
                if done.contains(id) {
                    assert(self.enters_by_transition(id, t as int));
                    let (a, b) = choose|a: int, b: int|
                        0 <= a < t && 0 <= b < self.tracks@[a].entries@.len() && leads_into((#[trigger] self.tracks@[a].entries@[b])@, id);
                    assert(leads_into(self.tracks@[a].entries@[b]@, id));
                } else if v@.contains(id) {
                    let k = choose|k: int|
                        0 <= k < e && leads_into((#[trigger] entries@[k])@, id);
                    assert(leads_into(self.tracks@[t as int].entries@[k]@, id));
                }
                if self.enters_by_transition(id, t as int + 1) {
                    let (a, b) = choose|a: int, b: int|
                        0 <= a < t + 1 && 0 <= b < self.tracks@[a].entries@.len() && leads_into((#[trigger] self.tracks@[a].entries@[b])@, id);
                    if a < t {
                        assert(self.enters_by_transition(id, t as int));
                    } else {
                        assert(leads_into(entries@[b]@, id));
                    }
                }
            }
            t = t + 1;
        }
        v
    }

    /// The tracks that are mixed into the first one: all but the first.
    pub fn audio_mix_tracks(&self) -> (v: Vec<usize>)
        ensures
            v@ == Seq::new(
                if self.tracks@.len() == 0 { 0 } else { (self.tracks@.len() - 1) as nat },
                |i: int| (i + 1) as usize,
            ),
    {
        let n: usize = self.tracks.len();
        let mut v: Vec<usize> = Vec::new();
        let mut i: usize = 1;
        while i < n
            invariant
                1 <= i,
                n > 0 ==> i <= n,
                n == 0 ==> i == 1,
                v@.len() == i - 1,
                forall|k: int| 0 <= k < v@.len() ==> v@[k] == (k + 1) as usize,
            decreases n - i,
        {
            v.push(i);
            i = i + 1;
        }
        assert(v@ =~= Seq::new(
            if self.tracks@.len() == 0 { 0 } else { (self.tracks@.len() - 1) as nat },
            |i: int| (i + 1) as usize,
        ));
        v
    }

    /// The positions of the tracks of which `wanted` holds.
    fn positions_of(&self, visual: bool) -> (v: Vec<usize>)
        ensures
            v@ == positions(
                tracks_view(self.tracks@),
                if visual { |k: TrackKind| is_visual(k) } else { |k: TrackKind| k == TrackKind::Audio },
                self.tracks@.len(),
            ),
    {
        let ghost wanted = if visual {
            |k: TrackKind| is_visual(k)
        } else {
            |k: TrackKind| k == TrackKind::Audio
        };
        let mut v: Vec<usize> = Vec::new();
        let mut i: usize = 0;
        while i < self.tracks.len()
            invariant
                i <= self.tracks@.len(),
                wanted == if visual {
                    |k: TrackKind| is_visual(k)
                } else {
                    |k: TrackKind| k == TrackKind::Audio
                },
                v@ == positions(tracks_view(self.tracks@), wanted, i as nat),
            decreases self.tracks@.len() - i,
        {
            let kind = self.tracks[i].kind;
            assert(tracks_view(self.tracks@)[i as int].kind == kind);
            let take = match kind {
                TrackKind::Audio => !visual,
                _ => visual,
            };
            if take {
                v.push(i);
            }
            i = i + 1;
        }
        v
    }

    /// The tracks that are composited: every visual track above the lowest,
    /// which is the background.
    pub fn video_blend_tracks(&self) -> (v: Vec<usize>)
        ensures
            ({
                let visual = positions(
                    tracks_view(self.tracks@),
                    |k: TrackKind| is_visual(k),
                    self.tracks@.len(),
                );
                v@ == if visual.len() == 0 { visual } else { visual.drop_first() }
            }),
    {
        let mut v = self.positions_of(true);
        let ghost all = v@;
        if v.len() > 0 {
            v.remove(0);
            assert(v@ =~= all.drop_first());
        }
        v
    }

    /// A pair of channels for every audio track, where two to eight tracks
    /// share the output.
    pub fn audio_layout(&self) -> (layout: Option<AudioLayout>)
        ensures
            ({
                let audio = audio_positions(tracks_view(self.tracks@));
                match layout {
                    Some(l) => shares_output(audio) && l.total_channels == 2 * audio.len()
                        && l.routes@ == Seq::new(audio.len(), |n: int| route_at(audio, n)),
                    None => !shares_output(audio),
                }
            }),
    {
        let audio = self.positions_of(false);
        assert(audio@ == audio_positions(tracks_view(self.tracks@)));
        if audio.len() < 2 || audio.len() > MAX_AUDIO_STREAMS {
            return None;
        }
        let mut routes: Vec<AudioRoute> = Vec::new();
        let mut n: usize = 0;
        while n < audio.len()
            invariant
                n <= audio@.len() <= 8,
                routes@.len() == n,
                forall|k: int| 0 <= k < n ==> routes@[k] == route_at(audio@, k),
            decreases audio@.len() - n,
        {
            routes.push(
                AudioRoute {
                    track_index: audio[n],
                    start: n as u16 * CHANNELS_PER_TRACK,
                    channels: CHANNELS_PER_TRACK,
                },
            );
            n = n + 1;
        }
        assert(routes@ =~= Seq::new(audio@.len(), |n: int| route_at(audio@, n)));
        Some(AudioLayout { total_channels: audio.len() as u16 * CHANNELS_PER_TRACK, routes })
    }

    /// Gives every audio track its own pair of channels, and reports the
    /// layout. Nothing changes where no layout is needed.
    pub fn route_audio(&mut self) -> (layout: Option<AudioLayout>)
        ensures
            final(self).props == old(self).props,
            ({
                let before = tracks_view(old(self).tracks@);
                let audio = audio_positions(before);
                match layout {
                    Some(l) => {
                        &&& shares_output(audio)
                        &&& l.total_channels == 2 * audio.len()
                        &&& l.routes@ == Seq::new(audio.len(), |n: int| route_at(audio, n))
                        &&& tracks_view(final(self).tracks@) == routed_tracks(
                            before,
                            audio,
                            (2 * audio.len()) as u16,
                            audio.len(),
                        )
                    },
                    None => !shares_output(audio) && tracks_view(final(self).tracks@) == before,
                }
            }),
    {
        let layout = match self.audio_layout() {
            Some(l) => l,
            None => {
                return None;
            },
        };
        let count: usize = self.tracks.len();
        let ghost before = tracks_view(self.tracks@);
        let ghost audio = audio_positions(before);
        assert(before.len() == count);
        let ghost total = (2 * audio.len()) as u16;
        proof {
            lemma_positions(before, |k: TrackKind| k == TrackKind::Audio, before.len());
        }
        let mut n: usize = 0;
        while n < layout.routes.len()
            invariant
                self.props == old(self).props,
                shares_output(audio),
                audio.len() == layout.routes@.len(),
                layout.routes@ == Seq::new(audio.len(), |n: int| route_at(audio, n)),
                layout.total_channels == total,
                total == 2 * audio.len(),
                n <= layout.routes@.len(),
                forall|k: int| 0 <= k < audio.len() ==> (#[trigger] audio[k]) < before.len(),
                self.tracks@.len() == before.len(),
                tracks_view(self.tracks@) == routed_tracks(before, audio, total, n as nat),
            decreases layout.routes@.len() - n,
        {
            let route = layout.routes[n];
            assert(route == route_at(audio, n as int));
            let at: usize = route.track_index;
            let ghost held = tracks_view(self.tracks@);
            let mut entries: Vec<Entry> = Vec::new();
            std::mem::swap(&mut entries, &mut self.tracks[at].entries);
            let ghost taken = entries_view(entries@);
            assert(taken == held[at as int].entries);
            let routed = route_entries(entries, layout.total_channels, route.start);
            self.tracks[at].entries = routed;
            assert(tracks_view(self.tracks@) =~= routed_tracks(
                before,
                audio,
                total,
                (n + 1) as nat,
            ));
            n = n + 1;
        }
        Some(layout)
    }

    /// Removes the text tracks, and reports whether there were any.
    pub fn drop_text_tracks(&mut self) -> (dropped: bool)
        ensures
            final(self).props == old(self).props,
            tracks_view(final(self).tracks@) == tracks_view(old(self).tracks@).filter(
                |t: TrackView| t.kind != TrackKind::Text,
            ),
            dropped == exists|i: int|
                0 <= i < old(self).tracks@.len() && (#[trigger] old(self).tracks@[i]).kind
                    == TrackKind::Text,
    {
        let ghost keep = |t: TrackView| t.kind != TrackKind::Text;
        let mut rest: Vec<TrackProjection> = Vec::new();
        std::mem::swap(&mut rest, &mut self.tracks);
        let ghost all = tracks_view(rest@);
        let ghost items = rest@;
        let n: usize = rest.len();
        let mut dropped = false;
        let mut i: usize = 0;
        let mut kept: Vec<TrackProjection> = Vec::new();
        assert(tracks_view(kept@) =~= all.take(0).filter(keep)) by {
            reveal(Seq::filter);
        }
        while i < n
            invariant
                self.props == old(self).props,
                keep == (|t: TrackView| t.kind != TrackKind::Text),
                i <= n,
                n == items.len(),
                n == all.len(),
                all == tracks_view(items),
                rest@ == items.skip(i as int),
                tracks_view(kept@) == all.take(i as int).filter(keep),
                dropped == exists|k: int| 0 <= k < i && (#[trigger] items[k]).kind == TrackKind::Text,
            decreases n - i,
        {
            let track = rest.remove(0);
            assert(track == items[i as int]);
            assert(rest@ =~= items.skip(i as int + 1));
            assert(all.take(i as int + 1).drop_last() =~= all.take(i as int));
            assert(all.take(i as int + 1).last() == track@);
            proof {
                reveal(Seq::filter);
            }
            if track.kind != TrackKind::Text {
                let ghost held = tracks_view(kept@);
                kept.push(track);
                assert(tracks_view(kept@) =~= held.push(track@));
            } else {
                assert(items[i as int].kind == TrackKind::Text);
                dropped = true;
            }
            i = i + 1;
        }
        assert(all.take(n as int) =~= all);
        self.tracks = kept;
        dropped
    }

    /// Whether two projections have the same profile and the same tracks, so
    /// that one can be patched into the other.
    pub open spec fn shape_matches(self, other: Projection) -> bool {
        &&& self.props == other.props
        &&& self.tracks@.len() == other.tracks@.len()
        &&& forall|i: int|
            0 <= i < self.tracks@.len() ==> (#[trigger] self.tracks@[i]).id == other.tracks@[i].id
                && self.tracks@[i].kind == other.tracks@[i].kind
    }

    pub fn same_shape(&self, other: &Projection) -> (same: bool)
        ensures
            same == self.shape_matches(*other),
    {
        if self.props != other.props || self.tracks.len() != other.tracks.len() {
            return false;
        }
        let mut i: usize = 0;
        while i < self.tracks.len()
            invariant
                i <= self.tracks@.len(),
                self.tracks@.len() == other.tracks@.len(),
                forall|k: int|
                    0 <= k < i ==> (#[trigger] self.tracks@[k]).id == other.tracks@[k].id
                        && self.tracks@[k].kind == other.tracks@[k].kind,
            decreases self.tracks@.len() - i,
        {
            if self.tracks[i].id != other.tracks[i].id || self.tracks[i].kind
                != other.tracks[i].kind {
                assert(self.tracks@[i as int].id != other.tracks@[i as int].id
                    || self.tracks@[i as int].kind != other.tracks@[i as int].kind);
                return false;
            }
            i = i + 1;
        }
        true
    }
}

/// Puts `id` in its place in an increasing list, unless it is there already.
fn insert_sorted(v: &mut Vec<ClipId>, id: ClipId)
    requires
        forall|i: int, j: int| 0 <= i < j < old(v)@.len() ==> old(v)@[i].0 < old(v)@[j].0,
    ensures
        forall|i: int, j: int| 0 <= i < j < final(v)@.len() ==> final(v)@[i].0 < final(v)@[j].0,
        forall|other: ClipId|
            (#[trigger] final(v)@.contains(other)) == (old(v)@.contains(other) || other == id),
{
    let ghost before = v@;
    let mut i: usize = 0;
    while i < v.len() && v[i].0 < id.0
        invariant
            i <= v@.len(),
            v@ == before,
            forall|k: int| 0 <= k < i ==> v@[k].0 < id.0,
        decreases v@.len() - i,
    {
        i = i + 1;
    }
    if i < v.len() && v[i].0 == id.0 {
        assert(before[i as int] == id);
        assert(v@.contains(id));
        return ;
    }
    v.insert(i, id);
    assert forall|other: ClipId| (#[trigger] v@.contains(other)) == (before.contains(other) || other == id) by {
        if before.contains(other) {
            let k = choose|k: int| 0 <= k < before.len() && before[k] == other;
            assert(v@[if k < i { k } else { k + 1 }] == other);
        }
        if v@.contains(other) && other != id {
            let k = choose|k: int| 0 <= k < v@.len() && v@[k] == other;
            assert(before[if k < i { k } else { k - 1 }] == other);
        }
        assert(v@[i as int] == id);
    }
}

/// A projection has the tracks of its timeline, in their order. A track is
/// heard unless it is muted, or another is soloed and it is not.
pub proof fn a_projection_has_the_tracks_of_its_timeline(
    timeline: Timeline,
    registry: Registry,
    p: Projection,
    i: int,
)
    requires
        timeline.wf(),
        registry.wf(),
        call_ensures(Projection::of, (&timeline, &registry), p),
        0 <= i < timeline.tracks@.len(),
    ensures
        p.props == timeline.props,
        p.tracks@.len() == timeline.tracks@.len(),
        p.tracks@[i].id == timeline.tracks@[i].id,
        p.tracks@[i].name@ == timeline.tracks@[i].name@,
        p.tracks@[i].kind == timeline.tracks@[i].kind,
        timeline.tracks@[i].muted ==> p.tracks@[i].muted,
        timeline.tracks@[i].solo ==> p.tracks@[i].muted == timeline.tracks@[i].muted,
        forall|j: int|
            0 <= j < timeline.tracks@.len() && (#[trigger] timeline.tracks@[j]).solo
                && !timeline.tracks@[i].solo ==> p.tracks@[i].muted,
        (forall|j: int|
            0 <= j < timeline.tracks@.len() ==> !(#[trigger] timeline.tracks@[j]).solo)
            ==> p.tracks@[i].muted == timeline.tracks@[i].muted,
{
    assert(p.tracks@[i]@ == track_view(registry, timeline, i));
    assert(p.tracks@[i]@.name == p.tracks@[i].name@);
}

/// What a projection plays at a frame that one clip covers is that clip, at
/// the frame of its source that lies as far in.
pub proof fn a_projection_plays_its_timeline(
    timeline: Timeline,
    registry: Registry,
    p: Projection,
    i: int,
    k: int,
    f: int,
)
    requires
        timeline.wf(),
        registry.wf(),
        call_ensures(Projection::of, (&timeline, &registry), p),
        0 <= i < timeline.tracks@.len(),
        0 <= k < timeline.tracks@[i].clips@.len(),
        timeline.tracks@[i].clips@[k].start.0 + overlapped_before(timeline.tracks@[i], k) <= f,
        f < timeline.tracks@[i].clips@[k].start.0 + timeline.tracks@[i].clips@[k].duration.0
            - overlapped_after(timeline.tracks@[i], k),
    ensures
        ({
            let clip = timeline.tracks@[i].clips@[k];
            playing(entries_view(p.tracks@[i].entries@), f) matches Some((e, into)) && (
            e matches EntryView::Clip(c) && c.clip == clip.id && c.in_point.0 + into
                == clip.source_in.0 + (f - clip.start.0))
        }),
{
    assert(timeline.tracks@[i].wf());
    assert(p.tracks@[i]@ == track_view(registry, timeline, i));
    assert(p.tracks@[i]@.entries == entries_view(p.tracks@[i].entries@));
    every_frame_plays_its_source(registry, timeline.tracks@[i], k, f);
}

/// A transition that is played has what it plays: the two clips meet, each
/// keeps a frame of its own, and the media reach far enough beyond the cut.
pub proof fn a_transition_needs_its_handles(track: Track, k: int, t: Transition)
    requires
        track.wf(),
        track.attached_transition(k) == Some(t),
    ensures
        0 < k < track.clips@.len(),
        track.clips@[k].transition_in == Some(t),
        t.duration.0 >= 1,
        ({
            let before = track.clips@[k - 1];
            let clip = track.clips@[k];
            let head = t.duration.0 as int / 2;
            let tail = t.duration.0 - head;
            &&& before.start.0 + before.duration.0 == clip.start.0
            &&& overlapped_before(track, k - 1) + head < before.duration.0
            &&& tail + overlapped_after(track, k) < clip.duration.0
            &&& before.media matches Some(m) ==> m.offline || before.source_in.0
                + before.duration.0 + tail <= m.frames.0
            &&& clip.media matches Some(m) ==> m.offline || head <= clip.source_in.0
        }),
{
    lemma_room(track, k - 1);
    lemma_room(track, k);
    assert(track.clips@[k - 1].wf());
    if track.attached_transition(k - 1) is None {
        assert(overlapped_before(track, k - 1) == 0);
    }
    if track.attached_transition(k + 1) is None {
        assert(overlapped_after(track, k) == 0);
    }
}

/// A transition is played where two clips meet that are long enough, carry no
/// other, and have media that reach far enough.
pub proof fn a_transition_with_handles_is_played(track: Track, k: int, t: Transition)
    requires
        track.wf(),
        0 < k < track.clips@.len(),
        track.clips@[k].transition_in == Some(t),
        track.clips@[k - 1].transition_in is None,
        k + 1 < track.clips@.len() ==> track.clips@[k + 1].transition_in is None,
        t.duration.0 >= 1,
        track.clips@[k - 1].start.0 + track.clips@[k - 1].duration.0 == track.clips@[k].start.0,
        t.duration.0 <= track.clips@[k - 1].duration.0,
        t.duration.0 < track.clips@[k].duration.0,
        track.clips@[k - 1].source_in.0 + track.clips@[k - 1].duration.0 + t.duration.0 <= u64::MAX,
        track.clips@[k - 1].media matches Some(m) ==> track.clips@[k - 1].source_in.0
            + track.clips@[k - 1].duration.0 + t.duration.0 <= m.frames.0,
        t.duration.0 <= track.clips@[k].source_in.0,
    ensures
        track.attached_transition(k) == Some(t),
{
    assert(track.clips@[k - 1].wf());
    assert(track.clips@[k].wf());
}

/// An overlap is split at its cut, as evenly as its frames allow.
pub proof fn an_overlap_is_split_at_its_cut(t: Transition)
    ensures
        t.spec_head() + t.spec_tail() == t.duration.0,
        0 <= t.spec_tail() - t.spec_head() <= 1,
{
}

/// A clip has one filter for each thing that is set on it: a change of
/// loudness, a fade at each end, and, where it has a picture, a place and an
/// opacity. A fade begins with the first frame or ends with the last, runs
/// between nothing and everything, and is no longer than the clip.
pub proof fn a_clip_has_the_filters_that_are_set(clip: Clip, kind: TrackKind)
    requires
        clip.duration.0 >= 1,
    ensures
        ({
            let v = clip_filters(clip, kind);
            let sound = kind == TrackKind::Audio;
            let d = clip.duration.0 as int;
            let rise = if clip.props.fade_in.0 < d {
                clip.props.fade_in.0 as int
            } else {
                d
            };
            let fall = if clip.props.fade_out.0 < d {
                clip.props.fade_out.0 as int
            } else {
                d
            };
            let one = |service: Seq<char>, key: Seq<char>, value: Seq<char>|
                FilterView { service, props: seq![(key, value)] };
            &&& clip.props.gain_db matches Some(g) ==> v.contains(
                one("volume"@, "level"@, decimal_view(g)),
            )
            &&& clip.props.fade_in.0 > 0 ==> v.contains(
                if sound {
                    one("volume"@, "level"@, "0=-60;"@ + decimal((rise - 1) as nat) + "=0"@)
                } else {
                    one("brightness"@, "alpha"@, "0=0;"@ + decimal((rise - 1) as nat) + "=1"@)
                },
            )
            &&& clip.props.fade_out.0 > 0 ==> v.contains(
                if sound {
                    one(
                        "volume"@,
                        "level"@,
                        decimal((d - fall) as nat) + "=0;"@ + decimal((d - 1) as nat) + "=-60"@,
                    )
                } else {
                    one(
                        "brightness"@,
                        "alpha"@,
                        decimal((d - fall) as nat) + "=1;"@ + decimal((d - 1) as nat) + "=0"@,
                    )
                },
            )
            &&& !sound ==> (clip.props.opacity matches Some(o) ==> v.contains(
                one("brightness"@, "alpha"@, decimal_view(o)),
            ))
            &&& !sound ==> (clip.props.placement matches Some(p) ==> v.contains(
                one(
                    "qtblend"@,
                    "rect"@,
                    decimal_view(p.x) + " "@ + decimal_view(p.y) + " "@ + decimal_view(p.percent)
                        + "% "@ + decimal_view(p.percent) + "% 1"@,
                ),
            ))
            &&& v.len() == (if clip.props.gain_db is Some {
                1int
            } else {
                0
            }) + (if clip.props.fade_in.0 > 0 {
                1int
            } else {
                0
            }) + (if clip.props.fade_out.0 > 0 {
                1int
            } else {
                0
            }) + (if !sound && clip.props.placement is Some {
                1int
            } else {
                0
            }) + (if !sound && clip.props.opacity is Some {
                1int
            } else {
                0
            })
        }),
{
    let v = clip_filters(clip, kind);
    let a = gain_filters(clip);
    let b = fade_in_filters(clip, kind);
    let c = fade_out_filters(clip, kind);
    let e = picture_filters(clip, kind);
    reveal_strlit("0=-60;");
    reveal_strlit("0=0;");
    reveal_strlit("=0;");
    reveal_strlit("=1;");
    reveal_strlit("=-60");
    reveal_strlit("=0");
    reveal_strlit("=1");
    reveal_strlit("=");
    reveal_strlit(";");
    reveal_strlit("-60");
    reveal_strlit("0");
    reveal_strlit("1");
    let d = clip.duration.0 as int;
    if a.len() > 0 {
        assert(v[0] == a[0]);
    }
    if b.len() > 0 {
        assert(v[a.len() as int] == b[0]);
        let end = if clip.props.fade_in.0 - 1 < d - 1 {
            clip.props.fade_in.0 - 1
        } else {
            d - 1
        };
        let text = fade_view(kind, 0, end as nat, true);
        assert(decimal(0) =~= seq!['0']);
        if kind == TrackKind::Audio {
            assert(text =~= "0=-60;"@ + decimal(end as nat) + "=0"@);
        } else {
            assert(text =~= "0=0;"@ + decimal(end as nat) + "=1"@);
        }
    }
    if c.len() > 0 {
        assert(v[(a + b).len() as int] == c[0]);
        let back = (d - 1) - (clip.props.fade_out.0 - 1);
        let start = if back > 0 {
            back
        } else {
            0
        };
        let text = fade_view(kind, start as nat, (d - 1) as nat, false);
        if kind == TrackKind::Audio {
            assert(text =~= decimal(start as nat) + "=0;"@ + decimal((d - 1) as nat) + "=-60"@);
        } else {
            assert(text =~= decimal(start as nat) + "=1;"@ + decimal((d - 1) as nat) + "=0"@);
        }
    }
    if e.len() > 0 {
        assert(v[(a + b + c).len() as int] == e[0]);
        assert(v[v.len() - 1] == e.last());
    }
}

/// A number with four decimals reads back: what stands before the point and
/// what stands after it are its parts.
pub proof fn a_decimal_reads_back(d: Decimal)
    ensures
        ({
            let sign = if d.negative {
                seq!['-']
            } else {
                Seq::empty()
            };
            exists|whole: Seq<char>, rest: Seq<char>|
                {
                    &&& decimal_view(d) == sign + whole + seq!['.'] + rest
                    &&& rest.len() == 4
                    &&& #[trigger] digits_value(whole) matches Some(w) && (
                    #[trigger] digits_value(rest) matches Some(r) && 10000 * w + r == d.units)
                }
        }),
{
    let whole = decimal(d.units as nat / 10000);
    let rest = padded(d.units as nat % 10000, 4);
    a_number_reads_back(d.units as nat / 10000);
    a_padded_number_reads_back(d.units as nat % 10000, 4);
    let r = d.units as nat % 10000;
    assert(decimal(r).len() <= 4) by {
        reveal_with_fuel(decimal, 5);
    }
    reveal_strlit("-");
    reveal_strlit("");
    reveal_strlit(".");
    let sign = if d.negative {
        seq!['-']
    } else {
        Seq::empty()
    };
    assert(decimal_view(d) =~= sign + whole + seq!['.'] + rest);
    assert(digits_value(whole) == Some(d.units as int / 10000));
    assert(digits_value(rest) == Some(d.units as int % 10000));
}

/// Which channel of a source a channel of the output carries after one move:
/// a swap exchanges two, and a copy overwrites one.
pub open spec fn carried_after(held: spec_fn(int) -> Option<int>, m: ChannelMove) -> spec_fn(
    int,
) -> Option<int> {
    |c: int|
        if c == m.to {
            held(m.from as int)
        } else if c == m.from && m.swap {
            held(m.to as int)
        } else {
            held(c)
        }
}

/// Which channel of a source each channel carries after a list of moves.
pub open spec fn carried(held: spec_fn(int) -> Option<int>, moves: Seq<ChannelMove>) -> spec_fn(
    int,
) -> Option<int>
    decreases moves.len(),
{
    if moves.len() == 0 {
        held
    } else {
        carried_after(carried(held, moves.drop_last()), moves.last())
    }
}

/// Routing keeps left and right: the first channel of a pair carries the first
/// channel of its source and the second the second, and both carry a source
/// that has only one. No other channel carries anything of it.
pub proof fn routing_keeps_left_and_right(src_channels: u16, total: u16, start: u16)
    requires
        total > 2,
        src_channels >= 1,
        start < u16::MAX,
    ensures
        ({
            let at = arrivals(src_channels, total);
            let before = |c: int|
                if at.len() > 0 && at[0] as int == c {
                    Some(0int)
                } else if at.len() > 1 && at[1] as int == c {
                    Some(1int)
                } else {
                    None
                };
            let after = carried(before, routing_moves(src_channels, total, start));
            &&& after(start as int) == Some(0int)
            &&& after(start + 1) == Some(
                if src_channels == 1 {
                    0int
                } else {
                    1int
                },
            )
            &&& forall|c: int| c != start && c != start + 1 ==> (#[trigger] after(c)) is None
        }),
{
    let at = arrivals(src_channels, total);
    let before = |c: int|
        if at.len() > 0 && at[0] as int == c {
            Some(0int)
        } else if at.len() > 1 && at[1] as int == c {
            Some(1int)
        } else {
            None
        };
    let moves = routing_moves(src_channels, total, start);
    reveal_with_fuel(carried, 3);
    if moves.len() == 2 {
        assert(moves.drop_last().drop_last() =~= Seq::<ChannelMove>::empty());
        assert(moves.drop_last().last() == moves[0]);
        assert(carried(before, moves) == carried_after(carried_after(before, moves[0]), moves[1]));
    } else if moves.len() == 1 {
        assert(moves.drop_last() =~= Seq::<ChannelMove>::empty());
        assert(carried(before, moves) == carried_after(before, moves[0]));
    }
}

/// A mono source arrives in the centre of a larger output, and any other from
/// the first channel on; on at most two channels each arrives in its place.
pub proof fn sources_arrive_where_the_output_puts_them(src_channels: u16, total: u16)
    ensures
        total > 2 && src_channels == 1 ==> arrivals(src_channels, total) == seq![2u16],
        total > 2 && src_channels >= 2 ==> arrivals(src_channels, total) == seq![0u16, 1u16],
        total <= 2 ==> forall|i: int|
            0 <= i < arrivals(src_channels, total).len() ==> #[trigger] arrivals(
                src_channels,
                total,
            )[i] == i,
        total <= 2 ==> arrivals(src_channels, total).len() == if src_channels < total {
            src_channels
        } else {
            total
        },
        src_channels == 0 ==> arrivals(src_channels, total).len() == 0,
{
}

proof fn lemma_routed(tracks: Seq<TrackView>, audio: Seq<usize>, total: u16, n: nat)
    requires
        n <= audio.len(),
        forall|k: int| 0 <= k < audio.len() ==> (#[trigger] audio[k]) < tracks.len(),
        forall|j: int, k: int| 0 <= j < k < audio.len() ==> audio[j] < audio[k],
    ensures
        routed_tracks(tracks, audio, total, n).len() == tracks.len(),
        forall|k: int|
            0 <= k < n ==> routed_tracks(tracks, audio, total, n)[(#[trigger] audio[k]) as int] == (
            TrackView {
                entries: routed_entries(tracks[audio[k] as int].entries, total, (2 * k) as u16),
                ..tracks[audio[k] as int]
            }),
        forall|i: int|
            0 <= i < tracks.len() && (forall|k: int| 0 <= k < n ==> (#[trigger] audio[k]) != i)
                ==> #[trigger] routed_tracks(tracks, audio, total, n)[i] == tracks[i],
    decreases n,
{
    if n > 0 {
        let m = (n - 1) as nat;
        lemma_routed(tracks, audio, total, m);
        let before = routed_tracks(tracks, audio, total, m);
        let at = audio[n - 1] as int;
        assert(before[at] == tracks[at]) by {
            assert(forall|k: int| 0 <= k < m ==> (#[trigger] audio[k]) != at);
        }
        assert forall|i: int|
            0 <= i < tracks.len() && (forall|k: int| 0 <= k < n ==> (#[trigger] audio[k]) != i)
            implies #[trigger] routed_tracks(tracks, audio, total, n)[i] == tracks[i] by {
            assert(audio[n - 1] != i);
            assert(before[i] == tracks[i]);
        }
    }
}

/// Keeping audio tracks apart gives each its own pair of channels, in the order
/// of the tracks, adds only to the filters of their clips, behind those that
/// are there, and leaves every other track as it is.
pub proof fn every_audio_track_gets_its_own_pair(
    before: Projection,
    audio: Seq<usize>,
    k: int,
    i: int,
    e: int,
)
    requires
        before.tracks@.len() <= usize::MAX,
        audio == audio_positions(tracks_view(before.tracks@)),
        shares_output(audio),
        0 <= k < audio.len(),
        0 <= i < before.tracks@.len(),
        before.tracks@[i].kind != TrackKind::Audio,
        0 <= e < before.tracks@[audio[k] as int].entries@.len(),
    ensures
        ({
            let tracks = tracks_view(before.tracks@);
            let after = routed_tracks(tracks, audio, (2 * audio.len()) as u16, audio.len());
            let was = tracks[audio[k] as int].entries[e];
            let is = after[audio[k] as int].entries[e];
            &&& audio[k] < tracks.len()
            &&& tracks[audio[k] as int].kind == TrackKind::Audio
            &&& route_at(audio, k).track_index == audio[k]
            &&& route_at(audio, k).start == 2 * k
            &&& route_at(audio, k).channels == 2
            &&& after.len() == tracks.len()
            &&& after[i] == tracks[i]
            &&& after[audio[k] as int].id == tracks[audio[k] as int].id
            &&& after[audio[k] as int].muted == tracks[audio[k] as int].muted
            &&& after[audio[k] as int].entries.len() == tracks[audio[k] as int].entries.len()
            &&& !(was is Clip) ==> is == was
            &&& was matches EntryView::Clip(c) ==> (is matches EntryView::Clip(d) && {
                &&& d.in_point == c.in_point && d.out_point == c.out_point
                &&& d.clip == c.clip && d.resource == c.resource && d.stream == c.stream
                &&& d.filters == c.filters + move_filters(
                    routing_moves(
                        match c.channels {
                            Some(n) => n,
                            None => 2,
                        },
                        (2 * audio.len()) as u16,
                        (2 * k) as u16,
                    ),
                )
            })
        }),
{
    let tracks = tracks_view(before.tracks@);
    let wanted = |t: TrackKind| t == TrackKind::Audio;
    lemma_positions(tracks, wanted, tracks.len());
    lemma_routed(tracks, audio, (2 * audio.len()) as u16, audio.len());
    assert(forall|n: int| 0 <= n < audio.len() ==> (#[trigger] audio[n]) != i) by {
        assert forall|n: int| 0 <= n < audio.len() implies (#[trigger] audio[n]) != i by {
            assert(wanted(tracks[audio[n] as int].kind));
        }
    }
    assert(wanted(tracks[audio[k] as int].kind));
}

/// One projection is patched into another only where both have the same profile
/// and, place by place, the same tracks of the same kinds.
pub proof fn tracks_that_differ_are_not_patched(a: Projection, b: Projection, i: int)
    ensures
        a.shape_matches(a),
        a.props != b.props ==> !a.shape_matches(b),
        a.tracks@.len() != b.tracks@.len() ==> !a.shape_matches(b),
        0 <= i < a.tracks@.len() && i < b.tracks@.len() && (a.tracks@[i].id != b.tracks@[i].id
            || a.tracks@[i].kind != b.tracks@[i].kind) ==> !a.shape_matches(b),
{
    if 0 <= i < a.tracks@.len() && i < b.tracks@.len() && a.shape_matches(b) {
        assert(a.tracks@[i].id == b.tracks@[i].id);
    }
}

} // verus!
