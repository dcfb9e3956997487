//! Whether to decode and encode in hardware.
//!
//! Acceleration is opt-in and never makes a machine worse off, and every
//! failure degrades to software with one complete sentence. The decision is
//! taken per source, because a hardware decode with its readback loses on
//! small or short-GOP pictures.
use vstd::prelude::*;
use vstd::string::*;

use crate::text::begins_with;
use crate::text::comes_before;
use crate::text::join3;
use crate::text::lemma_precedes_total;
use crate::text::lemma_precedes_transitive;
use crate::text::lower_text;
use crate::text::lowered;
use crate::text::precedes;
use crate::text::same_text;
use crate::text::starts_with;

verus! {

/// Where a session decodes.
#[derive(Clone, Copy, Debug, PartialEq, Eq, Structural)]
pub enum DecodePolicy {
    Cpu,
    Auto,
}

/// Where a session encodes.
#[derive(Clone, Copy, Debug, PartialEq, Eq, Structural)]
pub enum EncodePolicy {
    Cpu,
    Auto,
}

/// What a preset asks of the encoder.
#[derive(Clone, Copy, Debug, PartialEq, Eq, Structural)]
pub enum HardwareEncode {
    Off,
    Preferred,
    Required,
}

/// What a session is doing, for the user to read.
#[derive(Debug, PartialEq, Eq)]
pub struct AccelerationStatus {
    pub policy: DecodePolicy,
    pub method: Option<String>,
    pub detail: String,
    pub encode: EncodePolicy,
}

impl AccelerationStatus {
    pub open spec fn on_hardware(self) -> bool {
        self.method is Some
    }

    pub fn is_hardware(&self) -> (b: bool)
        ensures
            b == self.on_hardware(),
    {
        self.method.is_some()
    }
}

/// Pictures smaller than this are decoded in software.
pub const MIN_PIXELS: u64 = 921600;

/// The codecs whose decode is expensive enough to hand to a device.
pub open spec fn is_long_gop(codec: Seq<char>) -> bool {
    codec == "h264"@ || codec == "hevc"@ || codec == "h265"@ || codec == "vp9"@ || codec == "av1"@
        || codec == "mpeg2video"@
}

fn long_gop(codec: &str) -> (b: bool)
    ensures
        b == is_long_gop(codec@),
{
    same_text(codec, "h264") || same_text(codec, "hevc") || same_text(codec, "h265") || same_text(
        codec,
        "vp9",
    ) || same_text(codec, "av1") || same_text(codec, "mpeg2video")
}

/// What one source is decoded with.
#[derive(Debug, PartialEq, Eq)]
pub struct Choice {
    pub method: &'static str,
    pub device: String,
}

/// The hardware encoder that produces what a software encoder produces.
pub open spec fn equivalent_encoder(software: Seq<char>) -> Option<Seq<char>> {
    if software == "libx264"@ {
        Some("h264_vaapi"@)
    } else if software == "libx265"@ {
        Some("hevc_vaapi"@)
    } else if software == "libvpx-vp9"@ {
        Some("vp9_vaapi"@)
    } else {
        None
    }
}

fn hardware_encoder(software: &str) -> (found: Option<String>)
    ensures
        match found {
            Some(e) => equivalent_encoder(software@) == Some(e@),
            None => equivalent_encoder(software@) is None,
        },
{
    if same_text(software, "libx264") {
        Some("h264_vaapi".to_owned())
    } else if same_text(software, "libx265") {
        Some("hevc_vaapi".to_owned())
    } else if same_text(software, "libvpx-vp9") {
        Some("vp9_vaapi".to_owned())
    } else {
        None
    }
}

/// What an export encodes with.
#[derive(Debug, PartialEq, Eq)]
pub enum EncodeChoice {
    Software,
    Hardware { encoder: String, device: String },
    Refused(String),
}

/// The contents of an [`EncodeChoice`].
pub enum EncodeChoiceView {
    Software,
    Hardware(Seq<char>, Seq<char>),
    Refused(Seq<char>),
}

impl View for EncodeChoice {
    type V = EncodeChoiceView;

    open spec fn view(&self) -> EncodeChoiceView {
        match self {
            EncodeChoice::Software => EncodeChoiceView::Software,
            EncodeChoice::Hardware { encoder, device } => EncodeChoiceView::Hardware(
                encoder@,
                device@,
            ),
            EncodeChoice::Refused(reason) => EncodeChoiceView::Refused(reason@),
        }
    }
}

/// The policy of a session, and what was found on the machine.
#[derive(Debug)]
pub struct Acceleration {
    policy: DecodePolicy,
    encode: EncodePolicy,
    /// Encoders that have been tried, newest last, and whether they worked.
    verified: Vec<(String, bool)>,
    device: Option<String>,
    /// Set by a decode that failed after the device was accepted.
    failure: Option<String>,
}

/// The contents of an [`Acceleration`].
pub struct AccelerationView {
    pub policy: DecodePolicy,
    pub encode: EncodePolicy,
    pub verified: spec_fn(Seq<char>) -> Option<bool>,
    pub device: Option<Seq<char>>,
    pub failure: Option<Seq<char>>,
}

/// The text that an option holds.
pub open spec fn text_view(o: Option<String>) -> Option<Seq<char>> {
    match o {
        Some(s) => Some(s@),
        None => None,
    }
}

/// What the last trial of an encoder, among the first `n`, found.
pub open spec fn last_trial(trials: Seq<(String, bool)>, encoder: Seq<char>, n: nat) -> Option<bool>
    decreases n,
{
    if n == 0 {
        None
    } else if trials[n - 1].0@ == encoder {
        Some(trials[n - 1].1)
    } else {
        last_trial(trials, encoder, (n - 1) as nat)
    }
}

/// The sentence of a session that decodes in software by choice.
pub open spec fn cpu_sentence() -> Seq<char> {
    "Hardware decode is off because the decode setting is cpu."@
}

/// The sentence of a session that found no device.
pub open spec fn no_device_sentence() -> Seq<char> {
    "Hardware decode is off because this machine has no usable render device; davimci is decoding in software."@
}

/// The sentence of a session whose device failed.
pub open spec fn failure_sentence(reason: Seq<char>) -> Seq<char> {
    "Hardware decode stopped working ("@ + reason
        + "), so davimci has fallen back to software decode for this session."@
}

/// The sentence of a session that decodes in hardware.
pub open spec fn hardware_sentence(device: Seq<char>) -> Seq<char> {
    "Hardware decode is using VAAPI on "@ + device
        + " for long-GOP sources; everything else decodes in software."@
}

/// What a session says it is doing.
pub open spec fn detail_view(a: AccelerationView) -> Seq<char> {
    if a.policy == DecodePolicy::Cpu {
        cpu_sentence()
    } else {
        match a.failure {
            Some(reason) => reason,
            None => match a.device {
                Some(device) => hardware_sentence(device),
                None => no_device_sentence(),
            },
        }
    }
}

/// Whether a session decodes in hardware at all.
pub open spec fn is_active(a: AccelerationView) -> bool {
    a.policy == DecodePolicy::Auto && a.failure is None && a.device is Some
}

/// What a status says of a session.
pub open spec fn status_describes(s: AccelerationStatus, a: AccelerationView) -> bool {
    &&& s.policy == a.policy
    &&& s.on_hardware() == is_active(a)
    &&& s.on_hardware() ==> s.method->Some_0@ == "vaapi"@
    &&& s.detail@ == detail_view(a)
    &&& s.encode == a.encode
}

/// The sentence that refuses an export for want of an equivalent encoder.
pub open spec fn no_equivalent_sentence(software: Seq<char>) -> Seq<char> {
    "This export was refused because the preset requires a hardware encoder and no hardware encoder produces what "@
        + software + " produces."@
}

/// The sentence that refuses an export for want of a device.
pub open spec fn no_encode_device_sentence() -> Seq<char> {
    "This export was refused because the preset requires a hardware encoder and this machine has no usable render device."@
}

/// The sentence that refuses an export for want of an encoder that works.
pub open spec fn refusal_sentence(encoder: Seq<char>) -> Seq<char> {
    "This export was refused because the preset requires a hardware encoder and this machine's graphics driver has no working "@
        + encoder + " encoder."@
}

/// What an export encodes with: a session set to accelerate prefers hardware,
/// a preset that requires it binds, and one that merely prefers it is never
/// refused.
pub open spec fn encode_choice(
    a: AccelerationView,
    software: Seq<char>,
    request: HardwareEncode,
) -> EncodeChoiceView {
    let required = request == HardwareEncode::Required;
    if !required && a.encode == EncodePolicy::Cpu {
        EncodeChoiceView::Software
    } else {
        match (equivalent_encoder(software), a.device) {
            (Some(encoder), Some(device)) => EncodeChoiceView::Hardware(encoder, device),
            (None, _) => if required {
                EncodeChoiceView::Refused(no_equivalent_sentence(software))
            } else {
                EncodeChoiceView::Software
            },
            (Some(_), None) => if required {
                EncodeChoiceView::Refused(no_encode_device_sentence())
            } else {
                EncodeChoiceView::Software
            },
        }
    }
}

fn copy_text(o: &Option<String>) -> (c: Option<String>)
    ensures
        text_view(c) == text_view(*o),
{
    match o {
        Some(s) => Some(s.clone()),
        None => None,
    }
}

impl Acceleration {
    /// The state of the session.
    pub closed spec fn view(self) -> AccelerationView {
        AccelerationView {
            policy: self.policy,
            encode: self.encode,
            verified: |encoder: Seq<char>|
                last_trial(self.verified@, encoder, self.verified@.len()),
            device: text_view(self.device),
            failure: text_view(self.failure),
        }
    }

    /// A session on `policy`, on a machine with `devices`. The first device
    /// is used.
    pub fn with_devices(policy: DecodePolicy, devices: &[String]) -> (a: Self)
        ensures
            a.view().policy == policy,
            a.view().encode == EncodePolicy::Cpu,
            forall|e: Seq<char>| #[trigger] (a.view().verified)(e) is None,
            a.view().device == if devices@.len() == 0 {
                None::<Seq<char>>
            } else {
                Some(devices@[0]@)
            },
            a.view().failure is None,
    {
        let device = if devices.len() == 0 {
            None
        } else {
            Some(devices[0].clone())
        };
        Acceleration {
            policy,
            encode: EncodePolicy::Cpu,
            verified: Vec::new(),
            device,
            failure: None,
        }
    }

    /// What a trial of an encoder found, or `None` if it has not been tried.
    pub fn encoder_verified(&self, encoder: &str) -> (found: Option<bool>)
        ensures
            found == (self.view().verified)(encoder@),
    {
        let mut i: usize = self.verified.len();
        while i > 0
            invariant
                i <= self.verified@.len(),
                last_trial(self.verified@, encoder@, i as nat) == last_trial(
                    self.verified@,
                    encoder@,
                    self.verified@.len(),
                ),
            decreases i,
        {
            if same_text(self.verified[i - 1].0.as_str(), encoder) {
                return Some(self.verified[i - 1].1);
            }
            i = i - 1;
        }
        None
    }

    /// Records what a trial of an encoder found.
    pub fn mark_encoder(&mut self, encoder: &str, works: bool)
        ensures
            final(self).view().policy == old(self).view().policy,
            final(self).view().encode == old(self).view().encode,
            final(self).view().device == old(self).view().device,
            final(self).view().failure == old(self).view().failure,
            forall|e: Seq<char>|
                #[trigger] (final(self).view().verified)(e) == if e == encoder@ {
                    Some(works)
                } else {
                    (old(self).view().verified)(e)
                },
    {
        let ghost before = self.verified@;
        self.verified.push((encoder.to_owned(), works));
        let ghost after = self.verified@;
        proof {
            assert forall|e: Seq<char>| #[trigger] (self.view().verified)(e) == if e == encoder@ {
                Some(works)
            } else {
                (old(self).view().verified)(e)
            } by {
                lemma_last_trial_prefix(before, after, e, before.len());
            }
        }
    }

    /// The sentence that refuses a required encode that the machine cannot
    /// perform.
    pub fn encoder_refusal(encoder: &str) -> (s: String)
        ensures
            s@ == refusal_sentence(encoder@),
    {
        join3(
            "This export was refused because the preset requires a hardware encoder and this machine's graphics driver has no working ",
            encoder,
            " encoder.",
        )
    }

    pub fn encode_policy(&self) -> (p: EncodePolicy)
        ensures
            p == self.view().encode,
    {
        self.encode
    }

    /// Switches where exports encode, and says what the session is doing.
    pub fn set_encode_policy(&mut self, encode: EncodePolicy) -> (s: AccelerationStatus)
        ensures
            final(self).view() == (AccelerationView { encode, ..old(self).view() }),
            status_describes(s, final(self).view()),
    {
        self.encode = encode;
        self.status()
    }

    /// What to encode one export with, where `software` is the encoder that
    /// its preset resolved to.
    pub fn encoder_for(&self, software: &str, request: HardwareEncode) -> (c: EncodeChoice)
        ensures
            c@ == encode_choice(self.view(), software@, request),
    {
        let required = request == HardwareEncode::Required;
        if !required && self.encode == EncodePolicy::Cpu {
            return EncodeChoice::Software;
        }
        match (hardware_encoder(software), copy_text(&self.device)) {
            (Some(encoder), Some(device)) => EncodeChoice::Hardware { encoder, device },
            (None, _) => if required {
                EncodeChoice::Refused(
                    join3(
                        "This export was refused because the preset requires a hardware encoder and no hardware encoder produces what ",
                        software,
                        " produces.",
                    ),
                )
            } else {
                EncodeChoice::Software
            },
            (Some(_), None) => if required {
                EncodeChoice::Refused(
                    "This export was refused because the preset requires a hardware encoder and this machine has no usable render device.".to_owned(),
                )
            } else {
                EncodeChoice::Software
            },
        }
    }

    pub fn policy(&self) -> (p: DecodePolicy)
        ensures
            p == self.view().policy,
    {
        self.policy
    }

    /// Switches where the session decodes, and says what it is doing. A new
    /// opt-in is a fresh attempt, so it forgets an earlier failure.
    pub fn set_policy(&mut self, policy: DecodePolicy) -> (s: AccelerationStatus)
        ensures
            final(self).view() == (AccelerationView {
                policy,
                failure: if policy == DecodePolicy::Auto {
                    None
                } else {
                    old(self).view().failure
                },
                ..old(self).view()
            }),
            status_describes(s, final(self).view()),
    {
        self.policy = policy;
        if policy == DecodePolicy::Auto {
            self.failure = None;
        }
        self.status()
    }

    /// Notes that a decode failed in hardware, so that the rest of the session
    /// stays on software.
    pub fn record_failure(&mut self, reason: &str) -> (s: AccelerationStatus)
        ensures
            final(self).view() == (AccelerationView {
                failure: Some(failure_sentence(reason@)),
                ..old(self).view()
            }),
            status_describes(s, final(self).view()),
    {
        self.failure = Some(
            join3(
                "Hardware decode stopped working (",
                reason,
                "), so davimci has fallen back to software decode for this session.",
            ),
        );
        self.status()
    }

    /// What the session is doing, as a complete sentence.
    pub fn status(&self) -> (s: AccelerationStatus)
        ensures
            status_describes(s, self.view()),
    {
        let detail = if self.policy == DecodePolicy::Cpu {
            "Hardware decode is off because the decode setting is cpu.".to_owned()
        } else {
            match &self.failure {
                Some(reason) => reason.clone(),
                None => match &self.device {
                    Some(device) => join3(
                        "Hardware decode is using VAAPI on ",
                        device.as_str(),
                        " for long-GOP sources; everything else decodes in software.",
                    ),
                    None => "Hardware decode is off because this machine has no usable render device; davimci is decoding in software.".to_owned(),
                },
            }
        };
        let method = if self.active() {
            Some("vaapi".to_owned())
        } else {
            None
        };
        AccelerationStatus { policy: self.policy, method, detail, encode: self.encode }
    }

    fn active(&self) -> (b: bool)
        ensures
            b == is_active(self.view()),
    {
        self.policy == DecodePolicy::Auto && self.failure.is_none() && self.device.is_some()
    }

    /// What to decode one source with, given its codec and picture size;
    /// `None` is software.
    pub fn choose_decoder(&self, codec: Option<&str>, pixels: u64) -> (c: Option<Choice>)
        ensures
            match c {
                Some(c) => {
                    &&& is_active(self.view())
                    &&& codec is Some
                    &&& is_long_gop(lowered(codec->Some_0@))
                    &&& pixels >= MIN_PIXELS
                    &&& c.method@ == "vaapi"@
                    &&& Some(c.device@) == self.view().device
                },
                None => !is_active(self.view()) || codec is None || !is_long_gop(
                    lowered(codec->Some_0@),
                ) || pixels < MIN_PIXELS,
            },
    {
        if !self.active() {
            return None;
        }
        let named = match codec {
            Some(c) => lower_text(c),
            None => {
                return None;
            },
        };
        if !long_gop(named.as_str()) || pixels < MIN_PIXELS {
            return None;
        }
        match &self.device {
            Some(d) => Some(Choice { method: "vaapi", device: d.clone() }),
            None => None,
        }
    }
}

proof fn lemma_last_trial_prefix(
    before: Seq<(String, bool)>,
    after: Seq<(String, bool)>,
    e: Seq<char>,
    n: nat,
)
    requires
        n <= before.len(),
        after.len() == before.len() + 1,
        forall|i: int| 0 <= i < before.len() ==> after[i] == before[i],
    ensures
        last_trial(after, e, n) == last_trial(before, e, n),
    decreases n,
{
    if n > 0 {
        lemma_last_trial_prefix(before, after, e, (n - 1) as nat);
    }
}

/// A device that failed is not asked again until the user opts in again.
pub proof fn a_failure_is_sticky(a: AccelerationView, reason: Seq<char>, encode: EncodePolicy)
    ensures
        !is_active(AccelerationView { failure: Some(failure_sentence(reason)), encode, ..a }),
        a.device is Some ==> is_active(
            AccelerationView { policy: DecodePolicy::Auto, failure: None, encode, ..a },
        ),
{
}

/// An export that does not require hardware is never refused.
pub proof fn only_a_requirement_is_refused(
    a: AccelerationView,
    software: Seq<char>,
    request: HardwareEncode,
)
    requires
        request != HardwareEncode::Required,
    ensures
        !(encode_choice(a, software, request) is Refused),
{
}

/// Every file name that is a render node.
pub open spec fn is_render_node(name: Seq<char>) -> bool {
    begins_with(name, "renderD"@)
}

/// The contents of a list of texts.
pub open spec fn texts_view(v: Seq<String>) -> Seq<Seq<char>> {
    Seq::new(v.len(), |i: int| v[i]@)
}

/// The texts are in order.
pub open spec fn in_order(v: Seq<Seq<char>>) -> bool {
    forall|i: int, j: int| 0 <= i < j < v.len() ==> !precedes(#[trigger] v[j], #[trigger] v[i])
}

fn insert_text(v: &mut Vec<String>, s: String)
    requires
        in_order(texts_view(old(v)@)),
    ensures
        in_order(texts_view(final(v)@)),
        texts_view(final(v)@).to_multiset() == texts_view(old(v)@).to_multiset().insert(s@),
{
    let ghost before = texts_view(v@);
    let mut i: usize = 0;
    while i < v.len() && !comes_before(s.as_str(), v[i].as_str())
        invariant
            i <= v@.len(),
            before == texts_view(v@),
            forall|k: int| 0 <= k < i ==> !precedes(s@, #[trigger] before[k]),
        decreases v@.len() - i,
    {
        assert(before[i as int] == v@[i as int]@);
        i = i + 1;
    }
    let ghost added = s@;
    proof {
        assert forall|k: int| i <= k < before.len() implies !precedes(#[trigger] before[k], added) by {
            assert(before[i as int] == v@[i as int]@);
            lemma_precedes_total(before[i as int], added);
            if precedes(before[k], added) {
                lemma_precedes_transitive(before[k], added, before[i as int]);
                if k > i {
                    assert(!precedes(before[k], before[i as int]));
                }
            }
        }
    }
    v.insert(i, s);
    let ghost after = texts_view(v@);
    proof {
        assert(after =~= before.insert(i as int, added));
        before.to_multiset_ensures();
        vstd::seq_lib::to_multiset_insert(before, i as int, added);
        assert forall|a: int, b: int| 0 <= a < b < after.len() implies !precedes(
            #[trigger] after[b],
            #[trigger] after[a],
        ) by {
            if a == i {
                assert(after[b] == before[b - 1]);
            } else if b == i {
                assert(after[a] == before[a]);
            } else {
                let x = if a < i { a } else { a - 1 };
                let y = if b < i { b } else { b - 1 };
                assert(after[a] == before[x]);
                assert(after[b] == before[y]);
                assert(!precedes(before[y], before[x]));
            }
        }
    }
}

/// The render nodes among the names in the device directory, in order, so
/// that the choice is the same every time.
pub fn render_nodes(names: &[String]) -> (nodes: Vec<String>)
    ensures
        in_order(texts_view(nodes@)),
        texts_view(nodes@).to_multiset() == texts_view(names@).filter(
            |n: Seq<char>| is_render_node(n),
        ).to_multiset(),
{
    let ghost wanted = |n: Seq<char>| is_render_node(n);
    let ghost all = texts_view(names@);
    let mut nodes: Vec<String> = Vec::new();
    let mut i: usize = 0;
    proof {
        assert(texts_view(nodes@) =~= all.take(0).filter(wanted)) by {
            reveal(Seq::filter);
        }
    }
    while i < names.len()
        invariant
            i <= names@.len(),
            all == texts_view(names@),
            wanted == (|n: Seq<char>| is_render_node(n)),
            in_order(texts_view(nodes@)),
            texts_view(nodes@).to_multiset() == all.take(i as int).filter(wanted).to_multiset(),
        decreases names@.len() - i,
    {
        let ghost name = all[i as int];
        let ghost kept = all.take(i as int).filter(wanted);
        assert(all.take(i as int + 1).drop_last() =~= all.take(i as int));
        assert(all.take(i as int + 1).last() == name);
        proof {
            reveal(Seq::filter);
            kept.to_multiset_ensures();
        }
        if starts_with(names[i].as_str(), "renderD") {
            insert_text(&mut nodes, names[i].clone());
        }
        i = i + 1;
    }
    assert(all.take(i as int) =~= all);
    nodes
}

/// An encoder in hardware produces what the one in software produces: the same
/// format, or none is used.
pub proof fn hardware_encodes_the_same_format(a: AccelerationView, device: Seq<char>)
    requires
        a.device == Some(device),
    ensures
        ({
            let chosen = |software: Seq<char>|
                encode_choice(a, software, HardwareEncode::Required);
            &&& chosen("libx264"@) == EncodeChoiceView::Hardware("h264_vaapi"@, device)
            &&& chosen("libx265"@) == EncodeChoiceView::Hardware("hevc_vaapi"@, device)
            &&& chosen("libvpx-vp9"@) == EncodeChoiceView::Hardware("vp9_vaapi"@, device)
            &&& forall|other: Seq<char>|
                other != "libx264"@ && other != "libx265"@ && other != "libvpx-vp9"@
                    ==> #[trigger] encode_choice(a, other, HardwareEncode::Required) is Refused
        }),
{
    reveal_strlit("libx264");
    reveal_strlit("libx265");
    reveal_strlit("libvpx-vp9");
    assert("libx264"@.len() == 7 && "libx264"@[6] == '4');
    assert("libx265"@.len() == 7 && "libx265"@[6] == '5');
    assert("libvpx-vp9"@.len() == 10);
}

/// Hardware is used for an export only where it was asked for, by the session
/// or by the preset, and where there is a device; a preset that requires it is
/// refused where it cannot be had, and always given it otherwise.
pub proof fn hardware_is_used_where_it_was_asked_for(
    a: AccelerationView,
    software: Seq<char>,
    request: HardwareEncode,
)
    ensures
        ({
            let c = encode_choice(a, software, request);
            &&& c matches EncodeChoiceView::Hardware(_, d) ==> a.device == Some(d) && (request
                == HardwareEncode::Required || a.encode == EncodePolicy::Auto)
            &&& c is Refused ==> request == HardwareEncode::Required && !(a.device is Some
                && equivalent_encoder(software) is Some)
            &&& c is Software ==> request != HardwareEncode::Required
            &&& a.device is Some && equivalent_encoder(software) is Some && (request
                == HardwareEncode::Required || a.encode == EncodePolicy::Auto) ==> c is Hardware
        }),
{
}

/// A session decodes in hardware only where it was asked to, has a device, and
/// has not failed, and says which of these it is.
pub proof fn a_session_says_what_it_does(a: AccelerationView)
    ensures
        is_active(a) <==> a.policy == DecodePolicy::Auto && a.device is Some && a.failure is None,
        a.policy == DecodePolicy::Cpu ==> detail_view(a) == cpu_sentence(),
        a.policy == DecodePolicy::Auto && a.failure is Some ==> detail_view(a)
            == a.failure->Some_0,
        is_active(a) ==> detail_view(a) == hardware_sentence(a.device->Some_0),
        a.policy == DecodePolicy::Auto && a.failure is None && a.device is None ==> detail_view(a)
            == no_device_sentence(),
{
}

/// What is known of an encoder is what its last trial found.
pub proof fn the_last_trial_counts(trials: Seq<(String, bool)>, encoder: Seq<char>, n: nat)
    requires
        n <= trials.len(),
    ensures
        match last_trial(trials, encoder, n) {
            Some(b) => exists|i: int|
                {
                    &&& 0 <= i < n
                    &&& (#[trigger] trials[i]).0@ == encoder
                    &&& trials[i].1 == b
                    &&& forall|k: int| i < k < n ==> (#[trigger] trials[k]).0@ != encoder
                },
            None => forall|k: int| 0 <= k < n ==> (#[trigger] trials[k]).0@ != encoder,
        },
    decreases n,
{
    if n > 0 {
        the_last_trial_counts(trials, encoder, (n - 1) as nat);
        assert(trials[n - 1].0@ == trials[n - 1].0@);
    }
}

} // verus!
