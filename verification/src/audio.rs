//! Audio sources and the decisions of the audio engine that do not touch
//! samples: which host devices become sources and under which identifiers,
//! which device an identifier designates, and which routes carry a frame.

use vstd::prelude::*;
use vstd::string::*;
use crate::devices::{DeviceProbe, StreamFormat};
use crate::routing::Route;
use crate::text::{
    chars_of, contains_seq, decimal, lemma_labelled_index, parse_index, parse_index_chars,
    push_decimal, starts_with, str_contains, strip_prefix_chars, ParseIndexError,
};

verus! {

/// The identifier of the loopback capture of the default output device.
pub const LOOPBACK_DEFAULT_ID: &'static str = "loopback_default";

/// The kind of an audio source.
#[derive(Debug, Clone, Copy, PartialEq, Eq, Structural)]
pub enum DeviceType {
    Microphone,
    SystemAudio,
    AudioFile,
    NetworkStream,
}

/// The name of a device kind, as it is shown to the user.
pub open spec fn device_type_name(t: DeviceType) -> Seq<char> {
    match t {
        DeviceType::Microphone => "Microphone"@,
        DeviceType::SystemAudio => "SystemAudio"@,
        DeviceType::AudioFile => "AudioFile"@,
        DeviceType::NetworkStream => "NetworkStream"@,
    }
}

impl DeviceType {
    /// The name of the kind: `Microphone`, `SystemAudio`, `AudioFile` or
    /// `NetworkStream`.
    pub fn name(&self) -> (s: String)
        ensures
            s@ == device_type_name(*self),
    {
        match self {
            DeviceType::Microphone => String::from_str("Microphone"),
            DeviceType::SystemAudio => String::from_str("SystemAudio"),
            DeviceType::AudioFile => String::from_str("AudioFile"),
            DeviceType::NetworkStream => String::from_str("NetworkStream"),
        }
    }
}

/// A device that audio can be captured from or played to.
#[derive(Debug)]
pub struct AudioSource {
    pub id: String,
    pub name: String,
    pub device_type: DeviceType,
    pub sample_rate: u32,
    pub channels: u16,
}

impl Clone for AudioSource {
    fn clone(&self) -> (r: Self)
        ensures
            r == *self,
    {
        AudioSource {
            id: self.id.clone(),
            name: self.name.clone(),
            device_type: self.device_type,
            sample_rate: self.sample_rate,
            channels: self.channels,
        }
    }
}

/// Whether the host told both the name and the default format of a device.
pub open spec fn known(p: DeviceProbe) -> bool {
    p.name is Some && p.format is Some
}

/// The enumeration indices of the probes whose name and format are known,
/// in order.
pub open spec fn known_indices(probes: Seq<DeviceProbe>) -> Seq<nat>
    decreases probes.len(),
{
    if probes.len() == 0 {
        Seq::empty()
    } else {
        let rest = known_indices(probes.drop_last());
        if known(probes.last()) {
            rest.push((probes.len() - 1) as nat)
        } else {
            rest
        }
    }
}

/// Whether `s` is the source listed for the probe `p` at enumeration index
/// `index`, with identifier `<prefix><index>` and kind `t`.
pub open spec fn source_from(
    s: AudioSource,
    p: DeviceProbe,
    index: nat,
    prefix: Seq<char>,
    t: DeviceType,
) -> bool {
    &&& s.id@ == prefix + decimal(index)
    &&& p.name == Some(s.name)
    &&& p.format == Some(StreamFormat { channels: s.channels, sample_rate: s.sample_rate })
    &&& s.device_type == t
}

/// Whether `r` lists, in order, one source per probe whose name and format
/// are known, identified by `prefix` and the probe's index, of kind `t`.
pub open spec fn lists_sources(
    r: Seq<AudioSource>,
    probes: Seq<DeviceProbe>,
    prefix: Seq<char>,
    t: DeviceType,
) -> bool {
    &&& r.len() == known_indices(probes).len()
    &&& forall|k: int|
        0 <= k < r.len() ==> source_from(
            #[trigger] r[k],
            probes[known_indices(probes)[k] as int],
            known_indices(probes)[k],
            prefix,
            t,
        )
}

/// Whether `s` is the loopback capture of the default output.
pub open spec fn is_loopback_source(s: AudioSource) -> bool {
    &&& s.id@ == "loopback_default"@
    &&& s.name@ == "System Speaker Loopback (Default Output)"@
    &&& s.device_type == DeviceType::SystemAudio
    &&& s.sample_rate == 48000
    &&& s.channels == 2
}

fn sources_from_probes(probes: &Vec<DeviceProbe>, prefix: &str, t: DeviceType) -> (r: Vec<
    AudioSource,
>)
    ensures
        lists_sources(r@, probes@, prefix@, t),
{
    let mut out: Vec<AudioSource> = Vec::new();
    let mut i: usize = 0;
    while i < probes.len()
        invariant
            i <= probes@.len(),
            lists_sources(out@, probes@.take(i as int), prefix@, t),
            forall|k: int|
                0 <= k < known_indices(probes@.take(i as int)).len() ==> #[trigger] known_indices(
                    probes@.take(i as int),
                )[k] < i,
        decreases probes@.len() - i,
    {
        let ghost before = probes@.take(i as int);
        let ghost after = probes@.take(i + 1);
        proof {
            assert(after.drop_last() =~= before);
            assert(after.last() == probes@[i as int]);
            assert forall|k: int| 0 <= k < known_indices(before).len() implies after[#[trigger] known_indices(
                before,
            )[k] as int] == before[known_indices(before)[k] as int] by {}
        }
        let probe = &probes[i];
        match (&probe.name, probe.format) {
            (Some(name), Some(f)) => {
                let mut id = String::from_str(prefix);
                push_decimal(&mut id, i as u64);
                let src = AudioSource {
                    id,
                    name: name.clone(),
                    device_type: t,
                    sample_rate: f.sample_rate,
                    channels: f.channels,
                };
                out.push(src);
                proof {
                    assert(known_indices(after) == known_indices(before).push(i as nat));
                    assert forall|k: int| 0 <= k < out@.len() implies source_from(
                        #[trigger] out@[k],
                        after[known_indices(after)[k] as int],
                        known_indices(after)[k],
                        prefix@,
                        t,
                    ) by {
                        if k < out@.len() - 1 {
                            assert(known_indices(after)[k] == known_indices(before)[k]);
                        }
                    }
                }
            },
            _ => {
                proof {
                    assert(known_indices(after) == known_indices(before));
                }
            },
        }
        i = i + 1;
    }
    proof {
        assert(probes@.take(i as int) =~= probes@);
    }
    out
}

/// The input sources of the host: one microphone `mic_<index>` per input
/// device whose name and default input format are known, in enumeration
/// order, followed by the loopback capture of the default output when
/// `include_loopback` (the platform offers loopback capture).
pub fn input_sources(probes: &Vec<DeviceProbe>, include_loopback: bool) -> (r: Vec<AudioSource>)
    ensures
        include_loopback ==> r@.len() == known_indices(probes@).len() + 1 && is_loopback_source(
            r@.last(),
        ) && lists_sources(r@.drop_last(), probes@, "mic_"@, DeviceType::Microphone),
        !include_loopback ==> lists_sources(r@, probes@, "mic_"@, DeviceType::Microphone),
{
    let mut out = sources_from_probes(probes, "mic_", DeviceType::Microphone);
    if include_loopback {
        let ghost listed = out@;
        out.push(
            AudioSource {
                id: String::from_str(LOOPBACK_DEFAULT_ID),
                name: String::from_str("System Speaker Loopback (Default Output)"),
                device_type: DeviceType::SystemAudio,
                sample_rate: 48000,
                channels: 2,
            },
        );
        proof {
            assert(out@.drop_last() =~= listed);
        }
    }
    out
}

/// The output devices of the host: one `out_<index>` of kind `SystemAudio`
/// per output device whose name and default output format are known, in
/// enumeration order.
pub fn output_sources(probes: &Vec<DeviceProbe>) -> (r: Vec<AudioSource>)
    ensures
        lists_sources(r@, probes@, "out_"@, DeviceType::SystemAudio),
{
    sources_from_probes(probes, "out_", DeviceType::SystemAudio)
}

/// Why no input device could be found for an identifier.
#[derive(Debug, Clone, Copy, PartialEq, Eq, Structural)]
pub enum InputDeviceError {
    /// The identifier is `mic_` followed by something that is not an index.
    BadIndex(ParseIndexError),
    /// The identifier is `mic_<index>` and the host has no input device at
    /// that index.
    IndexNotFound(usize),
    /// No input device's name contains the identifier.
    NotFound,
    /// The host could not list its input devices.
    Unavailable,
}


impl InputDeviceError {
    /// The human-readable description of the error for the identifier
    /// `device_id`.
    pub fn message(&self, device_id: &str) -> (m: String)
        ensures
            self matches InputDeviceError::BadIndex(e) ==> (e == ParseIndexError::Empty ==> m@
                == "cannot parse integer from empty string"@) && (e
                == ParseIndexError::InvalidDigit ==> m@ == "invalid digit found in string"@) && (e
                == ParseIndexError::PosOverflow ==> m@
                == "number too large to fit in target type"@),
            self matches InputDeviceError::IndexNotFound(i) ==> m@ == "Input device index "@
                + decimal(i as nat) + " not found"@,
            *self == InputDeviceError::NotFound ==> m@ == "Input device not found for id "@
                + device_id@,
            *self == InputDeviceError::Unavailable ==> m@
                == "Input devices could not be listed"@,
    {
        match self {
            InputDeviceError::BadIndex(e) => e.message(),
            InputDeviceError::IndexNotFound(i) => {
                let mut m = String::from_str("Input device index ");
                push_decimal(&mut m, *i as u64);
                m.append(" not found");
                m
            },
            InputDeviceError::NotFound => {
                let mut m = String::from_str("Input device not found for id ");
                m.append(device_id);
                m
            },
            InputDeviceError::Unavailable => String::from_str("Input devices could not be listed"),
        }
    }
}

/// The index of the first name in `names` that is known and contains `id`.
pub open spec fn first_name_containing(names: Seq<Option<String>>, id: Seq<char>) -> Option<int> {
    if exists|i: int|
        0 <= i < names.len() && #[trigger] names[i] is Some && contains_seq(names[i]->0@, id) {
        Some(
            choose|i: int|
                0 <= i < names.len() && #[trigger] names[i] is Some && contains_seq(
                    names[i]->0@,
                    id,
                ) && forall|j: int|
                    0 <= j < i ==> !(names[j] is Some && contains_seq(names[j]->0@, id)),
        )
    } else {
        None
    }
}

/// The input device that `device_id` designates among the host's input
/// devices, given by their names (`None` where a name is unknown), or `None`
/// for the whole list when the host could not list them.
pub open spec fn input_device_for(
    device_id: Seq<char>,
    names: Option<Seq<Option<String>>>,
) -> Result<usize, InputDeviceError> {
    let by_name = match names {
        None => Err(InputDeviceError::Unavailable),
        Some(ns) => match first_name_containing(ns, device_id) {
            Some(i) => Ok(i as usize),
            None => Err(InputDeviceError::NotFound),
        },
    };
    if starts_with(device_id, "mic_"@) {
        match parse_index(device_id.subrange(4, device_id.len() as int)) {
            Err(e) => Err(InputDeviceError::BadIndex(e)),
            Ok(index) => match names {
                Some(ns) => if index < ns.len() {
                    Ok(index)
                } else {
                    Err(InputDeviceError::IndexNotFound(index))
                },
                None => by_name,
            },
        }
    } else {
        by_name
    }
}

fn find_name_containing(names: &Vec<Option<String>>, device_id: &str) -> (r: Option<usize>)
    ensures
        match r {
            Some(i) => first_name_containing(names@, device_id@) == Some(i as int),
            None => first_name_containing(names@, device_id@) is None,
        },
{
    let mut i: usize = 0;
    while i < names.len()
        invariant
            i <= names@.len(),
            forall|j: int|
                0 <= j < i ==> !(#[trigger] names@[j] is Some && contains_seq(
                    names@[j]->0@,
                    device_id@,
                )),
        decreases names@.len() - i,
    {
        match &names[i] {
            Some(name) => {
                if str_contains(name.as_str(), device_id) {
                    proof {
                        let p = choose|p: int|
                            0 <= p < names@.len() && #[trigger] names@[p] is Some && contains_seq(
                                names@[p]->0@,
                                device_id@,
                            ) && forall|j: int|
                                0 <= j < p ==> !(names@[j] is Some && contains_seq(
                                    names@[j]->0@,
                                    device_id@,
                                ));
                        assert(names@[i as int] is Some);
                        if p < i {
                        } else if p > i {
                            assert(!(names@[i as int] is Some && contains_seq(
                                names@[i as int]->0@,
                                device_id@,
                            )));
                        }
                    }
                    return Some(i);
                }
            },
            None => {},
        }
        i = i + 1;
    }
    None
}

/// The position of the input device that `device_id` designates: for
/// `mic_<index>` the device at that index; otherwise the first device whose
/// name contains the identifier. `names` lists the host's input devices by
/// name (`None` where a name is unknown), or is `None` when the host could
/// not list them.
pub fn resolve_input_device_by_id(device_id: &str, names: Option<&Vec<Option<String>>>) -> (r:
    Result<usize, InputDeviceError>)
    ensures
        r == input_device_for(
            device_id@,
            match names {
                Some(ns) => Some(ns@),
                None => None,
            },
        ),
        !starts_with(device_id@, "mic_"@) && names is Some ==> match r {
            Ok(i) => i < names->0@.len() && names->0@[i as int] is Some && contains_seq(
                names->0@[i as int]->0@,
                device_id@,
            ) && forall|j: int|
                0 <= j < i ==> !(#[trigger] names->0@[j] is Some && contains_seq(
                    names->0@[j]->0@,
                    device_id@,
                )),
            Err(e) => e == InputDeviceError::NotFound && forall|j: int|
                0 <= j < names->0@.len() ==> !(#[trigger] names->0@[j] is Some && contains_seq(
                    names->0@[j]->0@,
                    device_id@,
                )),
        },
{
    if let Some(ns) = names {
        let _len: usize = ns.len();
        proof {
            lemma_name_lookup(device_id@, ns@);
        }
    }
    let id = chars_of(device_id);
    match strip_prefix_chars(&id, "mic_") {
        Some(rest) => {
            proof {
                reveal_strlit("mic_");
            }
            match parse_index_chars(&rest) {
                Err(e) => {
                    return Err(InputDeviceError::BadIndex(e));
                },
                Ok(index) => match names {
                    Some(ns) => {
                        if index < ns.len() {
                            return Ok(index);
                        } else {
                            return Err(InputDeviceError::IndexNotFound(index));
                        }
                    },
                    None => {},
                },
            }
        },
        None => {},
    }
    match names {
        None => Err(InputDeviceError::Unavailable),
        Some(ns) => match find_name_containing(ns, device_id) {
            Some(i) => Ok(i),
            None => Err(InputDeviceError::NotFound),
        },
    }
}

/// The index of the output device that the identifier designates: `Some(i)`
/// exactly for `out_<i>`.
pub fn output_device_index(output_id: &str) -> (r: Option<usize>)
    ensures
        r is Some <==> starts_with(output_id@, "out_"@) && parse_index(
            output_id@.subrange(4, output_id@.len() as int),
        ) is Ok,
        r matches Some(i) ==> parse_index(output_id@.subrange(4, output_id@.len() as int)) == Ok::<
            usize,
            ParseIndexError,
        >(i),
{
    let id = chars_of(output_id);
    match strip_prefix_chars(&id, "out_") {
        Some(rest) => {
            proof {
                reveal_strlit("out_");
            }
            match parse_index_chars(&rest) {
                Ok(i) => Some(i),
                Err(_) => None,
            }
        },
        None => {
            proof {
                reveal_strlit("out_");
            }
            None
        },
    }
}

/// Whether a frame captured from `input_id` is delivered over `r`: the route
/// leaves that input and is not muted.
pub open spec fn carries<M>(r: Route<M>, input_id: Seq<char>) -> bool {
    r.input_id@ == input_id && !r.muted
}

/// The routes, in order, that deliver a frame captured from `input_id`.
pub fn routes_carrying<M: Copy>(routes: &Vec<Route<M>>, input_id: &str) -> (r: Vec<Route<M>>)
    ensures
        r@ == routes@.filter(|x: Route<M>| carries(x, input_id@)),
        forall|i: int|
            0 <= i < routes@.len() && (#[trigger] routes@[i]).input_id@ == input_id@
                && !routes@[i].muted ==> r@.contains(routes@[i]),
        forall|k: int|
            0 <= k < r@.len() ==> (#[trigger] r@[k]).input_id@ == input_id@ && !r@[k].muted
                && routes@.contains(r@[k]),
{
    let key = String::from_str(input_id);
    let ghost pred = |x: Route<M>| carries(x, input_id@);
    let mut out: Vec<Route<M>> = Vec::new();
    let mut i: usize = 0;
    while i < routes.len()
        invariant
            i <= routes@.len(),
            key@ == input_id@,
            pred == (|x: Route<M>| carries(x, input_id@)),
            out@ == routes@.take(i as int).filter(pred),
        decreases routes@.len() - i,
    {
        proof {
            reveal_with_fuel(Seq::<_>::filter, 1);
            assert(routes@.take(i + 1).drop_last() =~= routes@.take(i as int));
        }
        if routes[i].input_id == key && !routes[i].muted {
            out.push(routes[i].clone());
        }
        i = i + 1;
    }
    proof {
        assert(routes@.take(i as int) =~= routes@);
    }
    proof {
        lemma_routes_carrying(routes@, input_id@, out@);
    }
    out
}

/// The identifier `mic_<i>` under which an input source is listed designates
/// the input device at index `i` again.
pub proof fn lemma_mic_id_resolves(i: nat, names: Seq<Option<String>>)
    requires
        i < names.len(),
        i <= usize::MAX,
    ensures
        input_device_for("mic_"@ + decimal(i), Some(names)) == Ok::<usize, InputDeviceError>(
            i as usize,
        ),
{
    reveal_strlit("mic_");
    lemma_labelled_index("mic_"@, i);
}

/// The identifier `out_<i>` under which an output device is listed designates
/// the output device at index `i` again.
pub proof fn lemma_out_id_resolves(i: nat)
    requires
        i <= usize::MAX,
    ensures
        starts_with("out_"@ + decimal(i), "out_"@),
        parse_index(("out_"@ + decimal(i)).subrange(4, ("out_"@ + decimal(i)).len() as int))
            == Ok::<usize, ParseIndexError>(i as usize),
{
    reveal_strlit("out_");
    lemma_labelled_index("out_"@, i);
}

/// The effect settings of each capture device, keyed by device identifier.
/// The settings themselves are opaque here: they are a type parameter `S`.
pub struct DspSettingsTable<S> {
    entries: Vec<(String, S)>,
}

impl<S> View for DspSettingsTable<S> {
    type V = Seq<(String, S)>;

    /// The devices and their settings, in the order in which the devices were
    /// first given settings.
    closed spec fn view(&self) -> Seq<(String, S)> {
        self.entries@
    }
}

impl<S> DspSettingsTable<S> {
    /// Whether the device `id` has settings.
    pub open spec fn contains_id(&self, id: Seq<char>) -> bool {
        exists|i: int| 0 <= i < self@.len() && #[trigger] self@[i].0@ == id
    }

    /// The position of the device `id` (meaningful when `contains_id(id)`).
    pub open spec fn position_of(&self, id: Seq<char>) -> int {
        choose|i: int| 0 <= i < self@.len() && #[trigger] self@[i].0@ == id
    }

    /// The settings of the device `id`, if any.
    pub open spec fn lookup(&self, id: Seq<char>) -> Option<S> {
        if self.contains_id(id) {
            Some(self@[self.position_of(id)].1)
        } else {
            None
        }
    }

    /// Each device appears once.
    pub open spec fn wf(&self) -> bool {
        forall|i: int, j: int|
            0 <= i < j < self@.len() ==> #[trigger] self@[i].0@ != #[trigger] self@[j].0@
    }

    /// In a well-formed table the entry found by identifier is the only one
    /// with that identifier.
    pub proof fn lemma_lookup_unique(&self, i: int)
        requires
            self.wf(),
            0 <= i < self@.len(),
        ensures
            self.contains_id(self@[i].0@),
            self.position_of(self@[i].0@) == i,
            self.lookup(self@[i].0@) == Some(self@[i].1),
    {
        let id = self@[i].0@;
        assert(self@[i].0@ == id);
        let p = self.position_of(id);
        if p != i {
            if p < i {
                assert(self@[p].0@ != self@[i].0@);
            } else {
                assert(self@[i].0@ != self@[p].0@);
            }
        }
    }
}

/// Whether `after` is `before` with the settings of `id` set to `settings`:
/// in place when `id` had settings, appended otherwise.
pub open spec fn written<S>(
    before: DspSettingsTable<S>,
    after: DspSettingsTable<S>,
    id: Seq<char>,
    settings: S,
) -> bool {
    if before.contains_id(id) {
        let p = before.position_of(id);
        &&& after@.len() == before@.len()
        &&& after@[p].0@ == id
        &&& after@ == before@.update(p, (after@[p].0, settings))
    } else {
        &&& after@.len() == before@.len() + 1
        &&& after@.last().0@ == id
        &&& after@ == before@.push((after@.last().0, settings))
    }
}

impl<S: Copy> DspSettingsTable<S> {
    /// An empty table.
    pub fn new() -> (t: Self)
        ensures
            t.wf(),
            t@ == Seq::<(String, S)>::empty(),
    {
        DspSettingsTable { entries: Vec::new() }
    }

    fn position(&self, id: &String) -> (r: Option<usize>)
        requires
            self.wf(),
        ensures
            match r {
                Some(i) => i < self@.len() && self@[i as int].0@ == id@ && self.position_of(id@)
                    == i,
                None => !self.contains_id(id@),
            },
    {
        let mut i: usize = 0;
        while i < self.entries.len()
            invariant
                self.wf(),
                i <= self@.len(),
                forall|j: int| 0 <= j < i ==> #[trigger] self@[j].0@ != id@,
            decreases self@.len() - i,
        {
            if self.entries[i].0 == *id {
                proof {
                    self.lemma_lookup_unique(i as int);
                }
                return Some(i);
            }
            i = i + 1;
        }
        None
    }

    /// Gives the device `device_id` the settings `settings`, replacing any it
    /// had.
    pub fn set_device_dsp(&mut self, device_id: &str, settings: S)
        requires
            old(self).wf(),
        ensures
            final(self).wf(),
            written(*old(self), *final(self), device_id@, settings),
    {
        let key = String::from_str(device_id);
        let ghost old_entries = self@;
        match self.position(&key) {
            Some(i) => {
                self.entries.set(i, (key, settings));
                proof {
                    assert forall|a: int, b: int| 0 <= a < b < self@.len() implies #[trigger] self@[a].0@
                        != #[trigger] self@[b].0@ by {
                        assert(self@[a].0@ == old_entries[a].0@);
                        assert(self@[b].0@ == old_entries[b].0@);
                    }
                }
            },
            None => {
                proof {
                    assert forall|k: int| 0 <= k < old_entries.len() implies old_entries[k].0@
                        != device_id@ by {
                        assert(self@[k].0@ == old_entries[k].0@);
                    }
                }
                self.entries.push((key, settings));
                proof {
                    assert forall|a: int, b: int| 0 <= a < b < self@.len() implies #[trigger] self@[a].0@
                        != #[trigger] self@[b].0@ by {
                        if b == old_entries.len() {
                            assert(old_entries[a].0@ != device_id@);
                        } else {
                            assert(old_entries[a].0@ != old_entries[b].0@);
                        }
                    }
                }
            },
        }
    }

    /// The settings of the device `device_id`; fails with `No DSP config for
    /// device <device_id>` when it has none.
    pub fn get_device_dsp(&self, device_id: &str) -> (r: Result<S, String>)
        requires
            self.wf(),
        ensures
            r is Ok <==> self.contains_id(device_id@),
            r matches Ok(s) ==> self.lookup(device_id@) == Some(s),
            r matches Err(e) ==> e@ == "No DSP config for device "@ + device_id@,
    {
        let key = String::from_str(device_id);
        match self.position(&key) {
            Some(i) => {
                proof {
                    self.lemma_lookup_unique(i as int);
                }
                Ok(self.entries[i].1)
            },
            None => {
                let mut e = String::from_str("No DSP config for device ");
                e.append(device_id);
                Err(e)
            },
        }
    }

    /// Copies of all devices and their settings, in order.
    pub fn get_all_dsp_settings(&self) -> (r: Vec<(String, S)>)
        ensures
            r@ == self@,
    {
        let mut out: Vec<(String, S)> = Vec::new();
        let mut i: usize = 0;
        while i < self.entries.len()
            invariant
                i <= self@.len(),
                out@ == self@.take(i as int),
            decreases self@.len() - i,
        {
            let entry = (self.entries[i].0.clone(), self.entries[i].1);
            out.push(entry);
            proof {
                assert(out@ =~= self@.take(i + 1));
            }
            i = i + 1;
        }
        proof {
            assert(self@.take(i as int) =~= self@);
        }
        out
    }
}

/// After settings are given to a device, reading that device's settings gives
/// them back, and every other device keeps its settings.
pub proof fn lemma_dsp_read_after_write<S>(
    before: DspSettingsTable<S>,
    after: DspSettingsTable<S>,
    device_id: Seq<char>,
    settings: S,
)
    requires
        before.wf(),
        after.wf(),
        written(before, after, device_id, settings),
    ensures
        after.lookup(device_id) == Some(settings),
        forall|other: Seq<char>| other != device_id ==> #[trigger] after.lookup(other) == before.lookup(
            other,
        ),
{
    let p = if before.contains_id(device_id) {
        before.position_of(device_id)
    } else {
        before@.len() as int
    };
    if before.contains_id(device_id) {
        before.lemma_lookup_unique(p);
    }
    after.lemma_lookup_unique(p);
    assert forall|other: Seq<char>| other != device_id implies #[trigger] after.lookup(other)
        == before.lookup(other) by {
        if before.contains_id(other) {
            let q = before.position_of(other);
            before.lemma_lookup_unique(q);
            assert(after@[q] == before@[q]);
            after.lemma_lookup_unique(q);
        } else if after.contains_id(other) {
            let q = after.position_of(other);
            if q == p {
                assert(after@[q].0@ == device_id);
            } else {
                assert(after@[q] == before@[q]);
            }
        }
    }
}

proof fn lemma_least_name(names: Seq<Option<String>>, id: Seq<char>, i: int)
    requires
        0 <= i < names.len(),
        names[i] is Some && contains_seq(names[i]->0@, id),
    ensures
        exists|p: int|
            0 <= p < names.len() && #[trigger] names[p] is Some && contains_seq(names[p]->0@, id)
                && forall|j: int| 0 <= j < p ==> !(names[j] is Some && contains_seq(names[j]->0@, id)),
    decreases i,
{
    if exists|j: int| 0 <= j < i && #[trigger] names[j] is Some && contains_seq(names[j]->0@, id) {
        let j = choose|j: int| 0 <= j < i && #[trigger] names[j] is Some && contains_seq(names[j]->0@, id);
        lemma_least_name(names, id, j);
    } else {
        assert(names[i] is Some);
    }
}

/// The first name containing an identifier is the known name at the least
/// index, counted from zero, that contains it; there is none exactly when no
/// known name contains it.
pub proof fn lemma_first_name_containing(names: Seq<Option<String>>, id: Seq<char>)
    ensures
        match first_name_containing(names, id) {
            Some(i) => 0 <= i < names.len() && names[i] is Some && contains_seq(names[i]->0@, id)
                && forall|j: int|
                0 <= j < i ==> !(#[trigger] names[j] is Some && contains_seq(names[j]->0@, id)),
            None => forall|j: int|
                0 <= j < names.len() ==> !(#[trigger] names[j] is Some && contains_seq(
                    names[j]->0@,
                    id,
                )),
        },
{
    if exists|i: int| 0 <= i < names.len() && #[trigger] names[i] is Some && contains_seq(names[i]->0@, id) {
        let i = choose|i: int| 0 <= i < names.len() && #[trigger] names[i] is Some && contains_seq(names[i]->0@, id);
        lemma_least_name(names, id, i);
    }
}

/// An identifier without the `mic_` prefix designates, among listed input
/// devices, the one at the least index (counted from zero) whose known name
/// contains it, and is reported as not found exactly when no known name
/// contains it.
pub proof fn lemma_name_lookup(device_id: Seq<char>, names: Seq<Option<String>>)
    requires
        names.len() <= usize::MAX,
    ensures
        !starts_with(device_id, "mic_"@) ==> match input_device_for(device_id, Some(names)) {
            Ok(i) => i < names.len() && names[i as int] is Some && contains_seq(
                names[i as int]->0@,
                device_id,
            ) && forall|j: int|
                0 <= j < i ==> !(#[trigger] names[j] is Some && contains_seq(
                    names[j]->0@,
                    device_id,
                )),
            Err(e) => e == InputDeviceError::NotFound && forall|j: int|
                0 <= j < names.len() ==> !(#[trigger] names[j] is Some && contains_seq(
                    names[j]->0@,
                    device_id,
                )),
        },
{
    lemma_first_name_containing(names, device_id);
}

/// A frame captured from an input travels over exactly the unmuted routes
/// that leave that input: each of them is chosen, and each chosen route is
/// an unmuted route of the list leaving that input.
pub proof fn lemma_routes_carrying<M>(
    routes: Seq<Route<M>>,
    input_id: Seq<char>,
    chosen: Seq<Route<M>>,
)
    requires
        chosen == routes.filter(|x: Route<M>| carries(x, input_id)),
    ensures
        forall|i: int|
            0 <= i < routes.len() && (#[trigger] routes[i]).input_id@ == input_id
                && !routes[i].muted ==> chosen.contains(routes[i]),
        forall|k: int|
            0 <= k < chosen.len() ==> (#[trigger] chosen[k]).input_id@ == input_id
                && !chosen[k].muted && routes.contains(chosen[k]),
{
    let pred = |x: Route<M>| carries(x, input_id);
    assert forall|i: int|
        0 <= i < routes.len() && (#[trigger] routes[i]).input_id@ == input_id
            && !routes[i].muted implies chosen.contains(routes[i]) by {
        routes.lemma_filter_contains(pred, i);
    }
    assert forall|k: int| 0 <= k < chosen.len() implies (#[trigger] chosen[k]).input_id@
        == input_id && !chosen[k].muted && routes.contains(chosen[k]) by {
        routes.lemma_filter_pred(pred, k);
        assert(chosen.contains(chosen[k]));
        routes.lemma_filter_contains_rev(pred, chosen[k]);
    }
}

/// Sources are listed for exactly the enumeration indices whose name and
/// format the host told, in increasing order of index.
pub proof fn lemma_sources_listed_exactly(probes: Seq<DeviceProbe>)
    ensures
        forall|i: int|
            0 <= i < probes.len() ==> (known_indices(probes).contains(i as nat) <==> (
            #[trigger] probes[i]).name is Some && probes[i].format is Some),
        forall|k: int|
            0 <= k < known_indices(probes).len() ==> #[trigger] known_indices(probes)[k]
                < probes.len(),
        forall|a: int, b: int|
            0 <= a < b < known_indices(probes).len() ==> #[trigger] known_indices(probes)[a]
                < #[trigger] known_indices(probes)[b],
    decreases probes.len(),
{
    if probes.len() > 0 {
        let rest = probes.drop_last();
        lemma_sources_listed_exactly(rest);
        let q = known_indices(rest);
        let n = (probes.len() - 1) as nat;
        if known(probes.last()) {
            let qq = q.push(n);
            assert(known_indices(probes) == qq);
            assert forall|a: int, b: int| 0 <= a < b < qq.len() implies #[trigger] qq[a]
                < #[trigger] qq[b] by {
                if b < q.len() {
                    assert(qq[a] == q[a] && qq[b] == q[b]);
                } else {
                    assert(qq[a] == q[a]);
                }
            }
            assert forall|k: int| 0 <= k < qq.len() implies #[trigger] qq[k] < probes.len() by {
                if k < q.len() {
                    assert(qq[k] == q[k]);
                }
            }
        } else {
            assert(known_indices(probes) == q);
        }
        assert forall|i: int| 0 <= i < probes.len() implies (known_indices(probes).contains(
            i as nat,
        ) <==> (#[trigger] probes[i]).name is Some && probes[i].format is Some) by {
            if i < n {
                assert(rest[i] == probes[i]);
                if known(probes.last()) {
                    let qq = q.push(n);
                    if qq.contains(i as nat) {
                        let k = choose|k: int| 0 <= k < qq.len() && qq[k] == i as nat;
                        if k < q.len() {
                            assert(q[k] == i as nat);
                            assert(q.contains(i as nat));
                        }
                    }
                    if q.contains(i as nat) {
                        let k = choose|k: int| 0 <= k < q.len() && q[k] == i as nat;
                        assert(qq[k] == i as nat);
                    }
                }
            } else {
                assert(probes.last() == probes[i]);
                if known(probes.last()) {
                    let qq = q.push(n);
                    assert(qq[q.len() as int] == n);
                } else {
                    if q.contains(n) {
                        let k = choose|k: int| 0 <= k < q.len() && q[k] == n;
                        assert(q[k] < rest.len());
                    }
                }
            }
        }
    }
}

} // verus!
