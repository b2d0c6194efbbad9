//! The logic behind the application's commands: the device list shown to the
//! user, route edits addressed by input and output, preset file names and the
//! timestamps written into presets.

use vstd::prelude::*;
use vstd::string::*;
use crate::audio::{device_type_name, AudioSource};
use crate::devices::VirtualDevice;
use crate::routing::{route_label, Route, RoutingMatrix};
use crate::text::{
    alphanumeric, chars_of, unicode_alphanumeric, ends_with, ends_with_chars, is_alphanumeric, push_char,
    push_zero_padded, sort_strings, sorted_lex, string_of_chars, views, zero_padded, decimal, digit_char,
};

verus! {

/// A device as it is listed to the user.
#[derive(Debug)]
pub struct AudioDeviceInfo {
    pub id: String,
    pub name: String,
    pub device_type: String,
    pub sample_rate: u32,
    pub channels: u16,
}

impl Clone for AudioDeviceInfo {
    fn clone(&self) -> (r: Self)
        ensures
            r == *self,
    {
        AudioDeviceInfo {
            id: self.id.clone(),
            name: self.name.clone(),
            device_type: self.device_type.clone(),
            sample_rate: self.sample_rate,
            channels: self.channels,
        }
    }
}

/// Whether `info` lists the source `s`, its kind given by name.
pub open spec fn describes_source(info: AudioDeviceInfo, s: AudioSource) -> bool {
    &&& info.id == s.id
    &&& info.name == s.name
    &&& info.device_type@ == device_type_name(s.device_type)
    &&& info.sample_rate == s.sample_rate
    &&& info.channels == s.channels
}

/// Whether `info` lists the virtual device `v`, of kind `Virtual`.
pub open spec fn describes_virtual(info: AudioDeviceInfo, v: VirtualDevice) -> bool {
    &&& info.id == v.id
    &&& info.name == v.name
    &&& info.device_type@ == "Virtual"@
    &&& info.sample_rate == v.sample_rate
    &&& info.channels == v.channels
}

fn info_of_source(s: &AudioSource) -> (r: AudioDeviceInfo)
    ensures
        describes_source(r, *s),
{
    AudioDeviceInfo {
        id: s.id.clone(),
        name: s.name.clone(),
        device_type: s.device_type.name(),
        sample_rate: s.sample_rate,
        channels: s.channels,
    }
}

/// The list of devices shown to the user: the input sources, then the output
/// devices, then the virtual devices, each in its given order.
pub fn get_audio_devices(
    inputs: &Vec<AudioSource>,
    outputs: &Vec<AudioSource>,
    virtuals: &Vec<VirtualDevice>,
) -> (r: Vec<AudioDeviceInfo>)
    requires
        inputs@.len() + outputs@.len() + virtuals@.len() <= usize::MAX,
    ensures
        r@.len() == inputs@.len() + outputs@.len() + virtuals@.len(),
        forall|k: int| 0 <= k < inputs@.len() ==> describes_source(#[trigger] r@[k], inputs@[k]),
        forall|k: int|
            0 <= k < outputs@.len() ==> describes_source(
                #[trigger] r@[inputs@.len() + k],
                outputs@[k],
            ),
        forall|k: int|
            0 <= k < virtuals@.len() ==> describes_virtual(
                #[trigger] r@[inputs@.len() + outputs@.len() + k],
                virtuals@[k],
            ),
{
    let mut out: Vec<AudioDeviceInfo> = Vec::new();
    let mut i: usize = 0;
    while i < inputs.len()
        invariant
            i <= inputs@.len(),
            out@.len() == i,
            forall|k: int| 0 <= k < i ==> describes_source(#[trigger] out@[k], inputs@[k]),
        decreases inputs@.len() - i,
    {
        out.push(info_of_source(&inputs[i]));
        i = i + 1;
    }
    let mut j: usize = 0;
    while j < outputs.len()
        invariant
            j <= outputs@.len(),
            out@.len() == inputs@.len() + j,
            forall|k: int| 0 <= k < inputs@.len() ==> describes_source(#[trigger] out@[k], inputs@[k]),
            forall|k: int|
                0 <= k < j ==> describes_source(#[trigger] out@[inputs@.len() + k], outputs@[k]),
        decreases outputs@.len() - j,
    {
        out.push(info_of_source(&outputs[j]));
        proof {
            assert(out@[inputs@.len() + j as int] == out@.last());
        }
        j = j + 1;
    }
    let mut v: usize = 0;
    while v < virtuals.len()
        invariant
            inputs@.len() + outputs@.len() + virtuals@.len() <= usize::MAX,
            v <= virtuals@.len(),
            out@.len() == inputs@.len() + outputs@.len() + v,
            forall|k: int| 0 <= k < inputs@.len() ==> describes_source(#[trigger] out@[k], inputs@[k]),
            forall|k: int|
                0 <= k < outputs@.len() ==> describes_source(
                    #[trigger] out@[inputs@.len() + k],
                    outputs@[k],
                ),
            forall|k: int|
                0 <= k < v ==> describes_virtual(
                    #[trigger] out@[inputs@.len() + outputs@.len() + k],
                    virtuals@[k],
                ),
        decreases virtuals@.len() - v,
    {
        let d = &virtuals[v];
        out.push(
            AudioDeviceInfo {
                id: d.id.clone(),
                name: d.name.clone(),
                device_type: String::from_str("Virtual"),
                sample_rate: d.sample_rate,
                channels: d.channels,
            },
        );
        proof {
            assert(out@[inputs@.len() + outputs@.len() + v as int] == out@.last());
        }
        v = v + 1;
    }
    out
}

/// Whether `r` goes from `input_id` to `output_id`.
pub open spec fn joins<M>(r: Route<M>, input_id: Seq<char>, output_id: Seq<char>) -> bool {
    r.input_id@ == input_id && r.output_id@ == output_id
}

/// The position of the first route from `input_id` to `output_id`, if any.
pub open spec fn first_route_between<M>(
    routes: Seq<Route<M>>,
    input_id: Seq<char>,
    output_id: Seq<char>,
) -> Option<int> {
    if exists|i: int| 0 <= i < routes.len() && #[trigger] joins(routes[i], input_id, output_id) {
        Some(
            choose|i: int|
                0 <= i < routes.len() && #[trigger] joins(routes[i], input_id, output_id) && forall|
                    j: int,
                | 0 <= j < i ==> !joins(routes[j], input_id, output_id),
        )
    } else {
        None
    }
}

proof fn lemma_least_join<M>(routes: Seq<Route<M>>, input_id: Seq<char>, output_id: Seq<char>, i: int)
    requires
        0 <= i < routes.len(),
        joins(routes[i], input_id, output_id),
    ensures
        exists|p: int|
            0 <= p < routes.len() && #[trigger] joins(routes[p], input_id, output_id) && forall|
                j: int,
            | 0 <= j < p ==> !joins(routes[j], input_id, output_id),
    decreases i,
{
    if exists|j: int| 0 <= j < i && #[trigger] joins(routes[j], input_id, output_id) {
        let j = choose|j: int| 0 <= j < i && #[trigger] joins(routes[j], input_id, output_id);
        lemma_least_join(routes, input_id, output_id, j);
    } else {
        assert(joins(routes[i], input_id, output_id));
    }
}

/// The first route between two devices is the route at the least position
/// that joins them, and there is none exactly when no route joins them.
pub proof fn lemma_first_route_between<M>(
    routes: Seq<Route<M>>,
    input_id: Seq<char>,
    output_id: Seq<char>,
)
    ensures
        match first_route_between(routes, input_id, output_id) {
            Some(p) => 0 <= p < routes.len() && joins(routes[p], input_id, output_id) && forall|
                j: int,
            | 0 <= j < p ==> !joins(#[trigger] routes[j], input_id, output_id),
            None => forall|j: int| 0 <= j < routes.len() ==> !joins(#[trigger] routes[j], input_id, output_id),
        },
{
    if exists|i: int| 0 <= i < routes.len() && #[trigger] joins(routes[i], input_id, output_id) {
        let i = choose|i: int| 0 <= i < routes.len() && #[trigger] joins(routes[i], input_id, output_id);
        lemma_least_join(routes, input_id, output_id, i);
    }
}

/// `r` with its mute flag set to `muted`.
pub open spec fn with_muted<M>(r: Route<M>, muted: bool) -> Route<M> {
    Route { id: r.id, input_id: r.input_id, output_id: r.output_id, muted, mix: r.mix }
}

/// `r` with its identifier set to `id`.
pub open spec fn with_id<M>(r: Route<M>, id: String) -> Route<M> {
    Route { id, input_id: r.input_id, output_id: r.output_id, muted: r.muted, mix: r.mix }
}

/// `r` with its mix set to `mix`.
pub open spec fn with_mix<M>(r: Route<M>, mix: M) -> Route<M> {
    Route { id: r.id, input_id: r.input_id, output_id: r.output_id, muted: r.muted, mix }
}

fn first_between<M: Copy>(routes: &Vec<Route<M>>, input_id: &str, output_id: &str) -> (r: Option<
    usize,
>)
    ensures
        match r {
            Some(p) => first_route_between(routes@, input_id@, output_id@) == Some(p as int) && p
                < routes@.len(),
            None => first_route_between(routes@, input_id@, output_id@) is None,
        },
{
    let input = String::from_str(input_id);
    let output = String::from_str(output_id);
    let mut i: usize = 0;
    while i < routes.len()
        invariant
            input@ == input_id@,
            output@ == output_id@,
            i <= routes@.len(),
            forall|j: int| 0 <= j < i ==> !#[trigger] joins(routes@[j], input_id@, output_id@),
        decreases routes@.len() - i,
    {
        if routes[i].input_id == input && routes[i].output_id == output {
            proof {
                assert(joins(routes@[i as int], input_id@, output_id@));
                let p = choose|p: int|
                    0 <= p < routes@.len() && #[trigger] joins(routes@[p], input_id@, output_id@)
                        && forall|j: int| 0 <= j < p ==> !joins(routes@[j], input_id@, output_id@);
                if p > i {
                    assert(!joins(routes@[i as int], input_id@, output_id@));
                }
            }
            return Some(i);
        }
        i = i + 1;
    }
    None
}

/// The identifier of the first route from `input_id` to `output_id`, if any.
pub fn find_route_id<M: Copy>(matrix: &RoutingMatrix<M>, input_id: &str, output_id: &str) -> (r:
    Option<String>)
    ensures
        match r {
            Some(id) => first_route_between(matrix@, input_id@, output_id@) matches Some(p) && id
                == matrix@[p].id,
            None => first_route_between(matrix@, input_id@, output_id@) is None,
        },
{
    let routes = matrix.get_all_routes();
    match first_between(&routes, input_id, output_id) {
        Some(p) => Some(routes[p].id.clone()),
        None => None,
    }
}

/// A copy of the route at the position of the first route between the two
/// devices, when there is one.
fn first_route_copy<M: Copy>(matrix: &RoutingMatrix<M>, input_id: &str, output_id: &str) -> (r:
    Option<Route<M>>)
    requires
        matrix.wf(),
    ensures
        match first_route_between(matrix@, input_id@, output_id@) {
            Some(p) => r == Some(matrix@[p]) && matrix.contains_id(matrix@[p].id@)
                && matrix.position_of(matrix@[p].id@) == p,
            None => r is None,
        },
{
    match find_route_id(matrix, input_id, output_id) {
        Some(id) => {
            let ghost p = first_route_between(matrix@, input_id@, output_id@)->0;
            proof {
                lemma_first_route_between(matrix@, input_id@, output_id@);
                matrix.lemma_lookup_unique(p);
            }
            match matrix.get_route(id.as_str()) {
                Some(route) => Some(route.clone()),
                None => None,
            }
        },
        None => None,
    }
}

/// Sets the mute flag of the first route from `input_id` to `output_id`;
/// changes nothing when there is none.
pub fn set_mute<M: Copy>(
    matrix: &mut RoutingMatrix<M>,
    input_id: &str,
    output_id: &str,
    muted: bool,
)
    requires
        old(matrix).wf(),
    ensures
        final(matrix).wf(),
        final(matrix).next_id() == old(matrix).next_id(),
        final(matrix).default_mix() == old(matrix).default_mix(),
        match first_route_between(old(matrix)@, input_id@, output_id@) {
            Some(p) => final(matrix)@ == old(matrix)@.update(p, with_muted(old(matrix)@[p], muted)),
            None => final(matrix)@ == old(matrix)@,
        },
{
    match first_route_copy(matrix, input_id, output_id) {
        Some(route) => {
            let mut r = route;
            r.muted = muted;
            let _ = matrix.update_route(r);
        },
        None => {},
    }
}

/// Replaces the mix of the first route from `input_id` to `output_id` by what
/// `adjust` makes of it; changes nothing when there is no such route.
pub fn set_volume<M: Copy, F: Fn(M) -> M>(
    matrix: &mut RoutingMatrix<M>,
    input_id: &str,
    output_id: &str,
    adjust: F,
)
    requires
        old(matrix).wf(),
        forall|m: M| adjust.requires((m,)),
    ensures
        final(matrix).wf(),
        final(matrix).next_id() == old(matrix).next_id(),
        final(matrix).default_mix() == old(matrix).default_mix(),
        match first_route_between(old(matrix)@, input_id@, output_id@) {
            Some(p) => exists|m: M|
                adjust.ensures((old(matrix)@[p].mix,), m) && final(matrix)@ == old(matrix)@.update(
                    p,
                    with_mix(old(matrix)@[p], m),
                ),
            None => final(matrix)@ == old(matrix)@,
        },
{
    let ghost before = matrix@;
    let ghost p = first_route_between(before, input_id@, output_id@)->0;
    match first_route_copy(matrix, input_id, output_id) {
        Some(route) => {
            let mut r = route;
            let m = adjust(r.mix);
            r.mix = m;
            let ghost edited = r;
            let _ = matrix.update_route(r);
            proof {
                assert(edited == with_mix(before[p], m));
                assert(matrix@ == before.update(p, edited));
                assert(adjust.ensures((before[p].mix,), m));
            }
        },
        None => {},
    }
}

/// Sets the route from `input_id` to `output_id`: when the two devices are
/// already joined, the first route between them gets the mute flag `muted`
/// and the mix that `adjust` makes of its own; otherwise a new route
/// `route_<n>` joins them, with the mute flag `muted` and the mix that
/// `adjust` makes of the default mix.
pub fn set_route<M: Copy, F: Fn(M) -> M>(
    matrix: &mut RoutingMatrix<M>,
    input_id: String,
    output_id: String,
    muted: bool,
    adjust: F,
)
    requires
        old(matrix).wf(),
        first_route_between(old(matrix)@, input_id@, output_id@) is None ==> old(
            matrix,
        ).next_id() < usize::MAX,
        forall|m: M| adjust.requires((m,)),
    ensures
        final(matrix).wf(),
        final(matrix).default_mix() == old(matrix).default_mix(),
        match first_route_between(old(matrix)@, input_id@, output_id@) {
            Some(p) => final(matrix).next_id() == old(matrix).next_id() && exists|m: M|
                adjust.ensures((old(matrix)@[p].mix,), m) && final(matrix)@ == old(matrix)@.update(
                    p,
                    with_muted(with_mix(old(matrix)@[p], m), muted),
                ),
            None => final(matrix).next_id() == old(matrix).next_id() + 1 && exists|r: Route<M>|
                r.id@ == route_label(old(matrix).next_id()) && r.input_id == input_id
                    && r.output_id == output_id && r.muted == muted && adjust.ensures(
                    (old(matrix).default_mix(),),
                    r.mix,
                ) && final(matrix)@ == old(matrix)@.push(r),
        },
{
    let ghost before = matrix@;
    let ghost input_view = input_id@;
    let ghost output_view = output_id@;
    let ghost p = first_route_between(before, input_view, output_view)->0;
    match first_route_copy(matrix, input_id.as_str(), output_id.as_str()) {
        Some(route) => {
            let mut r = route;
            let m = adjust(r.mix);
            r.mix = m;
            r.muted = muted;
            let ghost edited = r;
            let _ = matrix.update_route(r);
            proof {
                assert(edited == with_muted(with_mix(before[p], m), muted));
                assert(matrix@ == before.update(p, edited));
                assert(adjust.ensures((before[p].mix,), m));
            }
        },
        None => {
            let ghost default_mix = matrix.default_mix();
            let added = matrix.add_route(input_id, output_id);
            let ghost grown = matrix@;
            proof {
                matrix.lemma_lookup_unique(before.len() as int);
            }
            let mut r = added;
            let m = adjust(r.mix);
            r.mix = m;
            r.muted = muted;
            let ghost edited = r;
            let _ = matrix.update_route(r);
            proof {
                assert(grown == before.push(added));
                assert(matrix@ == grown.update(before.len() as int, edited));
                assert(matrix@ =~= before.push(edited));
                assert(adjust.ensures((default_mix,), edited.mix));
                assert(edited.id@ == route_label(old(matrix).next_id()));
            }
        },
    }
}

fn any_from_input<M: Copy>(routes: &Vec<Route<M>>, input_id: &str) -> (r: bool)
    ensures
        r == exists|i: int| 0 <= i < routes@.len() && #[trigger] routes@[i].input_id@ == input_id@,
{
    let key = String::from_str(input_id);
    let mut k: usize = 0;
    while k < routes.len()
        invariant
            key@ == input_id@,
            k <= routes@.len(),
            forall|j: int| 0 <= j < k ==> #[trigger] routes@[j].input_id@ != input_id@,
        decreases routes@.len() - k,
    {
        if routes[k].input_id == key {
            return true;
        }
        k = k + 1;
    }
    false
}

/// Removes the first route from `input_id` to `output_id`, if any; returns
/// whether some route still leaves `input_id`.
pub fn remove_route<M: Copy>(matrix: &mut RoutingMatrix<M>, input_id: &str, output_id: &str) -> (r:
    bool)
    requires
        old(matrix).wf(),
    ensures
        final(matrix).wf(),
        final(matrix).next_id() == old(matrix).next_id(),
        final(matrix).default_mix() == old(matrix).default_mix(),
        match first_route_between(old(matrix)@, input_id@, output_id@) {
            Some(p) => final(matrix)@ == old(matrix)@.remove(p),
            None => final(matrix)@ == old(matrix)@,
        },
        r == exists|i: int|
            0 <= i < final(matrix)@.len() && #[trigger] final(matrix)@[i].input_id@ == input_id@,
{
    match find_route_id(matrix, input_id, output_id) {
        Some(id) => {
            let ghost p = first_route_between(matrix@, input_id@, output_id@)->0;
            proof {
                lemma_first_route_between(matrix@, input_id@, output_id@);
                matrix.lemma_lookup_unique(p);
            }
            let _ = matrix.remove_route(id.as_str());
        },
        None => {},
    }
    let routes = matrix.get_all_routes();
    any_from_input(&routes, input_id)
}

/// Whether `c` is kept in a file name: alphanumeric, `-` or `_`.
pub open spec fn safe_file_char(c: char) -> bool {
    alphanumeric(c) || c == '-' || c == '_'
}

/// `s` with every character that is not kept in a file name replaced by `_`.
pub open spec fn sanitized(s: Seq<char>) -> Seq<char> {
    s.map_values(|c: char| if safe_file_char(c) { c } else { '_' })
}

/// `name` with every character other than an alphanumeric one, `-` or `_`
/// replaced by `_`.
pub fn sanitize_filename(name: &str) -> (r: String)
    ensures
        r@ == sanitized(name@),
{
    let cs = chars_of(name);
    let mut out = String::new();
    let mut i: usize = 0;
    while i < cs.len()
        invariant
            cs@ == name@,
            i <= cs@.len(),
            out@ == sanitized(cs@.take(i as int)),
        decreases cs@.len() - i,
    {
        let c = cs[i];
        if is_alphanumeric(c) || c == '-' || c == '_' {
            push_char(&mut out, c);
        } else {
            push_char(&mut out, '_');
        }
        proof {
            assert(sanitized(cs@.take(i + 1)) =~= sanitized(cs@.take(i as int)).push(
                if safe_file_char(c) {
                    c
                } else {
                    '_'
                },
            ));
        }
        i = i + 1;
    }
    proof {
        assert(cs@.take(i as int) =~= cs@);
    }
    out
}

/// The name of the file that holds the preset `name`: the sanitized name
/// followed by `.json`.
pub fn preset_file_name(name: &str) -> (r: String)
    ensures
        r@ == sanitized(name@) + json_extension(),
{
    let mut f = sanitize_filename(name);
    f.append(".json");
    proof {
        reveal_strlit(".json");
    }
    f
}

/// The characters `.json`, the extension of preset files.
pub open spec fn json_extension() -> Seq<char> {
    seq!['.', 'j', 's', 'o', 'n']
}

/// `s` without every trailing repetition of `.json`.
pub open spec fn trim_json(s: Seq<char>) -> Seq<char>
    decreases s.len(),
{
    if ends_with(s, json_extension()) {
        trim_json(s.subrange(0, s.len() - 5))
    } else {
        s
    }
}

/// The preset names that the files `names` hold: for each name that ends in
/// `.json`, in order, the name without its trailing `.json` repetitions.
pub open spec fn preset_entries(names: Seq<Seq<char>>) -> Seq<Seq<char>>
    decreases names.len(),
{
    if names.len() == 0 {
        Seq::empty()
    } else {
        let rest = preset_entries(names.drop_last());
        if ends_with(names.last(), json_extension()) {
            rest.push(trim_json(names.last()))
        } else {
            rest
        }
    }
}

fn trim_json_chars(s: &Vec<char>) -> (r: Vec<char>)
    ensures
        r@ == trim_json(s@),
{
    let suffix = chars_of(".json");
    proof {
        reveal_strlit(".json");
        assert(suffix@ =~= json_extension());
    }
    let mut cur = s.clone();
    proof {
        assert(cur@ == s@);
    }
    while ends_with_chars(&cur, &suffix)
        invariant
            suffix@ == json_extension(),
            trim_json(cur@) == trim_json(s@),
        decreases cur@.len(),
    {
        let n = cur.len() - 5;
        cur.truncate(n);
    }
    cur
}

/// The names of the presets stored in a directory whose files are named
/// `file_names`: each name ending in `.json`, without its trailing `.json`
/// repetitions, in lexicographic order.
pub fn get_presets(file_names: &Vec<String>) -> (r: Vec<String>)
    ensures
        sorted_lex(views(r@)),
        views(r@).to_multiset() == preset_entries(views(file_names@)).to_multiset(),
{
    let suffix = chars_of(".json");
    let mut entries: Vec<String> = Vec::new();
    let mut i: usize = 0;
    proof {
        reveal_strlit(".json");
        assert(suffix@ =~= json_extension());
        assert(views(file_names@.take(0)) =~= Seq::<Seq<char>>::empty());
        assert(views(entries@) =~= Seq::<Seq<char>>::empty());
    }
    while i < file_names.len()
        invariant
            suffix@ == json_extension(),
            i <= file_names@.len(),
            views(entries@) == preset_entries(views(file_names@.take(i as int))),
        decreases file_names@.len() - i,
    {
        let name = chars_of(file_names[i].as_str());
        let ghost before = views(file_names@.take(i as int));
        let ghost after = views(file_names@.take(i + 1));
        proof {
            assert(after.drop_last() =~= before);
            assert(after.last() == file_names@[i as int]@);
        }
        if ends_with_chars(&name, &suffix) {
            let trimmed = trim_json_chars(&name);
            entries.push(string_of_chars(&trimmed));
            proof {
                assert(views(entries@) =~= preset_entries(before).push(trim_json(after.last())));
            }
        }
        i = i + 1;
    }
    proof {
        assert(file_names@.take(i as int) =~= file_names@);
    }
    sort_strings(entries)
}

/// The mix and mute flag that a preset gives to a route between two devices.
#[derive(Debug)]
pub struct RouteSetting<M> {
    pub input_id: String,
    pub output_id: String,
    pub mix: M,
    pub muted: bool,
}

/// Replaces every route by the routes of a preset: route `k` (from zero) of
/// the result is `route_<k + 1>`, from and to the devices of setting `k`,
/// with its mix and mute flag.
pub fn restore_routes<M: Copy>(matrix: &mut RoutingMatrix<M>, settings: &Vec<RouteSetting<M>>)
    requires
        old(matrix).wf(),
        settings@.len() < usize::MAX,
    ensures
        final(matrix).wf(),
        final(matrix).next_id() == settings@.len() + 1,
        final(matrix).default_mix() == old(matrix).default_mix(),
        final(matrix)@.len() == settings@.len(),
        forall|k: int|
            0 <= k < settings@.len() ==> {
                &&& (#[trigger] final(matrix)@[k]).id@ == route_label((k + 1) as nat)
                &&& final(matrix)@[k].input_id == settings@[k].input_id
                &&& final(matrix)@[k].output_id == settings@[k].output_id
                &&& final(matrix)@[k].mix == settings@[k].mix
                &&& final(matrix)@[k].muted == settings@[k].muted
            },
{
    matrix.clear();
    let mut i: usize = 0;
    while i < settings.len()
        invariant
            matrix.wf(),
            settings@.len() < usize::MAX,
            i <= settings@.len(),
            matrix.next_id() == i + 1,
            matrix.default_mix() == old(matrix).default_mix(),
            matrix@.len() == i,
            forall|k: int|
                0 <= k < i ==> {
                    &&& (#[trigger] matrix@[k]).id@ == route_label((k + 1) as nat)
                    &&& matrix@[k].input_id == settings@[k].input_id
                    &&& matrix@[k].output_id == settings@[k].output_id
                    &&& matrix@[k].mix == settings@[k].mix
                    &&& matrix@[k].muted == settings@[k].muted
                },
        decreases settings@.len() - i,
    {
        let setting = &settings[i];
        let ghost before = matrix@;
        let mut route = matrix.add_route(setting.input_id.clone(), setting.output_id.clone());
        proof {
            matrix.lemma_lookup_unique(i as int);
        }
        route.mix = setting.mix;
        route.muted = setting.muted;
        let ghost edited = route;
        let _ = matrix.update_route(route);
        proof {
            assert(matrix@ == before.push(edited).update(i as int, edited));
            assert forall|k: int| 0 <= k < i + 1 implies {
                &&& (#[trigger] matrix@[k]).id@ == route_label((k + 1) as nat)
                &&& matrix@[k].input_id == settings@[k].input_id
                &&& matrix@[k].output_id == settings@[k].output_id
                &&& matrix@[k].mix == settings@[k].mix
                &&& matrix@[k].muted == settings@[k].muted
            } by {
                if k < i {
                    assert(matrix@[k] == before[k]);
                }
            }
        }
        i = i + 1;
    }
}

/// The text of the timestamp written into a preset saved `secs` seconds after
/// the Unix epoch: `YYYY-01-01Thh:mm:ssZ`, where the year counts 365-day
/// years from 1970 and the time is that of the day.
pub open spec fn timestamp_text(secs: nat) -> Seq<char> {
    let days = secs / 86400;
    let time = secs % 86400;
    zero_padded(1970 + days / 365, 4) + "-"@ + zero_padded(1, 2) + "-"@ + zero_padded(1, 2) + "T"@
        + zero_padded(time / 3600, 2) + ":"@ + zero_padded((time % 3600) / 60, 2) + ":"@
        + zero_padded(time % 60, 2) + "Z"@
}

/// The timestamp text for `secs` seconds after the Unix epoch.
pub fn format_timestamp(secs: u64) -> (r: String)
    ensures
        r@ == timestamp_text(secs as nat),
{
    let days = secs / 86400;
    let time = secs % 86400;
    let mut out = String::new();
    push_zero_padded(&mut out, 1970 + days / 365, 4);
    out.append("-");
    push_zero_padded(&mut out, 1, 2);
    out.append("-");
    push_zero_padded(&mut out, 1, 2);
    out.append("T");
    push_zero_padded(&mut out, time / 3600, 2);
    out.append(":");
    push_zero_padded(&mut out, (time % 3600) / 60, 2);
    out.append(":");
    push_zero_padded(&mut out, time % 60, 2);
    out.append("Z");
    proof {
        assert(out@ =~= timestamp_text(secs as nat));
    }
    out
}

/// The current UTC time, as `YYYY-01-01Thh:mm:ssZ` (see `timestamp_text`);
/// a clock set before the Unix epoch counts as the epoch.
pub fn chrono_now() -> (r: String)
    ensures
        exists|secs: u64| r@ == timestamp_text(secs as nat),
{
    let now = std::time::SystemTime::now();
    let secs = match since_unix_epoch(&now) {
        Ok(d) => d.as_secs(),
        Err(_) => 0,
    };
    format_timestamp(secs)
}

/// The timestamp written into a newly saved preset.
pub fn timestamp() -> (r: String)
    ensures
        exists|secs: u64| r@ == timestamp_text(secs as nat),
{
    chrono_now()
}

/// `std::time::SystemTime`, carried through as an opaque value.
#[verifier::external_type_specification]
#[verifier::external_body]
pub struct ExSystemTime(std::time::SystemTime);

/// `std::time::SystemTimeError`, carried through as an opaque value.
#[verifier::external_type_specification]
#[verifier::external_body]
pub struct ExSystemTimeError(std::time::SystemTimeError);

/// `SystemTime::now`: reads the system clock. Nothing is claimed of the
/// value read.
pub assume_specification[ std::time::SystemTime::now ]() -> std::time::SystemTime;

/// `Duration::as_secs`: the whole seconds of a duration. Nothing is claimed
/// of the number, as the duration is opaque here.
pub assume_specification[ core::time::Duration::as_secs ](d: &core::time::Duration) -> u64;

/// `SystemTime::duration_since(UNIX_EPOCH)`: the time elapsed since the Unix
/// epoch, or an error for a time before it. Nothing is claimed of the result,
/// as the time is opaque here.
#[verifier::external_body]
fn since_unix_epoch(t: &std::time::SystemTime) -> Result<
    core::time::Duration,
    std::time::SystemTimeError,
> {
    t.duration_since(std::time::UNIX_EPOCH)
}

/// Sanitizing keeps the length, leaves only characters kept in file names
/// (so no path separator, dot or drive colon), and sanitizing again changes
/// nothing.
pub proof fn lemma_sanitized_is_safe(s: Seq<char>)
    ensures
        sanitized(s).len() == s.len(),
        forall|i: int| 0 <= i < s.len() ==> safe_file_char(#[trigger] sanitized(s)[i]),
        forall|i: int|
            0 <= i < s.len() ==> #[trigger] sanitized(s)[i] != '/' && sanitized(s)[i] != '\\'
                && sanitized(s)[i] != '.' && sanitized(s)[i] != ':',
        sanitized(sanitized(s)) == sanitized(s),
{
    assert forall|i: int| 0 <= i < s.len() implies safe_file_char(#[trigger] sanitized(s)[i]) by {}
    assert(sanitized(sanitized(s)) =~= sanitized(s));
}

/// Characters in `s` that are kept in file names are kept as they are.
pub proof fn lemma_sanitized_keeps_safe(s: Seq<char>)
    requires
        forall|i: int| 0 <= i < s.len() ==> safe_file_char(#[trigger] s[i]),
    ensures
        sanitized(s) == s,
{
    assert(sanitized(s) =~= s);
}

/// A preset saved under `name` is stored in a file that the preset listing
/// shows as the sanitized name.
pub proof fn lemma_saved_preset_listed(name: Seq<char>)
    ensures
        preset_entries(seq![sanitized(name) + json_extension()]) == seq![sanitized(name)],
{
    let stem = sanitized(name);
    let file = stem + json_extension();
    lemma_sanitized_is_safe(name);
    assert(file.subrange(file.len() - 5, file.len() as int) =~= json_extension());
    assert(file.subrange(0, file.len() - 5) =~= stem);
    if ends_with(stem, json_extension()) {
        assert(stem.subrange(stem.len() - 5, stem.len() as int)[0] == '.');
        assert(stem[stem.len() - 5] == '.');
    }
    assert(trim_json(stem) == stem);
    assert(trim_json(file) == stem);
    let names = seq![file];
    assert(names.drop_last() =~= Seq::<Seq<char>>::empty());
    assert(names.last() == file);
    assert(ends_with(file, json_extension()));
    assert(preset_entries(names.drop_last()) == Seq::<Seq<char>>::empty());
    assert(preset_entries(names) == preset_entries(names.drop_last()).push(trim_json(file)));
    assert(preset_entries(names) =~= seq![stem]);
}

/// Restoring the routes of a matrix, read back as settings in order, gives
/// the same routes again (same devices, mix and mute flag, in the same order),
/// renumbered from one.
pub proof fn lemma_restore_reproduces_routes<M>(
    before: RoutingMatrix<M>,
    settings: Seq<RouteSetting<M>>,
    after: RoutingMatrix<M>,
)
    requires
        settings.len() == before@.len(),
        forall|k: int|
            0 <= k < settings.len() ==> {
                &&& (#[trigger] settings[k]).input_id == before@[k].input_id
                &&& settings[k].output_id == before@[k].output_id
                &&& settings[k].mix == before@[k].mix
                &&& settings[k].muted == before@[k].muted
            },
        after@.len() == settings.len(),
        forall|k: int|
            0 <= k < settings.len() ==> {
                &&& (#[trigger] after@[k]).id@ == route_label((k + 1) as nat)
                &&& after@[k].input_id == settings[k].input_id
                &&& after@[k].output_id == settings[k].output_id
                &&& after@[k].mix == settings[k].mix
                &&& after@[k].muted == settings[k].muted
            },
    ensures
        after@.len() == before@.len(),
        forall|k: int|
            0 <= k < before@.len() ==> (#[trigger] after@[k]).id@ == route_label((k + 1) as nat)
                && after@[k] == with_id(before@[k], after@[k].id),
{
    assert forall|k: int| 0 <= k < before@.len() implies (#[trigger] after@[k]).id@ == route_label(
        (k + 1) as nat,
    ) && after@[k] == with_id(before@[k], after@[k].id) by {
        assert(settings[k].input_id == before@[k].input_id);
    }
}

/// Whether no two routes join the same input to the same output.
pub open spec fn one_route_per_pair<M>(routes: Seq<Route<M>>) -> bool {
    forall|i: int, j: int|
        0 <= i < j < routes.len() ==> !joins(
            #[trigger] routes[j],
            (#[trigger] routes[i]).input_id@,
            routes[i].output_id@,
        )
}

/// Setting a route keeps at most one route per input and output, and leaves
/// exactly one route between the two devices it names.
pub proof fn lemma_set_route_one_per_pair<M>(
    before: Seq<Route<M>>,
    after: Seq<Route<M>>,
    input_id: Seq<char>,
    output_id: Seq<char>,
    muted: bool,
)
    requires
        one_route_per_pair(before),
        match first_route_between(before, input_id, output_id) {
            Some(p) => exists|m: M| after == before.update(p, with_muted(with_mix(before[p], m), muted)),
            None => exists|r: Route<M>|
                r.input_id@ == input_id && r.output_id@ == output_id && after == before.push(r),
        },
    ensures
        one_route_per_pair(after),
        exists|k: int| 0 <= k < after.len() && #[trigger] joins(after[k], input_id, output_id),
        forall|a: int, b: int|
            0 <= a < after.len() && 0 <= b < after.len() && joins(#[trigger] after[a], input_id, output_id)
                && joins(#[trigger] after[b], input_id, output_id) ==> a == b,
{
    lemma_first_route_between(before, input_id, output_id);
    match first_route_between(before, input_id, output_id) {
        Some(p) => {
            let m = choose|m: M| after == before.update(p, with_muted(with_mix(before[p], m), muted));
            assert forall|k: int| 0 <= k < after.len() implies after[k].input_id == before[k].input_id
                && after[k].output_id == before[k].output_id by {}
            assert(joins(after[p], input_id, output_id));
            assert forall|a: int, b: int|
                0 <= a < after.len() && 0 <= b < after.len() && joins(#[trigger] after[a], input_id, output_id)
                    && joins(#[trigger] after[b], input_id, output_id) implies a == b by {
                assert(after[a].input_id == before[a].input_id && after[a].output_id == before[a].output_id);
                assert(after[b].input_id == before[b].input_id && after[b].output_id == before[b].output_id);
                if a < b {
                    assert(!joins(before[b], before[a].input_id@, before[a].output_id@));
                } else if b < a {
                    assert(!joins(before[a], before[b].input_id@, before[b].output_id@));
                }
            }
            assert forall|i: int, j: int| 0 <= i < j < after.len() implies !joins(
                #[trigger] after[j],
                (#[trigger] after[i]).input_id@,
                after[i].output_id@,
            ) by {
                assert(after[i].input_id == before[i].input_id && after[i].output_id == before[i].output_id);
                assert(after[j].input_id == before[j].input_id && after[j].output_id == before[j].output_id);
                assert(!joins(before[j], before[i].input_id@, before[i].output_id@));
            }
        },
        None => {
            let r = choose|r: Route<M>|
                r.input_id@ == input_id && r.output_id@ == output_id && after == before.push(r);
            let n = before.len() as int;
            assert(joins(after[n], input_id, output_id));
            assert forall|a: int, b: int|
                0 <= a < after.len() && 0 <= b < after.len() && joins(#[trigger] after[a], input_id, output_id)
                    && joins(#[trigger] after[b], input_id, output_id) implies a == b by {
                if a < n {
                    assert(after[a] == before[a]);
                    assert(!joins(before[a], input_id, output_id));
                }
                if b < n {
                    assert(after[b] == before[b]);
                    assert(!joins(before[b], input_id, output_id));
                }
            }
            assert forall|i: int, j: int| 0 <= i < j < after.len() implies !joins(
                #[trigger] after[j],
                (#[trigger] after[i]).input_id@,
                after[i].output_id@,
            ) by {
                assert(after[i] == before[i]);
                if j < n {
                    assert(after[j] == before[j]);
                    assert(!joins(before[j], before[i].input_id@, before[i].output_id@));
                } else {
                    assert(!joins(before[i], input_id, output_id));
                }
            }
        },
    }
}

/// Whether `c` is an ASCII digit, an ASCII letter, `-` or `_`.
pub open spec fn ascii_file_char(c: char) -> bool {
    ('0' <= c && c <= '9') || ('a' <= c && c <= 'z') || ('A' <= c && c <= 'Z') || c == '-' || c
        == '_'
}

/// Sanitizing works character by character: ASCII digits, ASCII letters,
/// `-` and `_` stay, every other ASCII character becomes `_`, and a
/// non-ASCII character stays exactly when it is alphanumeric.
pub proof fn lemma_sanitize_by_character(s: Seq<char>)
    ensures
        sanitized(s).len() == s.len(),
        forall|i: int|
            0 <= i < s.len() && ascii_file_char(#[trigger] s[i]) ==> sanitized(s)[i] == s[i],
        forall|i: int|
            0 <= i < s.len() && (#[trigger] s[i] as u32) < 128 && !ascii_file_char(s[i])
                ==> sanitized(s)[i] == '_',
        forall|i: int|
            0 <= i < s.len() && (#[trigger] s[i] as u32) >= 128 ==> sanitized(s)[i] == (if unicode_alphanumeric(
                s[i],
            ) {
                s[i]
            } else {
                '_'
            }),
{
}

/// `n` copies of `.json` one after the other.
pub open spec fn json_repeated(n: nat) -> Seq<char>
    decreases n,
{
    if n == 0 {
        Seq::empty()
    } else {
        json_repeated((n - 1) as nat) + seq!['.', 'j', 's', 'o', 'n']
    }
}

/// Trimming removes every trailing `.json` and nothing else: the name is the
/// trimmed name followed by some number of `.json`, and the trimmed name does
/// not end in `.json`.
pub proof fn lemma_trim_json(s: Seq<char>)
    ensures
        exists|n: nat| s == trim_json(s) + #[trigger] json_repeated(n),
        !ends_with(trim_json(s), seq!['.', 'j', 's', 'o', 'n']),
    decreases s.len(),
{
    let j = seq!['.', 'j', 's', 'o', 'n'];
    assert(json_extension() =~= j);
    if ends_with(s, j) {
        let shorter = s.subrange(0, s.len() - 5);
        lemma_trim_json(shorter);
        let n = choose|n: nat| shorter == trim_json(shorter) + #[trigger] json_repeated(n);
        assert(trim_json(s) == trim_json(shorter));
        assert(json_repeated(n + 1) == json_repeated(n) + j);
        assert(s =~= shorter + j);
        assert(s =~= trim_json(s) + json_repeated(n + 1));
    } else {
        assert(trim_json(s) == s);
        assert(json_repeated(0) =~= Seq::<char>::empty());
        assert(s =~= trim_json(s) + json_repeated(0));
    }
}

/// Whether `entry` is some file name of `names` that ends in `.json`, without
/// its trailing `.json` repetitions.
pub open spec fn trimmed_json_name(names: Seq<Seq<char>>, entry: Seq<char>) -> bool {
    exists|i: int|
        0 <= i < names.len() && ends_with(names[i], seq!['.', 'j', 's', 'o', 'n']) && entry
            == trim_json(#[trigger] names[i])
}

/// The preset listing holds, for every file name ending in `.json`, that name
/// without its trailing `.json` repetitions, and nothing else.
pub proof fn lemma_preset_entries(names: Seq<Seq<char>>)
    ensures
        forall|i: int|
            0 <= i < names.len() && ends_with(#[trigger] names[i], seq!['.', 'j', 's', 'o', 'n'])
                ==> preset_entries(names).contains(trim_json(names[i])),
        forall|k: int|
            0 <= k < preset_entries(names).len() ==> trimmed_json_name(
                names,
                #[trigger] preset_entries(names)[k],
            ),
    decreases names.len(),
{
    let j = seq!['.', 'j', 's', 'o', 'n'];
    assert(json_extension() =~= j);
    if names.len() > 0 {
        let rest = names.drop_last();
        lemma_preset_entries(rest);
        let e = preset_entries(rest);
        let last = names.last();
        assert forall|i: int|
            0 <= i < names.len() && ends_with(#[trigger] names[i], j) implies preset_entries(
            names,
        ).contains(trim_json(names[i])) by {
            if i < rest.len() {
                assert(rest[i] == names[i]);
                assert(e.contains(trim_json(rest[i])));
                let k = choose|k: int| 0 <= k < e.len() && e[k] == trim_json(rest[i]);
                if ends_with(last, j) {
                    assert(preset_entries(names)[k] == e[k]);
                }
            } else {
                assert(names[i] == last);
                assert(preset_entries(names) == e.push(trim_json(last)));
                assert(preset_entries(names)[e.len() as int] == trim_json(last));
            }
        }
        assert forall|k: int| 0 <= k < preset_entries(names).len() implies trimmed_json_name(
            names,
            #[trigger] preset_entries(names)[k],
        ) by {
            if k < e.len() {
                assert(preset_entries(names)[k] == e[k]);
                assert(trimmed_json_name(rest, e[k]));
                let i = choose|i: int|
                    0 <= i < rest.len() && ends_with(rest[i], j) && e[k] == trim_json(
                        #[trigger] rest[i],
                    );
                assert(rest[i] == names[i]);
            } else {
                assert(ends_with(last, j));
                assert(names[names.len() - 1] == last);
                assert(preset_entries(names) == e.push(trim_json(last)));
                assert(preset_entries(names)[k] == trim_json(names[names.len() - 1]));
            }
        }
    } else {
        assert(preset_entries(names).len() == 0);
    }
}

/// A number below one hundred, zero-padded to two characters, is its tens
/// digit followed by its units digit.
proof fn lemma_two_digits(v: nat)
    requires
        v < 100,
    ensures
        zero_padded(v, 2) == seq![digit_char(v / 10), digit_char(v % 10)],
{
    if v < 10 {
        assert(decimal(v) =~= seq![digit_char(v)]);
        assert(zero_padded(v, 2) =~= seq!['0', digit_char(v)]);
    } else {
        assert(decimal(v / 10) =~= seq![digit_char(v / 10)]);
        assert(decimal(v) =~= seq![digit_char(v / 10), digit_char(v % 10)]);
    }
}

/// A number from one thousand to 9999, zero-padded to four characters, is
/// its four decimal digits, most significant first.
proof fn lemma_four_digits(y: nat)
    requires
        1000 <= y < 10000,
    ensures
        zero_padded(y, 4) == seq![
            digit_char(y / 1000),
            digit_char((y / 100) % 10),
            digit_char((y / 10) % 10),
            digit_char(y % 10),
        ],
{
    assert(y / 10 / 10 == y / 100);
    assert(y / 100 / 10 == y / 1000);
    assert(y / 1000 < 10);
    assert(y / 100 >= 10);
    assert(decimal(y / 1000) =~= seq![digit_char(y / 1000)]);
    assert(decimal(y / 100) =~= seq![digit_char(y / 1000), digit_char((y / 100) % 10)]);
    assert(decimal(y / 10) =~= seq![
        digit_char(y / 1000),
        digit_char((y / 100) % 10),
        digit_char((y / 10) % 10),
    ]);
    assert(decimal(y) =~= seq![
        digit_char(y / 1000),
        digit_char((y / 100) % 10),
        digit_char((y / 10) % 10),
        digit_char(y % 10),
    ]);
}

/// The timestamp of `secs` seconds after the Unix epoch, for a year below
/// 10000, is twenty characters: the four digits of the year, counted in
/// 365-day years from 1970; `-01-01T`; the two digits each of the hour, the
/// minute and the second of the day, separated by `:`; and `Z`.
pub proof fn lemma_timestamp_layout(secs: nat)
    requires
        1970 + secs / 86400 / 365 < 10000,
    ensures
        ({
            let y = 1970 + secs / 86400 / 365;
            let h = (secs % 86400) / 3600;
            let m = (secs % 3600) / 60;
            let s = secs % 60;
            timestamp_text(secs) == seq![
                digit_char(y / 1000),
                digit_char((y / 100) % 10),
                digit_char((y / 10) % 10),
                digit_char(y % 10),
                '-',
                '0',
                '1',
                '-',
                '0',
                '1',
                'T',
                digit_char(h / 10),
                digit_char(h % 10),
                ':',
                digit_char(m / 10),
                digit_char(m % 10),
                ':',
                digit_char(s / 10),
                digit_char(s % 10),
                'Z',
            ]
        }),
{
    let y = 1970 + secs / 86400 / 365;
    let time = secs % 86400;
    vstd::arithmetic::div_mod::lemma_mod_mod(secs as int, 3600, 24);
    vstd::arithmetic::div_mod::lemma_mod_mod(secs as int, 60, 1440);
    assert(time % 3600 == secs % 3600);
    assert(time % 60 == secs % 60);
    lemma_four_digits(y);
    lemma_two_digits(1);
    lemma_two_digits(time / 3600);
    lemma_two_digits((time % 3600) / 60);
    lemma_two_digits(time % 60);
    reveal_strlit("-");
    reveal_strlit("T");
    reveal_strlit(":");
    reveal_strlit("Z");
    assert(timestamp_text(secs) =~= seq![
        digit_char(y / 1000),
        digit_char((y / 100) % 10),
        digit_char((y / 10) % 10),
        digit_char(y % 10),
        '-',
        '0',
        '1',
        '-',
        '0',
        '1',
        'T',
        digit_char((time / 3600) / 10),
        digit_char((time / 3600) % 10),
        ':',
        digit_char(((time % 3600) / 60) / 10),
        digit_char(((time % 3600) / 60) % 10),
        ':',
        digit_char((time % 60) / 10),
        digit_char((time % 60) % 10),
        'Z',
    ]);
}

} // verus!
