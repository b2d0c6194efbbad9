//! The registry of virtual audio devices: devices created by the user
//! (`vac_<n>`) and virtual cables detected among the host's outputs
//! (`virtual_<index>`).

use vstd::prelude::*;
use vstd::string::*;
use crate::text::{
    contains_seq, decimal, lemma_decimal_injective, lemma_prefix_cancel, push_decimal,
    str_contains,
};

verus! {

/// A virtual audio device known to the registry.
#[derive(Debug)]
pub struct VirtualDevice {
    pub id: String,
    pub name: String,
    pub channels: u16,
    pub sample_rate: u32,
    pub is_active: bool,
}

impl Clone for VirtualDevice {
    fn clone(&self) -> (r: Self)
        ensures
            r == *self,
    {
        VirtualDevice {
            id: self.id.clone(),
            name: self.name.clone(),
            channels: self.channels,
            sample_rate: self.sample_rate,
            is_active: self.is_active,
        }
    }
}

/// The channel count and sample rate of a device's default stream.
#[derive(Debug, Clone, Copy, PartialEq, Eq, Structural)]
pub struct StreamFormat {
    pub channels: u16,
    pub sample_rate: u32,
}

/// What the audio host reports of one device, in enumeration order: its name
/// and its default stream format, each absent when the host could not tell.
#[derive(Debug)]
pub struct DeviceProbe {
    pub name: Option<String>,
    pub format: Option<StreamFormat>,
}

/// The sample rate of devices created in the registry.
pub const VIRTUAL_SAMPLE_RATE: u32 = 48000;

/// The characters `vac_`.
pub open spec fn vac_prefix() -> Seq<char> {
    seq!['v', 'a', 'c', '_']
}

/// The characters `virtual_`.
pub open spec fn virtual_prefix() -> Seq<char> {
    seq!['v', 'i', 'r', 't', 'u', 'a', 'l', '_']
}

/// The identifier of the `n`-th created device: `vac_<n>`.
pub open spec fn vac_label(n: nat) -> Seq<char> {
    vac_prefix() + decimal(n)
}

/// The identifier of a device detected at enumeration index `i`:
/// `virtual_<i>`.
pub open spec fn virtual_label(i: nat) -> Seq<char> {
    virtual_prefix() + decimal(i)
}

/// Whether a device name looks like that of a virtual cable.
pub open spec fn is_virtual_name(name: Seq<char>) -> bool {
    contains_seq(name, "VB-Cable"@) || contains_seq(name, "Virtual"@) || contains_seq(
        name,
        "VAC"@,
    ) || contains_seq(name, "Cable"@)
}

/// Whether a device name looks like that of a virtual cable: it contains
/// `VB-Cable`, `Virtual`, `VAC` or `Cable`.
pub fn is_virtual_device_name(name: &str) -> (r: bool)
    ensures
        r == is_virtual_name(name@),
        r <==> contains_seq(name@, "VB-Cable"@) || contains_seq(name@, "Virtual"@) || contains_seq(
            name@,
            "VAC"@,
        ) || contains_seq(name@, "Cable"@),
{
    str_contains(name, "VB-Cable") || str_contains(name, "Virtual") || str_contains(name, "VAC")
        || str_contains(name, "Cable")
}

/// Whether detection registers the probe `p`: the host told its name and
/// format, and the name looks like that of a virtual cable.
pub open spec fn qualifies(p: DeviceProbe) -> bool {
    &&& p.name is Some
    &&& p.format is Some
    &&& is_virtual_name(p.name->0@)
}

/// The enumeration indices of the probes that detection registers, in order.
pub open spec fn qualifying_indices(probes: Seq<DeviceProbe>) -> Seq<nat>
    decreases probes.len(),
{
    if probes.len() == 0 {
        Seq::empty()
    } else {
        let rest = qualifying_indices(probes.drop_last());
        if qualifies(probes.last()) {
            rest.push((probes.len() - 1) as nat)
        } else {
            rest
        }
    }
}

/// Whether `d` is the device that detection registers for the probe `p` at
/// enumeration index `index`.
pub open spec fn detected_from(d: VirtualDevice, p: DeviceProbe, index: nat) -> bool {
    &&& d.id@ == virtual_label(index)
    &&& p.name == Some(d.name)
    &&& p.format == Some(StreamFormat { channels: d.channels, sample_rate: d.sample_rate })
    &&& d.is_active
}

/// `devs` with `d` put in place of the device that has its identifier, or
/// appended when there is none.
pub open spec fn upsert(devs: Seq<VirtualDevice>, d: VirtualDevice) -> Seq<VirtualDevice> {
    if exists|i: int| 0 <= i < devs.len() && #[trigger] devs[i].id@ == d.id@ {
        devs.update(choose|i: int| 0 <= i < devs.len() && #[trigger] devs[i].id@ == d.id@, d)
    } else {
        devs.push(d)
    }
}

/// `devs` after putting in each of `ds`, first to last.
pub open spec fn upsert_all(devs: Seq<VirtualDevice>, ds: Seq<VirtualDevice>) -> Seq<
    VirtualDevice,
>
    decreases ds.len(),
{
    if ds.len() == 0 {
        devs
    } else {
        upsert(upsert_all(devs, ds.drop_last()), ds.last())
    }
}

/// Whether `id` is `vac_<k>` for some `k` from one up to, but not including,
/// `next`.
pub open spec fn issued_vac_label(id: Seq<char>, next: nat) -> bool {
    exists|k: nat| 1 <= k < next && id == vac_label(k)
}

/// Whether `id` is `virtual_<i>` for some index `i`.
pub open spec fn is_virtual_label(id: Seq<char>) -> bool {
    exists|i: nat| id == virtual_label(i)
}

/// A `vac_` identifier is never a `virtual_` identifier.
pub proof fn lemma_vac_not_virtual(n: nat, i: nat)
    ensures
        vac_label(n) != virtual_label(i),
{
    assert(vac_label(n)[1] == 'a');
    assert(virtual_label(i)[1] == 'i');
}

/// Distinct numbers give distinct `vac_` identifiers.
pub proof fn lemma_vac_label_injective(a: nat, b: nat)
    requires
        vac_label(a) == vac_label(b),
    ensures
        a == b,
{
    lemma_prefix_cancel(vac_prefix(), decimal(a), decimal(b));
    lemma_decimal_injective(a, b);
}

/// The registry of virtual devices, keyed by identifier.
pub struct DeviceManager {
    virtual_devices: Vec<VirtualDevice>,
    next_device_id: usize,
}

impl View for DeviceManager {
    type V = Seq<VirtualDevice>;

    /// The devices, in the order in which they were registered.
    closed spec fn view(&self) -> Seq<VirtualDevice> {
        self.virtual_devices@
    }
}

impl DeviceManager {
    /// The number that the next created device gets in its identifier.
    pub closed spec fn next_id(&self) -> nat {
        self.next_device_id as nat
    }

    /// Whether some device has the identifier `id`.
    pub open spec fn contains_id(&self, id: Seq<char>) -> bool {
        exists|i: int| 0 <= i < self@.len() && #[trigger] self@[i].id@ == id
    }

    /// The position of the device with identifier `id` (meaningful when
    /// `contains_id(id)`).
    pub open spec fn position_of(&self, id: Seq<char>) -> int {
        choose|i: int| 0 <= i < self@.len() && #[trigger] self@[i].id@ == id
    }

    /// The device with identifier `id`, if any.
    pub open spec fn lookup(&self, id: Seq<char>) -> Option<VirtualDevice> {
        if self.contains_id(id) {
            Some(self@[self.position_of(id)])
        } else {
            None
        }
    }

    /// Identifiers are unique, and each is either `vac_<k>` for a number `k`
    /// below the next one to hand out or `virtual_<i>`.
    pub closed spec fn wf(&self) -> bool {
        &&& 1 <= self.next_device_id
        &&& forall|i: int, j: int|
            0 <= i < j < self.virtual_devices@.len() ==> #[trigger] self.virtual_devices@[i].id@
                != #[trigger] self.virtual_devices@[j].id@
        &&& forall|i: int|
            0 <= i < self.virtual_devices@.len() ==> issued_vac_label(
                #[trigger] self.virtual_devices@[i].id@,
                self.next_device_id as nat,
            ) || is_virtual_label(self.virtual_devices@[i].id@)
    }

    /// In a well-formed registry the device found by identifier is the only
    /// one with that identifier.
    pub proof fn lemma_lookup_unique(&self, i: int)
        requires
            self.wf(),
            0 <= i < self@.len(),
        ensures
            self.contains_id(self@[i].id@),
            self.position_of(self@[i].id@) == i,
            self.lookup(self@[i].id@) == Some(self@[i]),
    {
        let id = self@[i].id@;
        assert(self@[i].id@ == id);
        let p = self.position_of(id);
        if p != i {
            if p < i {
                assert(self.virtual_devices@[p].id@ != self.virtual_devices@[i].id@);
            } else {
                assert(self.virtual_devices@[i].id@ != self.virtual_devices@[p].id@);
            }
        }
    }

    /// An empty registry.
    pub fn new() -> (m: Self)
        ensures
            m.wf(),
            m@ == Seq::<VirtualDevice>::empty(),
            m.next_id() == 1,
    {
        DeviceManager { virtual_devices: Vec::new(), next_device_id: 1 }
    }

    /// The number that the next created device gets in its identifier.
    pub fn next_device_number(&self) -> (n: usize)
        ensures
            n == self.next_id(),
    {
        self.next_device_id
    }

    fn position(&self, id: &String) -> (r: Option<usize>)
        requires
            self.wf(),
        ensures
            match r {
                Some(i) => i < self@.len() && self@[i as int].id@ == id@ && self.position_of(id@)
                    == i,
                None => !self.contains_id(id@),
            },
    {
        let mut i: usize = 0;
        while i < self.virtual_devices.len()
            invariant
                self.wf(),
                i <= self.virtual_devices@.len(),
                forall|j: int| 0 <= j < i ==> #[trigger] self.virtual_devices@[j].id@ != id@,
            decreases self.virtual_devices@.len() - i,
        {
            if self.virtual_devices[i].id == *id {
                proof {
                    self.lemma_lookup_unique(i as int);
                }
                return Some(i);
            }
            i = i + 1;
        }
        None
    }

    /// Puts `d` in place of the device with its identifier, or appends it.
    fn upsert_device(&mut self, d: VirtualDevice)
        requires
            old(self).wf(),
            is_virtual_label(d.id@),
        ensures
            final(self).wf(),
            final(self).next_id() == old(self).next_id(),
            final(self)@ == upsert(old(self)@, d),
    {
        let ghost old_devs = self.virtual_devices@;
        let ghost dd = d;
        match self.position(&d.id) {
            Some(i) => {
                self.virtual_devices.set(i, d);
                proof {
                    assert(old_devs[i as int].id@ == dd.id@);
                    assert(self.virtual_devices@ == old_devs.update(i as int, dd));
                    assert forall|a: int, b: int|
                        0 <= a < b < self.virtual_devices@.len() implies #[trigger] self.virtual_devices@[a].id@
                        != #[trigger] self.virtual_devices@[b].id@ by {
                        assert(self.virtual_devices@[a].id@ == old_devs[a].id@);
                        assert(self.virtual_devices@[b].id@ == old_devs[b].id@);
                    }
                    assert forall|a: int|
                        0 <= a < self.virtual_devices@.len() implies issued_vac_label(
                        #[trigger] self.virtual_devices@[a].id@,
                        self.next_device_id as nat,
                    ) || is_virtual_label(self.virtual_devices@[a].id@) by {
                        assert(self.virtual_devices@[a].id@ == old_devs[a].id@);
                    }
                }
            },
            None => {
                proof {
                    assert forall|k: int| 0 <= k < old_devs.len() implies old_devs[k].id@
                        != dd.id@ by {
                        assert(self@[k].id@ == old_devs[k].id@);
                    }
                }
                self.virtual_devices.push(d);
                proof {
                    assert(self.virtual_devices@ == old_devs.push(dd));
                    assert forall|a: int, b: int|
                        0 <= a < b < self.virtual_devices@.len() implies #[trigger] self.virtual_devices@[a].id@
                        != #[trigger] self.virtual_devices@[b].id@ by {
                        if b == old_devs.len() {
                            assert(old_devs[a].id@ != dd.id@);
                        } else {
                            assert(old_devs[a].id@ != old_devs[b].id@);
                        }
                    }
                    assert forall|a: int|
                        0 <= a < self.virtual_devices@.len() implies issued_vac_label(
                        #[trigger] self.virtual_devices@[a].id@,
                        self.next_device_id as nat,
                    ) || is_virtual_label(self.virtual_devices@[a].id@) by {
                        if a < old_devs.len() {
                            assert(self.virtual_devices@[a] == old_devs[a]);
                        }
                    }
                }
            },
        }
    }
    /// Registers the virtual cables among the host's output devices: for each
    /// probe, in order, whose name and format are known and whose name looks
    /// like a virtual cable, a device `virtual_<index>` that is active, put in
    /// place of any device with that identifier. Returns the devices
    /// registered, in order.
    pub fn detect_virtual_devices(&mut self, probes: &Vec<DeviceProbe>) -> (r: Vec<VirtualDevice>)
        requires
            old(self).wf(),
        ensures
            final(self).wf(),
            final(self).next_id() == old(self).next_id(),
            r@.len() == qualifying_indices(probes@).len(),
            forall|k: int|
                0 <= k < r@.len() ==> detected_from(
                    #[trigger] r@[k],
                    probes@[qualifying_indices(probes@)[k] as int],
                    qualifying_indices(probes@)[k],
                ),
            final(self)@ == upsert_all(old(self)@, r@),
            forall|i: int|
                0 <= i < probes@.len() && (#[trigger] probes@[i]).name is Some && probes@[i].format
                    is Some && (contains_seq(probes@[i].name->0@, "VB-Cable"@) || contains_seq(
                    probes@[i].name->0@,
                    "Virtual"@,
                ) || contains_seq(probes@[i].name->0@, "VAC"@) || contains_seq(
                    probes@[i].name->0@,
                    "Cable"@,
                )) ==> exists|k: int|
                    0 <= k < r@.len() && detected_from(#[trigger] r@[k], probes@[i], i as nat),
    {
        let ghost old_devs = self@;
        let mut found: Vec<VirtualDevice> = Vec::new();
        let mut i: usize = 0;
        while i < probes.len()
            invariant
                self.wf(),
                self.next_id() == old(self).next_id(),
                old_devs == old(self)@,
                i <= probes@.len(),
                found@.len() == qualifying_indices(probes@.take(i as int)).len(),
                forall|k: int|
                    0 <= k < found@.len() ==> detected_from(
                        #[trigger] found@[k],
                        probes@[qualifying_indices(probes@.take(i as int))[k] as int],
                        qualifying_indices(probes@.take(i as int))[k],
                    ),
                self@ == upsert_all(old_devs, found@),
            decreases probes@.len() - i,
        {
            let ghost before = probes@.take(i as int);
            let ghost after = probes@.take(i + 1);
            proof {
                assert(after.drop_last() =~= before);
                assert(after.last() == probes@[i as int]);
            }
            let probe = &probes[i];
            match (&probe.name, probe.format) {
                (Some(name), Some(f)) => {
                    if is_virtual_device_name(name.as_str()) {
                        let mut id = String::from_str("virtual_");
                        proof {
                            reveal_strlit("virtual_");
                            assert(id@ =~= virtual_prefix());
                        }
                        push_decimal(&mut id, i as u64);
                        let dev = VirtualDevice {
                            id,
                            name: name.clone(),
                            channels: f.channels,
                            sample_rate: f.sample_rate,
                            is_active: true,
                        };
                        proof {
                            assert(dev.id@ == virtual_label(i as nat));
                        }
                        let ghost found_before = found@;
                        self.upsert_device(dev.clone());
                        found.push(dev);
                        proof {
                            assert(found@.drop_last() =~= found_before);
                            assert(qualifying_indices(after) == qualifying_indices(before).push(
                                i as nat,
                            ));
                        }
                    } else {
                        proof {
                            assert(qualifying_indices(after) == qualifying_indices(before));
                        }
                    }
                },
                _ => {
                    proof {
                        assert(qualifying_indices(after) == qualifying_indices(before));
                    }
                },
            }
            i = i + 1;
        }
        proof {
            assert(probes@.take(i as int) =~= probes@);
            lemma_detection_registers_exactly(probes@);
            let qi = qualifying_indices(probes@);
            assert forall|j: int|
                0 <= j < probes@.len() && (#[trigger] probes@[j]).name is Some && probes@[j].format
                    is Some && (contains_seq(probes@[j].name->0@, "VB-Cable"@) || contains_seq(
                    probes@[j].name->0@,
                    "Virtual"@,
                ) || contains_seq(probes@[j].name->0@, "VAC"@) || contains_seq(
                    probes@[j].name->0@,
                    "Cable"@,
                )) implies exists|k: int|
                0 <= k < found@.len() && detected_from(#[trigger] found@[k], probes@[j], j as nat) by {
                assert(qi.contains(j as nat));
                let k = choose|k: int| 0 <= k < qi.len() && qi[k] == j as nat;
                assert(detected_from(found@[k], probes@[qi[k] as int], qi[k]));
            }
        }
        found
    }

    /// Creates a device named `name` with `channels` channels, identifier
    /// `vac_<n>` with the next number, sample rate 48000, active; returns a
    /// copy of it.
    pub fn create_virtual_device(&mut self, name: String, channels: u16) -> (r: VirtualDevice)
        requires
            old(self).wf(),
            old(self).next_id() < usize::MAX,
        ensures
            final(self).wf(),
            r.id@ == vac_label(old(self).next_id()),
            r.name == name,
            r.channels == channels,
            r.sample_rate == VIRTUAL_SAMPLE_RATE,
            r.is_active,
            final(self)@ == old(self)@.push(r),
            final(self).next_id() == old(self).next_id() + 1,
    {
        let n = self.next_device_id;
        let mut id = String::from_str("vac_");
        proof {
            reveal_strlit("vac_");
            assert(id@ =~= vac_prefix());
        }
        push_decimal(&mut id, n as u64);
        let ghost old_devs = self.virtual_devices@;
        proof {
            assert forall|i: int| 0 <= i < old_devs.len() implies #[trigger] old_devs[i].id@
                != id@ by {
                if issued_vac_label(old_devs[i].id@, n as nat) {
                    let k = choose|k: nat| 1 <= k < n && old_devs[i].id@ == vac_label(k);
                    if old_devs[i].id@ == id@ {
                        lemma_vac_label_injective(k, n as nat);
                    }
                } else {
                    assert(is_virtual_label(old_devs[i].id@));
                    let j = choose|j: nat| old_devs[i].id@ == virtual_label(j);
                    lemma_vac_not_virtual(n as nat, j);
                }
            }
        }
        self.next_device_id = n + 1;
        let device = VirtualDevice {
            id,
            name,
            channels,
            sample_rate: VIRTUAL_SAMPLE_RATE,
            is_active: true,
        };
        self.virtual_devices.push(device.clone());
        proof {
            assert(self.virtual_devices@ == old_devs.push(device));
            assert forall|a: int, b: int|
                0 <= a < b < self.virtual_devices@.len() implies #[trigger] self.virtual_devices@[a].id@
                != #[trigger] self.virtual_devices@[b].id@ by {
                if b == old_devs.len() {
                    assert(old_devs[a].id@ != id@);
                } else {
                    assert(old_devs[a].id@ != old_devs[b].id@);
                }
            }
            assert forall|a: int|
                0 <= a < self.virtual_devices@.len() implies issued_vac_label(
                #[trigger] self.virtual_devices@[a].id@,
                self.next_device_id as nat,
            ) || is_virtual_label(self.virtual_devices@[a].id@) by {
                if a < old_devs.len() {
                    assert(self.virtual_devices@[a] == old_devs[a]);
                    if issued_vac_label(old_devs[a].id@, n as nat) {
                        let k = choose|k: nat| 1 <= k < n && old_devs[a].id@ == vac_label(k);
                        assert(1 <= k < self.next_device_id && old_devs[a].id@ == vac_label(k));
                    }
                } else {
                    assert(self.virtual_devices@[a].id@ == vac_label(n as nat));
                }
            }
        }
        device
    }

    /// Removes the device with identifier `id`; fails with `Device not
    /// found`, changing nothing, when there is none.
    pub fn delete_virtual_device(&mut self, id: &str) -> (r: Result<(), String>)
        requires
            old(self).wf(),
        ensures
            final(self).wf(),
            final(self).next_id() == old(self).next_id(),
            r is Ok <==> old(self).contains_id(id@),
            r is Ok ==> final(self)@ == old(self)@.remove(old(self).position_of(id@)),
            r matches Err(e) ==> e@ == "Device not found"@ && final(self)@ == old(self)@,
    {
        let key = String::from_str(id);
        match self.position(&key) {
            Some(i) => {
                let ghost old_devs = self.virtual_devices@;
                self.virtual_devices.remove(i);
                proof {
                    assert(self.virtual_devices@ == old_devs.remove(i as int));
                    assert forall|a: int, b: int|
                        0 <= a < b < self.virtual_devices@.len() implies #[trigger] self.virtual_devices@[a].id@
                        != #[trigger] self.virtual_devices@[b].id@ by {
                        let a2 = if a < i { a } else { a + 1 };
                        let b2 = if b < i { b } else { b + 1 };
                        assert(self.virtual_devices@[a] == old_devs[a2]);
                        assert(self.virtual_devices@[b] == old_devs[b2]);
                        assert(old_devs[a2].id@ != old_devs[b2].id@);
                    }
                    assert forall|a: int|
                        0 <= a < self.virtual_devices@.len() implies issued_vac_label(
                        #[trigger] self.virtual_devices@[a].id@,
                        self.next_device_id as nat,
                    ) || is_virtual_label(self.virtual_devices@[a].id@) by {
                        let a2 = if a < i { a } else { a + 1 };
                        assert(self.virtual_devices@[a] == old_devs[a2]);
                        assert(issued_vac_label(old_devs[a2].id@, self.next_device_id as nat)
                            || is_virtual_label(old_devs[a2].id@));
                    }
                }
                Ok(())
            },
            None => Err(String::from_str("Device not found")),
        }
    }

    /// Copies of all devices, in order.
    pub fn get_virtual_devices(&self) -> (r: Vec<VirtualDevice>)
        ensures
            r@ == self@,
    {
        let mut out: Vec<VirtualDevice> = Vec::new();
        let mut i: usize = 0;
        while i < self.virtual_devices.len()
            invariant
                i <= self.virtual_devices@.len(),
                out@ == self.virtual_devices@.take(i as int),
            decreases self.virtual_devices@.len() - i,
        {
            out.push(self.virtual_devices[i].clone());
            proof {
                assert(out@ =~= self.virtual_devices@.take(i + 1));
            }
            i = i + 1;
        }
        proof {
            assert(self.virtual_devices@.take(i as int) =~= self.virtual_devices@);
        }
        out
    }

    /// A copy of the device with identifier `id`, if any.
    pub fn get_virtual_device(&self, id: &str) -> (r: Option<VirtualDevice>)
        requires
            self.wf(),
        ensures
            r == self.lookup(id@),
    {
        let key = String::from_str(id);
        match self.position(&key) {
            Some(i) => Some(self.virtual_devices[i].clone()),
            None => None,
        }
    }
}

impl Default for DeviceManager {
    /// The same as `DeviceManager::new()`.
    fn default() -> (m: Self)
        ensures
            m.wf(),
            m@ == Seq::<VirtualDevice>::empty(),
            m.next_id() == 1,
    {
        Self::new()
    }
}

/// The identifier that `create_virtual_device` hands out is not in use.
pub proof fn lemma_next_vac_label_fresh(m: DeviceManager)
    requires
        m.wf(),
    ensures
        !m.contains_id(vac_label(m.next_id())),
{
    if m.contains_id(vac_label(m.next_id())) {
        let i = m.position_of(vac_label(m.next_id()));
        assert(m@[i].id@ == vac_label(m.next_id()));
        let id = m.virtual_devices@[i].id@;
        if issued_vac_label(id, m.next_device_id as nat) {
            let k = choose|k: nat| 1 <= k < m.next_device_id && id == vac_label(k);
            lemma_vac_label_injective(k, m.next_id());
        } else {
            assert(is_virtual_label(id));
            let j = choose|j: nat| id == virtual_label(j);
            lemma_vac_not_virtual(m.next_id(), j);
        }
    }
}

/// A device that has just been appended is found by its identifier, and
/// every identifier of the earlier registry still finds the same device.
pub proof fn lemma_created_device_found(
    before: DeviceManager,
    after: DeviceManager,
    d: VirtualDevice,
)
    requires
        before.wf(),
        after.wf(),
        after@ == before@.push(d),
    ensures
        after.lookup(d.id@) == Some(d),
        forall|id: Seq<char>| #[trigger]
            before.contains_id(id) ==> after.lookup(id) == before.lookup(id),
{
    after.lemma_lookup_unique(before@.len() as int);
    assert forall|id: Seq<char>| #[trigger] before.contains_id(id) implies after.lookup(id)
        == before.lookup(id) by {
        let p = before.position_of(id);
        before.lemma_lookup_unique(p);
        assert(after@[p] == before@[p]);
        after.lemma_lookup_unique(p);
    }
}

/// After a device is deleted, its identifier finds nothing, and every other
/// identifier finds what it found before.
pub proof fn lemma_deleted_device_gone(before: DeviceManager, after: DeviceManager, id: Seq<char>)
    requires
        before.wf(),
        after.wf(),
        before.contains_id(id),
        after@ == before@.remove(before.position_of(id)),
    ensures
        after.lookup(id) is None,
        forall|other: Seq<char>| other != id ==> #[trigger] after.lookup(other) == before.lookup(
            other,
        ),
{
    let p = before.position_of(id);
    before.lemma_lookup_unique(p);
    if after.contains_id(id) {
        let q = after.position_of(id);
        let q2 = if q < p { q } else { q + 1 };
        assert(after@[q] == before@[q2]);
        before.lemma_lookup_unique(q2);
    }
    assert forall|other: Seq<char>| other != id implies #[trigger] after.lookup(other)
        == before.lookup(other) by {
        if before.contains_id(other) {
            let q = before.position_of(other);
            before.lemma_lookup_unique(q);
            assert(q != p);
            let q2 = if q < p { q } else { q - 1 };
            assert(after@[q2] == before@[q]);
            after.lemma_lookup_unique(q2);
        } else if after.contains_id(other) {
            let q = after.position_of(other);
            let q2 = if q < p { q } else { q + 1 };
            assert(after@[q] == before@[q2]);
        }
    }
}

proof fn lemma_qualifying_increasing(probes: Seq<DeviceProbe>)
    ensures
        forall|a: int, b: int|
            0 <= a < b < qualifying_indices(probes).len() ==> #[trigger] qualifying_indices(
                probes,
            )[a] < #[trigger] qualifying_indices(probes)[b],
        forall|a: int|
            0 <= a < qualifying_indices(probes).len() ==> #[trigger] qualifying_indices(probes)[a]
                < probes.len(),
    decreases probes.len(),
{
    if probes.len() > 0 {
        let rest = probes.drop_last();
        lemma_qualifying_increasing(rest);
        let q = qualifying_indices(rest);
        if qualifies(probes.last()) {
            let qq = q.push((probes.len() - 1) as nat);
            assert(qualifying_indices(probes) == qq);
            assert forall|a: int, b: int| 0 <= a < b < qq.len() implies #[trigger] qq[a]
                < #[trigger] qq[b] by {
                if b < q.len() {
                    assert(qq[a] == q[a] && qq[b] == q[b]);
                } else {
                    assert(qq[a] == q[a]);
                }
            }
            assert forall|a: int| 0 <= a < qq.len() implies #[trigger] qq[a] < probes.len() by {
                if a < q.len() {
                    assert(qq[a] == q[a]);
                }
            }
        } else {
            assert(qualifying_indices(probes) == q);
        }
    }
}

proof fn lemma_upsert_all_contains(devs: Seq<VirtualDevice>, ds: Seq<VirtualDevice>)
    requires
        forall|a: int, b: int| 0 <= a < b < ds.len() ==> #[trigger] ds[a].id@ != #[trigger] ds[b].id@,
    ensures
        forall|k: int|
            0 <= k < ds.len() ==> exists|i: int|
                0 <= i < upsert_all(devs, ds).len() && #[trigger] upsert_all(devs, ds)[i]
                    == #[trigger] ds[k],
    decreases ds.len(),
{
    if ds.len() > 0 {
        let prefix = ds.drop_last();
        let d = ds.last();
        let u = upsert_all(devs, prefix);
        lemma_upsert_all_contains(devs, prefix);
        let after = upsert(u, d);
        assert(upsert_all(devs, ds) == after);
        assert forall|k: int| 0 <= k < ds.len() implies exists|i: int|
            0 <= i < after.len() && #[trigger] after[i] == #[trigger] ds[k] by {
            if k == ds.len() - 1 {
                if exists|i: int| 0 <= i < u.len() && #[trigger] u[i].id@ == d.id@ {
                    let p = choose|i: int| 0 <= i < u.len() && #[trigger] u[i].id@ == d.id@;
                    assert(after[p] == d);
                } else {
                    assert(after[u.len() as int] == d);
                }
            } else {
                assert(prefix[k] == ds[k]);
                let i = choose|i: int| 0 <= i < u.len() && #[trigger] u[i] == prefix[k];
                if exists|j: int| 0 <= j < u.len() && #[trigger] u[j].id@ == d.id@ {
                    let p = choose|j: int| 0 <= j < u.len() && #[trigger] u[j].id@ == d.id@;
                    assert(ds[k].id@ != ds[ds.len() - 1].id@);
                    assert(p != i);
                    assert(after[i] == ds[k]);
                } else {
                    assert(after[i] == ds[k]);
                }
            }
        }
    }
}

/// Every device that detection reports is afterwards found by its
/// identifier.
pub proof fn lemma_detected_devices_found(
    before: DeviceManager,
    after: DeviceManager,
    probes: Seq<DeviceProbe>,
    r: Seq<VirtualDevice>,
)
    requires
        before.wf(),
        after.wf(),
        r.len() == qualifying_indices(probes).len(),
        forall|k: int|
            0 <= k < r.len() ==> detected_from(
                #[trigger] r[k],
                probes[qualifying_indices(probes)[k] as int],
                qualifying_indices(probes)[k],
            ),
        after@ == upsert_all(before@, r),
    ensures
        forall|k: int| 0 <= k < r.len() ==> after.lookup(#[trigger] r[k].id@) == Some(r[k]),
{
    lemma_qualifying_increasing(probes);
    let qi = qualifying_indices(probes);
    assert forall|a: int, b: int| 0 <= a < b < r.len() implies #[trigger] r[a].id@
        != #[trigger] r[b].id@ by {
        assert(detected_from(r[a], probes[qi[a] as int], qi[a]));
        assert(detected_from(r[b], probes[qi[b] as int], qi[b]));
        assert(qi[a] < qi[b]);
        if r[a].id@ == r[b].id@ {
            lemma_prefix_cancel(virtual_prefix(), decimal(qi[a]), decimal(qi[b]));
            lemma_decimal_injective(qi[a], qi[b]);
        }
    }
    lemma_upsert_all_contains(before@, r);
    assert forall|k: int| 0 <= k < r.len() implies after.lookup(#[trigger] r[k].id@) == Some(r[k]) by {
        let i = choose|i: int| 0 <= i < after@.len() && #[trigger] after@[i] == r[k];
        after.lemma_lookup_unique(i);
    }
}

/// No two devices share an identifier; every identifier is `vac_<k>` for a
/// number `k` already handed out, or `virtual_<i>`.
pub proof fn lemma_device_ids_unique(m: DeviceManager)
    requires
        m.wf(),
    ensures
        forall|i: int, j: int| 0 <= i < j < m@.len() ==> #[trigger] m@[i].id@ != #[trigger] m@[j].id@,
        forall|i: int|
            0 <= i < m@.len() ==> issued_vac_label(#[trigger] m@[i].id@, m.next_id())
                || is_virtual_label(m@[i].id@),
{
}

/// Detection registers exactly the devices at the enumeration indices whose
/// name and format the host told and whose name contains `VB-Cable`,
/// `Virtual`, `VAC` or `Cable`, in increasing order of index.
pub proof fn lemma_detection_registers_exactly(probes: Seq<DeviceProbe>)
    ensures
        forall|i: int|
            0 <= i < probes.len() ==> (qualifying_indices(probes).contains(i as nat) <==> {
                &&& (#[trigger] probes[i]).name is Some
                &&& probes[i].format is Some
                &&& contains_seq(probes[i].name->0@, "VB-Cable"@) || contains_seq(
                    probes[i].name->0@,
                    "Virtual"@,
                ) || contains_seq(probes[i].name->0@, "VAC"@) || contains_seq(
                    probes[i].name->0@,
                    "Cable"@,
                )
            }),
        forall|k: int|
            0 <= k < qualifying_indices(probes).len() ==> #[trigger] qualifying_indices(probes)[k]
                < probes.len(),
        forall|a: int, b: int|
            0 <= a < b < qualifying_indices(probes).len() ==> #[trigger] qualifying_indices(
                probes,
            )[a] < #[trigger] qualifying_indices(probes)[b],
    decreases probes.len(),
{
    lemma_qualifying_increasing(probes);
    if probes.len() > 0 {
        let rest = probes.drop_last();
        lemma_detection_registers_exactly(rest);
        lemma_qualifying_increasing(rest);
        let q = qualifying_indices(rest);
        let n = (probes.len() - 1) as nat;
        assert forall|i: int| 0 <= i < probes.len() implies (qualifying_indices(probes).contains(
            i as nat,
        ) <==> {
            &&& (#[trigger] probes[i]).name is Some
            &&& probes[i].format is Some
            &&& contains_seq(probes[i].name->0@, "VB-Cable"@) || contains_seq(
                probes[i].name->0@,
                "Virtual"@,
            ) || contains_seq(probes[i].name->0@, "VAC"@) || contains_seq(
                probes[i].name->0@,
                "Cable"@,
            )
        }) by {
            if i < n {
                assert(rest[i] == probes[i]);
                if qualifies(probes.last()) {
                    let qq = q.push(n);
                    if qq.contains(i as nat) {
                        let k = choose|k: int| 0 <= k < qq.len() && qq[k] == i as nat;
                        if k < q.len() {
                            assert(q[k] == i as nat);
                            assert(q.contains(i as nat));
                        }
                    }
                    if q.contains(i as nat) {
                        let k = choose|k: int| 0 <= k < q.len() && q[k] == i as nat;
                        assert(qq[k] == i as nat);
                    }
                }
            } else {
                assert(probes.last() == probes[i]);
                if qualifies(probes.last()) {
                    let qq = q.push(n);
                    assert(qq[q.len() as int] == n);
                } else {
                    if q.contains(n) {
                        let k = choose|k: int| 0 <= k < q.len() && q[k] == n;
                        assert(q[k] < rest.len());
                    }
                }
            }
        }
    }
}

} // verus!
