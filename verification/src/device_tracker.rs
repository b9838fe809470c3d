use crate::keyed::{
    distinct_keys, keyed_map, lemma_keyed_map_properties, lemma_keyed_map_push,
    lemma_keyed_map_remove, lemma_keyed_map_update,
};
use crate::peripheral::{derive_signature, Peripheral};
use crate::signature::{Signature, SigView};
use crate::time::Duration;
use vstd::prelude::*;

verus! {

/// A discovered device as the bounded tracker holds it: its signature, its
/// signal strength, and when it was last seen on the monotonic clock.
#[derive(Debug)]
pub struct DiscoveredDevice {
    pub signature: Signature,
    pub rssi: i32,
    last_seen: u64,
}

/// The mathematical value of a [`DiscoveredDevice`].
pub struct DiscoveredDeviceView {
    pub signature: SigView,
    pub rssi: int,
    pub last_seen: int,
}

impl View for DiscoveredDevice {
    type V = DiscoveredDeviceView;

    closed spec fn view(&self) -> DiscoveredDeviceView {
        DiscoveredDeviceView {
            signature: self.signature@,
            rssi: self.rssi as int,
            last_seen: self.last_seen as int,
        }
    }
}

/// The view of a sequence of tracked devices.
pub open spec fn dd_views(s: Seq<DiscoveredDevice>) -> Seq<DiscoveredDeviceView> {
    s.map_values(|d: DiscoveredDevice| d@)
}

/// The key under which a tracked device is filed: its signature.
pub open spec fn dd_by_signature() -> spec_fn(DiscoveredDeviceView) -> SigView {
    |d: DiscoveredDeviceView| d.signature
}

/// Elapsed milliseconds since a device was last seen; a monotonic clock
/// reading from before the sighting counts as no time at all.
pub open spec fn age_ms(d: DiscoveredDeviceView, now: int) -> int {
    if now >= d.last_seen {
        now - d.last_seen
    } else {
        0
    }
}

impl DiscoveredDevice {
    pub fn new(signature: Signature, rssi: i32, now: u64) -> (r: DiscoveredDevice)
        ensures
            r@.signature == signature@,
            r@.rssi == rssi as int,
            r@.last_seen == now as int,
    {
        DiscoveredDevice { signature, rssi, last_seen: now }
    }

    /// Whole seconds since this device was last seen.
    pub fn age_secs(&self, now: u64) -> (r: u64)
        ensures
            r == age_ms(self@, now as int) / 1000,
    {
        if now >= self.last_seen {
            (now - self.last_seen) / 1000
        } else {
            0
        }
    }

    /// A fresh sighting: signal strength and last-seen time are overwritten.
    pub fn update(&mut self, rssi: i32, now: u64)
        ensures
            final(self)@.signature == old(self)@.signature,
            final(self)@.rssi == rssi as int,
            final(self)@.last_seen == now as int,
    {
        self.rssi = rssi;
        self.last_seen = now;
    }
}

impl Clone for DiscoveredDevice {
    fn clone(&self) -> (r: DiscoveredDevice)
        ensures
            r == *self,
    {
        DiscoveredDevice {
            signature: self.signature.clone(),
            rssi: self.rssi,
            last_seen: self.last_seen,
        }
    }
}

/// The sequence counter's successor: one more, wrapping to zero at the top.
pub open spec fn wrap_inc(s: int) -> int {
    if s == 0xFFFF_FFFF {
        0
    } else {
        s + 1
    }
}

/// The sequence number moves on every state change: wraparound included,
/// its successor never equals the value it had.
pub proof fn lemma_sequence_steps(s: u32)
    ensures
        wrap_inc(s as int) != s as int,
{
}

/// The mathematical value of a [`DeviceTracker`]: its records by signature,
/// its change counter, and its configured capacity.
pub struct TrackerView {
    pub devices: Map<SigView, DiscoveredDeviceView>,
    pub sequence: int,
    pub capacity: int,
}

/// A capacity-bounded device store for fixed-memory deployments: at
/// capacity, admitting a new signature evicts the least recently seen
/// entry; a wrapping sequence counter reports every state change.
pub struct DeviceTracker {
    devices: Vec<DiscoveredDevice>,
    sequence: u32,
    capacity: usize,
}

impl View for DeviceTracker {
    type V = TrackerView;

    closed spec fn view(&self) -> TrackerView {
        TrackerView {
            devices: keyed_map(dd_views(self.devices@), dd_by_signature()),
            sequence: self.sequence as int,
            capacity: self.capacity as int,
        }
    }
}

/// The index of the tracked device filed under this signature, if any.
fn find_device(v: &Vec<DiscoveredDevice>, sig: &Signature) -> (r: Option<usize>)
    ensures
        match r {
            Some(j) => j < v@.len() && v@[j as int]@.signature == sig@,
            None => forall|k: int| 0 <= k < v@.len() ==> (#[trigger] v@[k])@.signature != sig@,
        },
{
    let mut k: usize = 0;
    while k < v.len()
        invariant
            k <= v@.len(),
            forall|j: int| 0 <= j < k ==> (#[trigger] v@[j])@.signature != sig@,
        decreases v@.len() - k,
    {
        if v[k].signature == *sig {
            return Some(k);
        }
        k = k + 1;
    }
    None
}

impl DeviceTracker {
    /// Well-formed: one record per signature, never more records than the
    /// configured capacity.
    pub closed spec fn wf(&self) -> bool {
        &&& distinct_keys(dd_views(self.devices@), dd_by_signature())
        &&& self.devices@.len() <= self.capacity
        &&& self.capacity >= 1
    }

    /// An empty tracker that will never hold more than `capacity` records.
    pub fn new(capacity: usize) -> (r: DeviceTracker)
        requires
            capacity >= 1,
        ensures
            r.wf(),
            r@.devices == Map::<SigView, DiscoveredDeviceView>::empty(),
            r@.sequence == 0,
            r@.capacity == capacity as int,
    {
        let r = DeviceTracker { devices: Vec::new(), sequence: 0, capacity };
        proof {
            assert(dd_views(r.devices@) =~= Seq::<DiscoveredDeviceView>::empty());
            assert(r@.devices =~= Map::<SigView, DiscoveredDeviceView>::empty());
        }
        r
    }

    /// How many devices the tracker currently holds.
    pub fn device_count(&self) -> (r: usize)
        requires
            self.wf(),
        ensures
            r == self@.devices.len(),
    {
        proof {
            lemma_keyed_map_properties(dd_views(self.devices@), dd_by_signature());
        }
        self.devices.len()
    }

    /// The current change-sequence number. Consumers compare two readings
    /// for inequality, never for order: the counter wraps.
    pub fn get_sequence(&self) -> (r: u32)
        ensures
            r as int == self@.sequence,
    {
        self.sequence
    }

    /// The wrapping bump applied on every state change.
    fn bump_sequence(&mut self)
        ensures
            final(self)@.sequence == wrap_inc(old(self)@.sequence),
            final(self)@.devices == old(self)@.devices,
            final(self)@.capacity == old(self)@.capacity,
            final(self).devices@ == old(self).devices@,
            final(self).wf() == old(self).wf(),
    {
        if self.sequence == 0xFFFF_FFFF {
            self.sequence = 0;
        } else {
            self.sequence = self.sequence + 1;
        }
    }

    /// Resolve the advertisement to a signature and merge the sighting: an
    /// unresolvable observation is a no-op; a known signature is refreshed
    /// in place; a new one is admitted, at capacity by first evicting a
    /// least recently seen entry. Every change bumps the sequence.
#[verifier::rlimit(40)]
    pub fn update(&mut self, peripheral: Peripheral, rssi: i32, now: u64)
        requires
            old(self).wf(),
            peripheral.wf(),
        ensures
            final(self).wf(),
            final(self)@.capacity == old(self)@.capacity,
            match derive_signature(peripheral@) {
                Option::None => final(self)@ == old(self)@,
                Option::Some(sig) => {
                    let fresh = DiscoveredDeviceView {
                        signature: sig,
                        rssi: rssi as int,
                        last_seen: now as int,
                    };
                    &&& final(self)@.sequence == wrap_inc(old(self)@.sequence)
                    &&& if old(self)@.devices.dom().contains(sig) || old(self)@.devices.len()
                        < old(self)@.capacity {
                        final(self)@.devices == old(self)@.devices.insert(sig, fresh)
                    } else {
                        exists|victim: SigView|
                            {
                                &&& #[trigger] old(self)@.devices.dom().contains(victim)
                                &&& forall|k: SigView|
                                    #[trigger] old(self)@.devices.dom().contains(k) ==> old(
                                        self,
                                    )@.devices[victim].last_seen <= old(self)@.devices[k].last_seen
                                &&& final(self)@.devices == old(self)@.devices.remove(
                                    victim,
                                ).insert(sig, fresh)
                            }
                    }
                },
            },
    {
        proof {
            lemma_keyed_map_properties(dd_views(self.devices@), dd_by_signature());
        }
        match peripheral.try_into_signature() {
            None => {},
            Some(signature) => {
                let ghost pre = dd_views(self.devices@);
                match find_device(&self.devices, &signature) {
                    Some(j) => {
                        self.devices[j].update(rssi, now);
                        proof {
                            let post = dd_views(self.devices@);
                            assert(post =~= pre.update(j as int, self.devices@[j as int]@));
                            lemma_keyed_map_update(
                                pre,
                                dd_by_signature(),
                                j as int,
                                self.devices@[j as int]@,
                            );
                            assert(old(self)@.devices.dom().contains(signature@)) by {
                                assert(old(self)@.devices.contains_pair(
                                    pre[j as int].signature,
                                    pre[j as int],
                                ));
                            }
                        }
                    },
                    None => {
                        proof {
                            assert(!old(self)@.devices.dom().contains(signature@)) by {
                                if old(self)@.devices.dom().contains(signature@) {
                                    let i = choose|i: int|
                                        0 <= i < pre.len() && dd_by_signature()(
                                            #[trigger] pre[i],
                                        ) == signature@;
                                    assert(self.devices@[i]@.signature == signature@);
                                }
                            }
                        }
                        if self.devices.len() >= self.capacity {
                            let victim = oldest_index(&self.devices);
                            let ghost vsig = pre[victim as int].signature;
                            self.devices.remove(victim);
                            proof {
                                assert(dd_views(self.devices@) =~= pre.remove(victim as int));
                                lemma_keyed_map_remove(pre, dd_by_signature(), victim as int);
                                assert forall|k: SigView|
                                    #[trigger] old(self)@.devices.dom().contains(k) implies old(
                                    self,
                                )@.devices[vsig].last_seen <= old(self)@.devices[k].last_seen by {
                                    let i = choose|i: int|
                                        0 <= i < pre.len() && dd_by_signature()(
                                            #[trigger] pre[i],
                                        ) == k;
                                    assert(old(self)@.devices.contains_pair(
                                        pre[i].signature,
                                        pre[i],
                                    ));
                                    assert(old(self)@.devices.contains_pair(
                                        pre[victim as int].signature,
                                        pre[victim as int],
                                    ));
                                }
                            }
                        }
                        let ghost mid = dd_views(self.devices@);
                        let d = DiscoveredDevice::new(signature, rssi, now);
                        self.devices.push(d);
                        proof {
                            assert(dd_views(self.devices@) =~= mid.push(d@));
                            lemma_keyed_map_push(mid, dd_by_signature(), d@);
                            assert forall|a: int, b: int|
                                0 <= a < b < dd_views(self.devices@).len() implies dd_by_signature()(
                                #[trigger] dd_views(self.devices@)[a],
                            ) != dd_by_signature()(#[trigger] dd_views(self.devices@)[b]) by {
                                let post = dd_views(self.devices@);
                                if b == post.len() - 1 {
                                    assert(post[a] == mid[a]);
                                    assert(!keyed_map(mid, dd_by_signature()).dom().contains(
                                        signature@,
                                    ));
                                    lemma_keyed_map_properties(mid, dd_by_signature());
                                    assert(keyed_map(mid, dd_by_signature()).contains_pair(
                                        mid[a].signature,
                                        mid[a],
                                    ));
                                }
                            }
                        }
                    },
                }
                self.bump_sequence();
            },
        }
    }
}

impl DeviceTracker {
    /// Drop every record whose elapsed time since its last sighting exceeds
    /// `max_age`; the sequence is bumped once for the whole pass, and only
    /// if the pass removed anything.
#[verifier::rlimit(40)]
    pub fn prune_old(&mut self, max_age: Duration, now: u64)
        requires
            old(self).wf(),
            max_age@ >= 0,
        ensures
            final(self).wf(),
            final(self)@.capacity == old(self)@.capacity,
            forall|k: SigView|
                #[trigger] final(self)@.devices.dom().contains(k) <==> (
                old(self)@.devices.dom().contains(k) && age_ms(old(self)@.devices[k], now as int)
                    <= max_age@),
            forall|k: SigView|
                #[trigger] final(self)@.devices.dom().contains(k) ==> final(self)@.devices[k]
                    == old(self)@.devices[k],
            final(self)@.sequence == if exists|k: SigView|
                #[trigger] old(self)@.devices.dom().contains(k) && age_ms(
                    old(self)@.devices[k],
                    now as int,
                ) > max_age@ {
                wrap_inc(old(self)@.sequence)
            } else {
                old(self)@.sequence
            },
    {
        let ghost orig = old(self)@.devices;
        let ghost maxa = max_age@;
        proof {
            lemma_keyed_map_properties(dd_views(self.devices@), dd_by_signature());
        }
        let max_ms: u64 = max_age.millis as u64;
        let mut removed: bool = false;
        let mut j: usize = 0;
        while j < self.devices.len()
            invariant
                j <= self.devices@.len(),
                self.devices@.len() <= old(self).devices@.len(),
                self.capacity == old(self).capacity,
                self.sequence == old(self).sequence,
                old(self).wf(),
                max_ms as int == maxa,
                distinct_keys(dd_views(self.devices@), dd_by_signature()),
                forall|k: SigView|
                    #[trigger] keyed_map(dd_views(self.devices@), dd_by_signature()).dom().contains(k)
                        ==> orig.dom().contains(k) && keyed_map(dd_views(self.devices@), dd_by_signature())[k]
                        == orig[k],
                forall|k: SigView|
                    #[trigger] orig.dom().contains(k) && !keyed_map(
                        dd_views(self.devices@),
                        dd_by_signature(),
                    ).dom().contains(k) ==> age_ms(orig[k], now as int) > maxa,
                removed == exists|k: SigView|
                    #[trigger] orig.dom().contains(k) && !keyed_map(
                        dd_views(self.devices@),
                        dd_by_signature(),
                    ).dom().contains(k),
                forall|t: int|
                    0 <= t < j ==> age_ms(#[trigger] dd_views(self.devices@)[t], now as int)
                        <= maxa,
            decreases self.devices@.len() - j,
        {
            let ghost pre = dd_views(self.devices@);
            let d_last_seen = self.devices[j].last_seen;
            let elapsed: u64 = if now >= d_last_seen {
                now - d_last_seen
            } else {
                0
            };
            if elapsed > max_ms {
                proof {
                    lemma_keyed_map_properties(pre, dd_by_signature());
                    lemma_keyed_map_remove(pre, dd_by_signature(), j as int);
                }
                self.devices.remove(j);
                removed = true;
                proof {
                    assert(dd_views(self.devices@) =~= pre.remove(j as int));
                    let vk = pre[j as int].signature;
                    assert(keyed_map(pre, dd_by_signature()).contains_pair(dd_by_signature()(pre[j as int]), pre[j as int]));
                    assert(dd_by_signature()(pre[j as int]) == vk);
                    assert(keyed_map(pre, dd_by_signature()).dom().contains(vk));
                    assert(orig.dom().contains(vk) && keyed_map(pre, dd_by_signature())[vk] == orig[vk]);
                    assert(orig[vk] == pre[j as int]);
                    assert(age_ms(orig[vk], now as int) > maxa);
                    assert forall|t: int|
                        0 <= t < j implies age_ms(
                        #[trigger] dd_views(self.devices@)[t],
                        now as int,
                    ) <= maxa by {
                        assert(dd_views(self.devices@)[t] == pre[t]);
                    }
                }
            } else {
                proof {
                    assert(age_ms(pre[j as int], now as int) <= maxa);
                }
                j = j + 1;
            }
        }
        proof {
            let fin = keyed_map(dd_views(self.devices@), dd_by_signature());
            lemma_keyed_map_properties(dd_views(self.devices@), dd_by_signature());
            assert forall|k: SigView| #[trigger] fin.dom().contains(k) implies orig.dom().contains(
                k,
            ) && fin[k] == orig[k] && age_ms(orig[k], now as int) <= maxa by {
                let t = choose|t: int|
                    0 <= t < dd_views(self.devices@).len() && dd_by_signature()(
                        #[trigger] dd_views(self.devices@)[t],
                    ) == k;
                assert(fin.contains_pair(
                    dd_views(self.devices@)[t].signature,
                    dd_views(self.devices@)[t],
                ));
                assert(age_ms(dd_views(self.devices@)[t], now as int) <= maxa);
            }
            if exists|k: SigView|
                #[trigger] orig.dom().contains(k) && age_ms(orig[k], now as int) > maxa {
                let k = choose|k: SigView|
                    #[trigger] orig.dom().contains(k) && age_ms(orig[k], now as int) > maxa;
                assert(!fin.dom().contains(k));
                assert(removed);
            } else {
                if removed {
                    let k = choose|k: SigView|
                        #[trigger] orig.dom().contains(k) && !keyed_map(
                            dd_views(self.devices@),
                            dd_by_signature(),
                        ).dom().contains(k);
                    assert(age_ms(orig[k], now as int) > maxa);
                    assert(false);
                }
            }
        }
        if removed {
            self.bump_sequence();
        }
    }

    /// Every tracked device, strongest signal first.
    pub fn get_sorted(&self) -> (r: Vec<DiscoveredDevice>)
        requires
            self.wf(),
        ensures
            dd_views(r@).len() == self@.devices.len(),
            forall|i: int|
                0 <= i < r@.len() ==> self@.devices.contains_pair(
                    (#[trigger] dd_views(r@)[i]).signature,
                    dd_views(r@)[i],
                ),
            forall|k: SigView|
                #[trigger] self@.devices.dom().contains(k) ==> exists|i: int|
                    0 <= i < r@.len() && (#[trigger] dd_views(r@)[i]).signature == k,
            distinct_keys(dd_views(r@), dd_by_signature()),
            forall|i: int, j: int|
                0 <= i < j < r@.len() ==> (#[trigger] dd_views(r@)[i]).rssi >= (
                #[trigger] dd_views(r@)[j]).rssi,
    {
        broadcast use vstd::seq_lib::group_to_multiset_ensures;

        let mut out: Vec<DiscoveredDevice> = Vec::new();
        let mut i: usize = 0;
        while i < self.devices.len()
            invariant
                i <= self.devices@.len(),
                out@.len() == i,
                forall|k: int| 0 <= k < i ==> out@[k] == self.devices@[k],
            decreases self.devices@.len() - i,
        {
            out.push(self.devices[i].clone());
            i = i + 1;
        }
        proof {
            assert(out@ =~= self.devices@);
            assert(dd_views(out@) =~= dd_views(self.devices@));
        }
        sort_by_rssi(&mut out);
        proof {
            let orig = dd_views(self.devices@);
            let dv = dd_views(out@);
            lemma_keyed_map_properties(orig, dd_by_signature());
            crate::keyed::lemma_distinct_keys_permutation(orig, dv, dd_by_signature());
            assert forall|i: int| 0 <= i < dv.len() implies self@.devices.contains_pair(
                (#[trigger] dv[i]).signature,
                dv[i],
            ) by {
                assert(dv.to_multiset().contains(dv[i])) by {
                    assert(dv.to_multiset().count(dv[i]) > 0);
                }
                assert(orig.contains(dv[i]));
                let j = choose|j: int| 0 <= j < orig.len() && orig[j] == dv[i];
                assert(self@.devices.contains_pair(dd_by_signature()(orig[j]), orig[j]));
            }
            assert forall|k: SigView| #[trigger] self@.devices.dom().contains(k) implies exists|
                i: int,
            |
                0 <= i < dv.len() && (#[trigger] dv[i]).signature == k by {
                let j = choose|j: int|
                    0 <= j < orig.len() && dd_by_signature()(#[trigger] orig[j]) == k;
                assert(orig.to_multiset().contains(orig[j])) by {
                    assert(orig.to_multiset().count(orig[j]) > 0);
                }
                assert(dv.contains(orig[j]));
                let i = choose|i: int| 0 <= i < dv.len() && dv[i] == orig[j];
                assert(dv[i].signature == k);
            }
        }
        out
    }
}

/// The signature and signal strength that the compact form reports of each
/// device.
pub open spec fn dev_pairs(s: Seq<DiscoveredDeviceView>) -> Seq<(SigView, int)> {
    s.map_values(|d: DiscoveredDeviceView| (d.signature, d.rssi))
}

/// At most this many devices are serialized, however many are tracked:
/// the compact form's size is bounded independently of the capacity.
pub const COMPACT_DEVICE_CAP: usize = 10;

/// What the compact form reports: the change sequence, the total device
/// count (which may exceed the number of devices listed), and the
/// strongest devices.
pub struct DeviceListResponse {
    pub seq: u32,
    pub count: usize,
    pub devices: Vec<DiscoveredDevice>,
}

impl DeviceTracker {
    /// The compact serialized form: the sequence number, the total count,
    /// and at most [`COMPACT_DEVICE_CAP`] of the strongest-signal devices,
    /// as JSON text.
    pub fn to_json(&self) -> (r: Result<String, crate::compact::CompactFormError>)
        requires
            self.wf(),
        ensures
            r is Ok,
            exists|sorted: Seq<DiscoveredDeviceView>|
                {
                    &&& sorted.len() == self@.devices.len()
                    &&& distinct_keys(sorted, dd_by_signature())
                    &&& (forall|i: int|
                        0 <= i < sorted.len() ==> self@.devices.contains_pair(
                            (#[trigger] sorted[i]).signature,
                            sorted[i],
                        ))
                    &&& (forall|a: int, b: int|
                        0 <= a < b < sorted.len() ==> (#[trigger] sorted[a]).rssi >= (
                        #[trigger] sorted[b]).rssi)
                    &&& #[trigger] r->Ok_0@ == crate::compact::compact_json(
                        self@.sequence,
                        self@.devices.len() as int,
                        dev_pairs(
                            sorted.take(
                                if sorted.len() < COMPACT_DEVICE_CAP as int {
                                    sorted.len() as int
                                } else {
                                    COMPACT_DEVICE_CAP as int
                                },
                            ),
                        ),
                    )
                },
    {
        let devices = self.get_sorted();
        let count = self.device_count();
        let response = DeviceListResponse { seq: self.get_sequence(), count, devices };
        let ghost sorted = dd_views(response.devices@);
        let mut top: Vec<(Signature, i32)> = Vec::new();
        let mut i: usize = 0;
        while i < response.devices.len() && i < COMPACT_DEVICE_CAP
            invariant
                i <= response.devices@.len(),
                i <= COMPACT_DEVICE_CAP,
                sorted == dd_views(response.devices@),
                crate::compact::sig_pairs(top@) =~= dev_pairs(sorted.take(i as int)),
            decreases response.devices@.len() - i,
        {
            let ghost before = top@;
            let entry = (response.devices[i].signature.clone(), response.devices[i].rssi);
            let ghost esig = entry.0@;
            let ghost erssi = entry.1 as int;
            proof {
                assert(esig == sorted[i as int].signature);
                assert(erssi == sorted[i as int].rssi);
                assert(before.len() == i as int) by {
                    assert(crate::compact::sig_pairs(before).len() == before.len());
                }
            }
            top.push(entry);
            proof {
                assert(sorted.take(i + 1) =~= sorted.take(i as int).push(sorted[i as int]));
                assert(top@.len() == i + 1);
                assert(top@[i as int].0@ == esig && top@[i as int].1 as int == erssi);
                assert forall|k: int| 0 <= k < i + 1 implies crate::compact::sig_pairs(top@)[k]
                    == dev_pairs(sorted.take(i + 1))[k] by {
                    if k < i {
                        assert(top@[k] == before[k]);
                        assert(crate::compact::sig_pairs(before)[k] == dev_pairs(
                            sorted.take(i as int),
                        )[k]);
                        assert(sorted.take(i + 1)[k] == sorted.take(i as int)[k]);
                    } else {
                        assert(sorted.take(i + 1)[k] == sorted[i as int]);
                    }
                }
                assert(crate::compact::sig_pairs(top@) =~= dev_pairs(sorted.take(i + 1)));
            }
            i = i + 1;
        }
        let body = crate::compact::render_compact(response.seq, response.count, &top);
        proof {
            let cap = if sorted.len() < COMPACT_DEVICE_CAP as int {
                sorted.len() as int
            } else {
                COMPACT_DEVICE_CAP as int
            };
            assert(i as int == cap);
            assert(crate::compact::sig_pairs(top@) =~= dev_pairs(sorted.take(cap)));
        }
        Ok(body)
    }
}

/// Sorts tracked devices in place, strongest signal first.
#[verifier::loop_isolation(false)]
fn sort_by_rssi(v: &mut Vec<DiscoveredDevice>)
    ensures
        final(v)@.len() == old(v)@.len(),
        dd_views(final(v)@).to_multiset() == dd_views(old(v)@).to_multiset(),
        forall|a: int, b: int|
            0 <= a < b < final(v)@.len() ==> (#[trigger] dd_views(final(v)@)[a]).rssi >= (
            #[trigger] dd_views(final(v)@)[b]).rssi,
{
    broadcast use vstd::seq_lib::group_to_multiset_ensures;
    broadcast use vstd::multiset::group_multiset_axioms;

    let ghost orig = dd_views(old(v)@);
    if v.len() <= 1 {
        return ;
    }
    let mut i: usize = 1;
    while i < v.len()
        invariant
            1 <= i <= v@.len(),
            v@.len() == old(v)@.len(),
            dd_views(v@).to_multiset() == orig.to_multiset(),
            forall|a: int, b: int|
                0 <= a < b < i ==> (#[trigger] dd_views(v@)[a]).rssi >= (
                #[trigger] dd_views(v@)[b]).rssi,
        decreases v@.len() - i,
    {
        let mut j: usize = i;
        while j > 0 && v[j - 1].rssi < v[j].rssi
            invariant
                0 <= j <= i,
                v@.len() == old(v)@.len(),
                dd_views(v@).to_multiset() == orig.to_multiset(),
                forall|a: int, b: int|
                    0 <= a < b <= i && a != j && b != j ==> (#[trigger] dd_views(v@)[a]).rssi >= (
                    #[trigger] dd_views(v@)[b]).rssi,
                forall|a: int|
                    j < a <= i ==> dd_views(v@)[j as int].rssi >= (#[trigger] dd_views(v@)[a]).rssi,
            decreases j,
        {
            let ghost dv = dd_views(v@);
            let x = v[j - 1].clone();
            let y = v[j].clone();
            v[j - 1] = y;
            v[j] = x;
            proof {
                let dv2 = dd_views(v@);
                assert(dv2 =~= dv.update(j - 1, dv[j as int]).update(j as int, dv[j - 1]));
                assert(dv2.to_multiset() =~= dv.to_multiset());
            }
            j = j - 1;
        }
        proof {
            let dv = dd_views(v@);
            assert forall|a: int, b: int| 0 <= a < b <= i implies (#[trigger] dv[a]).rssi >= (
            #[trigger] dv[b]).rssi by {
                if b == j {
                    assert(j > 0);
                    assert(dv[j - 1].rssi >= dv[j as int].rssi);
                    if a < j - 1 {
                        assert(dv[a].rssi >= dv[j - 1].rssi);
                    }
                }
            }
        }
        i = i + 1;
    }
}

/// The index of a least recently seen device: no other entry has a smaller
/// last-seen time.
fn oldest_index(v: &Vec<DiscoveredDevice>) -> (r: usize)
    requires
        v@.len() > 0,
    ensures
        r < v@.len(),
        forall|k: int|
            0 <= k < v@.len() ==> v@[r as int]@.last_seen <= (#[trigger] v@[k])@.last_seen,
{
    let mut best: usize = 0;
    let mut k: usize = 1;
    while k < v.len()
        invariant
            best < k <= v@.len() || (best == 0 && k <= v@.len()),
            best < v@.len(),
            forall|t: int| 0 <= t < k ==> v@[best as int]@.last_seen <= (#[trigger] v@[t])@.last_seen,
        decreases v@.len() - k,
    {
        if v[k].last_seen < v[best].last_seen {
            best = k;
        }
        k = k + 1;
    }
    best
}

} // verus!
