use crate::device_state::{record_of, DeviceState, DeviceStateView};
use crate::discover::{ev_views, DiscoveryEvent, EventView};
use crate::keyed::{
    distinct_keys, keyed_map, lemma_keyed_map_properties, lemma_keyed_map_push,
    lemma_keyed_map_update,
};
use crate::signature::{lemma_sig_le_total_ordering, sig_le, Signature, SigView};
use crate::snapshot::{dev_views, Snapshot};
use vstd::prelude::*;

verus! {

/// The key under which a device record is filed: its signature.
pub open spec fn by_signature() -> spec_fn(DeviceStateView) -> SigView {
    |d: DeviceStateView| d.signature
}

/// The unbounded device state store: one record per signature, merged on
/// every discovery cycle, never pruned.
pub struct State {
    state: Vec<DeviceState>,
}

impl View for State {
    type V = Map<SigView, DeviceStateView>;

    closed spec fn view(&self) -> Map<SigView, DeviceStateView> {
        keyed_map(dev_views(self.state@), by_signature())
    }
}

/// The store after one batch of events: each event inserts or overwrites the
/// record under its signature, in order.
pub open spec fn spec_discover(
    m: Map<SigView, DeviceStateView>,
    evs: Seq<EventView>,
) -> Map<SigView, DeviceStateView>
    decreases evs.len(),
{
    if evs.len() == 0 {
        m
    } else {
        spec_discover(m.insert(evs[0].signature, record_of(evs[0])), evs.drop_first())
    }
}

/// Processing one more event at the end of a batch inserts its record last.
pub proof fn lemma_spec_discover_push(
    m: Map<SigView, DeviceStateView>,
    evs: Seq<EventView>,
    e: EventView,
)
    ensures
        spec_discover(m, evs.push(e)) == spec_discover(m, evs).insert(e.signature, record_of(e)),
    decreases evs.len(),
{
    if evs.len() == 0 {
        let emp = Seq::<EventView>::empty();
        assert(evs.push(e).drop_first() =~= emp);
        assert(evs.push(e)[0] == e);
        assert(evs.push(e).len() == 1);
        let m1 = m.insert(e.signature, record_of(e));
        assert(spec_discover(m, evs.push(e)) == spec_discover(m1, evs.push(e).drop_first()));
        assert(spec_discover(m1, emp) == m1);
        assert(spec_discover(m, evs) == m);
    } else {
        assert(evs.push(e)[0] == evs[0]);
        assert(evs.push(e).drop_first() =~= evs.drop_first().push(e));
        assert(evs.push(e).len() == evs.len() + 1);
        let m1 = m.insert(evs[0].signature, record_of(evs[0]));
        lemma_spec_discover_push(m1, evs.drop_first(), e);
        assert(spec_discover(m, evs.push(e)) == spec_discover(m1, evs.drop_first().push(e)));
        assert(spec_discover(m, evs) == spec_discover(m1, evs.drop_first()));
    }
}

/// Sorts device states in place, ascending in the signatures' total order.
#[verifier::loop_isolation(false)]
#[verifier::rlimit(40)]
fn sort_by_signature(v: &mut Vec<DeviceState>)
    ensures
        final(v)@.len() == old(v)@.len(),
        dev_views(final(v)@).to_multiset() == dev_views(old(v)@).to_multiset(),
        forall|a: int, b: int|
            0 <= a < b < final(v)@.len() ==> sig_le(
                (#[trigger] dev_views(final(v)@)[a]).signature,
                (#[trigger] dev_views(final(v)@)[b]).signature,
            ),
{
    broadcast use vstd::seq_lib::group_to_multiset_ensures;
    broadcast use vstd::multiset::group_multiset_axioms;

    let ghost orig = dev_views(old(v)@);
    if v.len() <= 1 {
        return ;
    }
    let mut i: usize = 1;
    while i < v.len()
        invariant
            1 <= i <= v@.len(),
            v@.len() == old(v)@.len(),
            dev_views(v@).to_multiset() == orig.to_multiset(),
            forall|a: int, b: int|
                0 <= a < b < i ==> sig_le(
                    (#[trigger] dev_views(v@)[a]).signature,
                    (#[trigger] dev_views(v@)[b]).signature,
                ),
        decreases v@.len() - i,
    {
        let mut j: usize = i;
        while j > 0 && !v[j - 1].signature.le(&v[j].signature)
            invariant
                0 <= j <= i,
                v@.len() == old(v)@.len(),
                dev_views(v@).to_multiset() == orig.to_multiset(),
                forall|a: int, b: int|
                    0 <= a < b <= i && a != j && b != j ==> sig_le(
                        (#[trigger] dev_views(v@)[a]).signature,
                        (#[trigger] dev_views(v@)[b]).signature,
                    ),
                forall|a: int|
                    j < a <= i ==> sig_le(
                        dev_views(v@)[j as int].signature,
                        (#[trigger] dev_views(v@)[a]).signature,
                    ),
            decreases j,
        {
            let ghost dv = dev_views(v@);
            let x = v[j - 1].clone();
            let y = v[j].clone();
            v[j - 1] = y;
            v[j] = x;
            proof {
                let dv2 = dev_views(v@);
                assert(dv2 =~= dv.update(j - 1, dv[j as int]).update(j as int, dv[j - 1]));
                assert(dv2.to_multiset() =~= dv.to_multiset());
                lemma_sig_le_total_ordering();
                assert(sig_le(dv2[j - 1].signature, dv2[j as int].signature));
            }
            j = j - 1;
        }
        proof {
            lemma_sig_le_total_ordering();
            let dv = dev_views(v@);
            assert forall|a: int, b: int| 0 <= a < b <= i implies sig_le(
                (#[trigger] dv[a]).signature,
                (#[trigger] dv[b]).signature,
            ) by {
                if b == j {
                    assert(j > 0);
                    assert(sig_le(dv[j - 1].signature, dv[j as int].signature));
                    if a < j - 1 {
                        assert(sig_le(dv[a].signature, dv[j - 1].signature));
                    }
                }
            }
        }
        i = i + 1;
    }
}

/// The last event in the batch carrying this signature, if any; its values
/// are the ones that survive the merge.
pub open spec fn last_event_for(evs: Seq<EventView>, k: SigView) -> Option<EventView>
    decreases evs.len(),
{
    if evs.len() == 0 {
        None
    } else if evs.last().signature == k {
        Some(evs.last())
    } else {
        last_event_for(evs.drop_last(), k)
    }
}

/// What one merge leaves under each key: the last event for that key if the
/// batch has one, otherwise whatever the store already held.
pub proof fn lemma_discover_lookup(
    m: Map<SigView, DeviceStateView>,
    evs: Seq<EventView>,
    k: SigView,
)
    ensures
        match last_event_for(evs, k) {
            Some(e) => spec_discover(m, evs).dom().contains(k) && spec_discover(m, evs)[k]
                == record_of(e),
            None => spec_discover(m, evs).dom().contains(k) == m.dom().contains(k) && (
            m.dom().contains(k) ==> spec_discover(m, evs)[k] == m[k]),
        },
    decreases evs.len(),
{
    if evs.len() > 0 {
        let dl = evs.drop_last();
        let e = evs.last();
        assert(evs =~= dl.push(e));
        lemma_spec_discover_push(m, dl, e);
        lemma_discover_lookup(m, dl, k);
    }
}

/// Merging the identical event batch a second time changes nothing: each
/// key's record is overwritten with the same last values again.
pub proof fn lemma_discover_idempotent(m: Map<SigView, DeviceStateView>, evs: Seq<EventView>)
    ensures
        spec_discover(spec_discover(m, evs), evs) == spec_discover(m, evs),
{
    let m1 = spec_discover(m, evs);
    let m2 = spec_discover(m1, evs);
    assert forall|k: SigView|
        #![trigger m1.dom().contains(k)]
        #![trigger m2.dom().contains(k)]
        m1.dom().contains(k) == m2.dom().contains(k) && (m1.dom().contains(k) ==> m1[k]
            == m2[k]) by {
        lemma_discover_lookup(m, evs, k);
        lemma_discover_lookup(m1, evs, k);
    }
    assert(m2 =~= m1);
}

/// The index of the record filed under this signature, if there is one.
fn find_index(v: &Vec<DeviceState>, sig: &Signature) -> (r: Option<usize>)
    ensures
        match r {
            Some(j) => j < v@.len() && v@[j as int]@.signature == sig@,
            None => forall|k: int| 0 <= k < v@.len() ==> (#[trigger] v@[k])@.signature != sig@,
        },
{
    let mut k: usize = 0;
    while k < v.len()
        invariant
            k <= v@.len(),
            forall|j: int| 0 <= j < k ==> (#[trigger] v@[j])@.signature != sig@,
        decreases v@.len() - k,
    {
        if v[k].signature == *sig {
            return Some(k);
        }
        k = k + 1;
    }
    None
}

impl Default for State {
    /// The empty store.
    fn default() -> (r: State)
        ensures
            r.wf(),
            r@ == Map::<SigView, DeviceStateView>::empty(),
    {
        let r = State { state: Vec::new() };
        proof {
            assert(dev_views(r.state@) =~= Seq::<DeviceStateView>::empty());
            assert(r@ =~= Map::<SigView, DeviceStateView>::empty());
        }
        r
    }
}

impl State {
    /// Well-formed: at most one record per signature.
    pub closed spec fn wf(&self) -> bool {
        distinct_keys(dev_views(self.state@), by_signature())
    }

    /// A deterministic snapshot: one record per known signature, ordered by
    /// the signatures' total order, independent of insertion order.
    pub fn snapshot(&self) -> (r: Snapshot)
        requires
            self.wf(),
        ensures
            r@.len() == self@.len(),
            forall|i: int|
                0 <= i < r@.len() ==> self@.contains_pair((#[trigger] r@[i]).signature, r@[i]),
            forall|k: SigView|
                #[trigger] self@.dom().contains(k) ==> exists|i: int|
                    0 <= i < r@.len() && (#[trigger] r@[i]).signature == k,
            distinct_keys(r@, by_signature()),
            forall|i: int, j: int|
                0 <= i < j < r@.len() ==> sig_le(
                    (#[trigger] r@[i]).signature,
                    (#[trigger] r@[j]).signature,
                ),
    {
        broadcast use vstd::seq_lib::group_to_multiset_ensures;

        let mut out: Vec<DeviceState> = Vec::new();
        let mut i: usize = 0;
        while i < self.state.len()
            invariant
                i <= self.state@.len(),
                out@.len() == i,
                forall|k: int| 0 <= k < i ==> out@[k] == self.state@[k],
            decreases self.state@.len() - i,
        {
            out.push(self.state[i].clone());
            i = i + 1;
        }
        proof {
            assert(out@ =~= self.state@);
            assert(dev_views(out@) =~= dev_views(self.state@));
        }
        sort_by_signature(&mut out);
        proof {
            let orig = dev_views(self.state@);
            let dv = dev_views(out@);
            lemma_keyed_map_properties(orig, by_signature());
            crate::keyed::lemma_distinct_keys_permutation(orig, dv, by_signature());
            assert forall|i: int| 0 <= i < dv.len() implies self@.contains_pair(
                (#[trigger] dv[i]).signature,
                dv[i],
            ) by {
                assert(dv.to_multiset().contains(dv[i])) by {
                    assert(dv.to_multiset().count(dv[i]) > 0);
                }
                assert(orig.contains(dv[i]));
                let j = choose|j: int| 0 <= j < orig.len() && orig[j] == dv[i];
                assert(self@.contains_pair(by_signature()(orig[j]), orig[j]));
            }
            assert forall|k: SigView| #[trigger] self@.dom().contains(k) implies exists|i: int|
                0 <= i < dv.len() && (#[trigger] dv[i]).signature == k by {
                let j = choose|j: int| 0 <= j < orig.len() && by_signature()(
                    #[trigger] orig[j],
                ) == k;
                assert(orig.to_multiset().contains(orig[j])) by {
                    assert(orig.to_multiset().count(orig[j]) > 0);
                }
                assert(dv.contains(orig[j]));
                let i = choose|i: int| 0 <= i < dv.len() && dv[i] == orig[j];
                assert(dv[i].signature == k);
            }
        }
        Snapshot(out)
    }

    /// Merge one batch of discovery events into the store: a new signature
    /// inserts a fresh record, a known one has its timestamp and signal
    /// strength overwritten in place.
    pub fn discover(&mut self, events: &Vec<DiscoveryEvent>)
        requires
            old(self).wf(),
        ensures
            final(self).wf(),
            final(self)@ == spec_discover(old(self)@, ev_views(events@)),
    {
        let ghost m0 = self@;
        let ghost evs = ev_views(events@);
        let mut idx: usize = 0;
        while idx < events.len()
            invariant
                idx <= events@.len(),
                evs == ev_views(events@),
                evs.len() == events@.len(),
                self.wf(),
                self@ == spec_discover(m0, evs.take(idx as int)),
            decreases events@.len() - idx,
        {
            let event = &events[idx];
            let ghost pre = dev_views(self.state@);
            let ghost mpre = self@;
            match find_index(&self.state, &event.signature) {
                Some(j) => {
                    self.state[j].update(event);
                    proof {
                        let post = dev_views(self.state@);
                        assert(post =~= pre.update(j as int, self.state@[j as int]@));
                        assert(self.state@[j as int]@ == record_of(event@));
                        lemma_keyed_map_update(
                            pre,
                            by_signature(),
                            j as int,
                            record_of(event@),
                        );
                    }
                },
                None => {
                    let d = DeviceState::from_event(event);
                    self.state.push(d);
                    proof {
                        let post = dev_views(self.state@);
                        assert(post =~= pre.push(record_of(event@)));
                        lemma_keyed_map_push(pre, by_signature(), record_of(event@));
                        assert forall|a: int, b: int| 0 <= a < b < post.len() implies by_signature()(
                            #[trigger] post[a],
                        ) != by_signature()(#[trigger] post[b]) by {
                            if b == post.len() - 1 {
                                assert(post[a] == pre[a]);
                                assert(pre[a].signature != event@.signature);
                            }
                        }
                    }
                },
            }
            proof {
                assert(evs.take(idx + 1) =~= evs.take(idx as int).push(evs[idx as int]));
                assert(evs[idx as int] == event@);
                lemma_spec_discover_push(m0, evs.take(idx as int), evs[idx as int]);
            }
            idx = idx + 1;
        }
        proof {
            assert(evs.take(evs.len() as int) =~= evs);
        }
    }
}

} // verus!
