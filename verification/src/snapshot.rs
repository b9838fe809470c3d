use crate::device_state::{DeviceState, DeviceStateView};
use crate::signature::{Signature, SigView};
use crate::time::{Duration, Timestamp};
use vstd::prelude::*;
use vstd::std_specs::cmp::PartialEqSpec;

verus! {

/// The view of a sequence of device states: each record replaced by its
/// mathematical value.
pub open spec fn dev_views(s: Seq<DeviceState>) -> Seq<DeviceStateView> {
    s.map_values(|d: DeviceState| d@)
}

/// An immutable, ordered sequence of device states captured at one instant.
/// A snapshot is a value: producing one never mutates its source.
#[derive(Debug)]
pub struct Snapshot(pub Vec<DeviceState>);

impl View for Snapshot {
    type V = Seq<DeviceStateView>;

    open spec fn view(&self) -> Seq<DeviceStateView> {
        dev_views(self.0@)
    }
}

impl Default for Snapshot {
    /// The empty snapshot.
    fn default() -> (r: Snapshot)
        ensures
            r@ == Seq::<DeviceStateView>::empty(),
    {
        let r = Snapshot(Vec::new());
        proof {
            assert(r@ =~= Seq::<DeviceStateView>::empty());
        }
        r
    }
}

impl Clone for Snapshot {
    fn clone(&self) -> (r: Snapshot)
        ensures
            r@ == self@,
    {
        let mut out: Vec<DeviceState> = Vec::new();
        let mut i: usize = 0;
        while i < self.0.len()
            invariant
                i <= self.0@.len(),
                out@.len() == i,
                forall|k: int| 0 <= k < i ==> out@[k] == self.0@[k],
            decreases self.0@.len() - i,
        {
            out.push(self.0[i].clone());
            i = i + 1;
        }
        let r = Snapshot(out);
        proof {
            assert(r@ =~= self@);
        }
        r
    }
}

/// The snapshot order: newest sighting first; on equal timestamps, loudest
/// signal first.
pub open spec fn age_vol_le(a: DeviceStateView, b: DeviceStateView) -> bool {
    a.date_time > b.date_time || (a.date_time == b.date_time && a.rssi >= b.rssi)
}

/// Decides [`age_vol_le`] on two device states.
fn age_vol_le_exec(a: &DeviceState, b: &DeviceState) -> (r: bool)
    ensures
        r == age_vol_le(a@, b@),
{
    a.date_time.millis > b.date_time.millis || (a.date_time.millis == b.date_time.millis && a.rssi
        >= b.rssi)
}

/// Records that compare as ties in the snapshot order: same timestamp and
/// same signal strength.
pub open spec fn same_rank(d: int, r: int) -> spec_fn(DeviceStateView) -> bool {
    |x: DeviceStateView| x.date_time == d && x.rssi == r
}

/// Swapping adjacent records of different ranks moves no record past one of
/// its own rank, so each rank's subsequence is untouched.
proof fn lemma_filter_adjacent_swap(
    s: Seq<DeviceStateView>,
    j: int,
    pred: spec_fn(DeviceStateView) -> bool,
)
    requires
        0 < j < s.len(),
        !(pred(s[j - 1]) && pred(s[j])),
    ensures
        s.update(j - 1, s[j]).update(j, s[j - 1]).filter(pred) == s.filter(pred),
{
    broadcast use vstd::seq::Seq::filter_distributes_over_add;

    reveal_with_fuel(Seq::filter, 4);
    let t = s.update(j - 1, s[j]).update(j, s[j - 1]);
    let prefix = s.take(j - 1);
    let suffix = s.skip(j + 1);
    let ab = seq![s[j - 1], s[j]];
    let ba = seq![s[j], s[j - 1]];
    assert(s =~= prefix + (ab + suffix));
    assert(t =~= prefix + (ba + suffix));
    assert(ab.filter(pred) == ba.filter(pred)) by {
        assert(ab.drop_last() =~= seq![s[j - 1]]);
        assert(ba.drop_last() =~= seq![s[j]]);
        assert(seq![s[j - 1]].drop_last() =~= Seq::<DeviceStateView>::empty());
        assert(seq![s[j]].drop_last() =~= Seq::<DeviceStateView>::empty());
        if pred(s[j - 1]) {
            assert(ab.filter(pred) =~= seq![s[j - 1]]);
            assert(ba.filter(pred) =~= seq![s[j - 1]]);
        } else if pred(s[j]) {
            assert(ab.filter(pred) =~= seq![s[j]]);
            assert(ba.filter(pred) =~= seq![s[j]]);
        } else {
            assert(ab.filter(pred) =~= Seq::<DeviceStateView>::empty());
            assert(ba.filter(pred) =~= Seq::<DeviceStateView>::empty());
        }
    }
    assert((prefix + (ab + suffix)).filter(pred) == prefix.filter(pred) + (ab.filter(pred)
        + suffix.filter(pred)));
    assert((prefix + (ba + suffix)).filter(pred) == prefix.filter(pred) + (ba.filter(pred)
        + suffix.filter(pred)));
}

/// Sorts device states in place: newest first, loudest first on ties. The
/// sort is stable: records of equal timestamp and equal signal strength
/// keep their relative order.
#[verifier::loop_isolation(false)]
#[verifier::rlimit(40)]
fn sort_by_age_and_volume(v: &mut Vec<DeviceState>)
    ensures
        final(v)@.len() == old(v)@.len(),
        dev_views(final(v)@).to_multiset() == dev_views(old(v)@).to_multiset(),
        forall|a: int, b: int|
            0 <= a < b < final(v)@.len() ==> age_vol_le(
                #[trigger] dev_views(final(v)@)[a],
                #[trigger] dev_views(final(v)@)[b],
            ),
        forall|d: int, r: int|
            #[trigger] dev_views(final(v)@).filter(same_rank(d, r)) == dev_views(
                old(v)@,
            ).filter(same_rank(d, r)),
{
    broadcast use vstd::seq_lib::group_to_multiset_ensures;
    broadcast use vstd::multiset::group_multiset_axioms;

    let ghost orig = dev_views(old(v)@);
    if v.len() <= 1 {
        return ;
    }
    let mut i: usize = 1;
    while i < v.len()
        invariant
            1 <= i <= v@.len(),
            v@.len() == old(v)@.len(),
            dev_views(v@).to_multiset() == orig.to_multiset(),
            forall|d: int, r: int|
                #[trigger] dev_views(v@).filter(same_rank(d, r)) == orig.filter(same_rank(d, r)),
            forall|a: int, b: int|
                0 <= a < b < i ==> age_vol_le(
                    #[trigger] dev_views(v@)[a],
                    #[trigger] dev_views(v@)[b],
                ),
        decreases v@.len() - i,
    {
        let mut j: usize = i;
        while j > 0 && !age_vol_le_exec(&v[j - 1], &v[j])
            invariant
                0 <= j <= i,
                v@.len() == old(v)@.len(),
                dev_views(v@).to_multiset() == orig.to_multiset(),
                forall|d: int, r: int|
                    #[trigger] dev_views(v@).filter(same_rank(d, r)) == orig.filter(
                        same_rank(d, r),
                    ),
                forall|a: int, b: int|
                    0 <= a < b <= i && a != j && b != j ==> age_vol_le(
                        #[trigger] dev_views(v@)[a],
                        #[trigger] dev_views(v@)[b],
                    ),
                forall|a: int|
                    j < a <= i ==> age_vol_le(
                        dev_views(v@)[j as int],
                        #[trigger] dev_views(v@)[a],
                    ),
            decreases j,
        {
            let ghost dv = dev_views(v@);
            let x = v[j - 1].clone();
            let y = v[j].clone();
            v[j - 1] = y;
            v[j] = x;
            proof {
                let dv2 = dev_views(v@);
                assert(dv2 =~= dv.update(j - 1, dv[j as int]).update(j as int, dv[j - 1]));
                assert(dv2.to_multiset() =~= dv.to_multiset());
                assert(age_vol_le(dv2[j - 1], dv2[j as int]));
                assert forall|d: int, r: int| #[trigger] dv2.filter(same_rank(d, r))
                    == orig.filter(same_rank(d, r)) by {
                    let pred = same_rank(d, r);
                    if pred(dv[j - 1]) && pred(dv[j as int]) {
                        assert(dv[j - 1].date_time == d && dv[j - 1].rssi == r);
                        assert(dv[j as int].date_time == d && dv[j as int].rssi == r);
                        assert(age_vol_le(dv[j - 1], dv[j as int]));
                        assert(false);
                    }
                    lemma_filter_adjacent_swap(dv, j as int, pred);
                    assert(dv.filter(pred) == orig.filter(pred));
                }
            }
            j = j - 1;
        }
        proof {
            let dv = dev_views(v@);
            assert forall|a: int, b: int| 0 <= a < b <= i implies age_vol_le(
                #[trigger] dv[a],
                #[trigger] dv[b],
            ) by {
                if b == j {
                    assert(j > 0);
                    assert(age_vol_le(dv[j - 1], dv[j as int]));
                    if a < j - 1 {
                        assert(age_vol_le(dv[a], dv[j - 1]));
                    }
                }
            }
        }
        i = i + 1;
    }
}

/// The signal strength that the previous snapshot recorded under this
/// signature, if any; a later record wins over an earlier one.
pub open spec fn prev_rssi(prev: Seq<DeviceStateView>, k: SigView) -> Option<int>
    decreases prev.len(),
{
    if prev.len() == 0 {
        None
    } else if prev.last().signature == k {
        Some(prev.last().rssi)
    } else {
        prev_rssi(prev.drop_last(), k)
    }
}

/// How a device's signal strength compares with the previous snapshot.
#[derive(PartialEq, Eq, Structural, Debug, Clone, Copy)]
pub enum RssiComparison {
    Louder,
    Quieter,
    Same,
    New,
}

/// The trend of one device between two snapshots.
pub open spec fn trend(cur: int, prev: Option<int>) -> RssiComparison {
    match prev {
        Option::None => RssiComparison::New,
        Option::Some(p) => if cur > p {
            RssiComparison::Louder
        } else if cur < p {
            RssiComparison::Quieter
        } else {
            RssiComparison::Same
        },
    }
}

/// What the comparison derives for one device: how long ago it was last
/// seen, and how its signal moved since the previous snapshot.
#[derive(PartialEq, Eq, Structural, Debug, Clone, Copy)]
pub struct Comparison {
    pub relative_age: Duration,
    pub rssi: RssiComparison,
}

/// The signal strength recorded under this signature, searching from the
/// latest record backwards.
fn lookup_rssi(v: &Vec<DeviceState>, sig: &Signature) -> (r: Option<i16>)
    ensures
        match r {
            Some(x) => prev_rssi(dev_views(v@), sig@) == Some(x as int),
            None => prev_rssi(dev_views(v@), sig@) is None,
        },
{
    let ghost dv = dev_views(v@);
    let mut j: usize = v.len();
    proof {
        assert(dv.take(v@.len() as int) =~= dv);
    }
    while j > 0
        invariant
            j <= v@.len(),
            dv == dev_views(v@),
            prev_rssi(dv, sig@) == prev_rssi(dv.take(j as int), sig@),
        decreases j,
    {
        proof {
            assert(dv.take(j as int).last() == dv[j - 1]);
            assert(dv.take(j as int).drop_last() =~= dv.take(j - 1));
        }
        if v[j - 1].signature == *sig {
            return Some(v[j - 1].rssi);
        }
        j = j - 1;
    }
    proof {
        assert(dv.take(0).len() == 0);
    }
    None
}

impl Snapshot {
    /// A reordered copy: newest sighting first, loudest first on equal
    /// timestamps. The source snapshot is left as it is.
    pub fn order_by_age_and_volume(&self) -> (r: Snapshot)
        ensures
            r@.len() == self@.len(),
            r@.to_multiset() == self@.to_multiset(),
            forall|i: int, j: int|
                0 <= i < j < r@.len() ==> age_vol_le(#[trigger] r@[i], #[trigger] r@[j]),
            forall|d: int, q: int|
                #[trigger] r@.filter(same_rank(d, q)) == self@.filter(same_rank(d, q)),
    {
        let mut copy = self.clone();
        sort_by_age_and_volume(&mut copy.0);
        copy
    }

    /// Pairs every entry, in the order given, with its age relative to `now`
    /// and its signal trend against the previous snapshot. The age may be
    /// zero or negative under clock skew; that is surfaced, not rejected.
    pub fn compared_to(&self, now: Timestamp, previous: Snapshot) -> (r: Vec<
        (DeviceState, Comparison),
    >)
        requires
            forall|i: int|
                0 <= i < self@.len() ==> i64::MIN <= now@ - (#[trigger] self@[i]).date_time
                    <= i64::MAX,
        ensures
            r@.len() == self@.len(),
            forall|i: int|
                0 <= i < r@.len() ==> {
                    &&& (#[trigger] r@[i]).0@ == self@[i]
                    &&& r@[i].1.relative_age@ == now@ - self@[i].date_time
                    &&& r@[i].1.rssi == trend(self@[i].rssi, prev_rssi(previous@, self@[i].signature))
                },
    {
        let mut r: Vec<(DeviceState, Comparison)> = Vec::new();
        let mut i: usize = 0;
        while i < self.0.len()
            invariant
                i <= self.0@.len(),
                r@.len() == i,
                forall|k: int|
                    0 <= k < self@.len() ==> i64::MIN <= now@ - (#[trigger] self@[k]).date_time
                        <= i64::MAX,
                forall|k: int|
                    0 <= k < i ==> {
                        &&& (#[trigger] r@[k]).0@ == self@[k]
                        &&& r@[k].1.relative_age@ == now@ - self@[k].date_time
                        &&& r@[k].1.rssi == trend(
                            self@[k].rssi,
                            prev_rssi(previous@, self@[k].signature),
                        )
                    },
            decreases self.0@.len() - i,
        {
            let d = &self.0[i];
            proof {
                assert(d@ == self@[i as int]);
                assert(i64::MIN <= now@ - self@[i as int].date_time <= i64::MAX);
            }
            let relative_age = now.since(&d.date_time);
            let rssi_comparison = match lookup_rssi(&previous.0, &d.signature) {
                Some(p) => {
                    if d.rssi > p {
                        RssiComparison::Louder
                    } else if d.rssi < p {
                        RssiComparison::Quieter
                    } else {
                        RssiComparison::Same
                    }
                },
                None => RssiComparison::New,
            };
            r.push((d.clone(), Comparison { relative_age, rssi: rssi_comparison }));
            i = i + 1;
        }
        r
    }
}

impl PartialEq for Snapshot {
    fn eq(&self, other: &Snapshot) -> (r: bool) {
        let r = self.0 == other.0;
        proof {
            assert(r == self.0.eq_spec(&other.0));
            if r {
                assert forall|i: int| 0 <= i < self@.len() implies self@[i] == other@[i] by {
                    assert(self.0@[i].eq_spec(&other.0@[i]));
                }
                assert(self@ =~= other@);
            } else {
                if self.0@.len() == other.0@.len() {
                    assert(!(forall|i: int|
                        #![auto]
                        0 <= i < self.0@.len() ==> self.0@[i].eq_spec(&other.0@[i])));
                    let i = choose|i: int|
                        #![auto]
                        0 <= i < self.0@.len() && !self.0@[i].eq_spec(&other.0@[i]);
                    assert(self@[i] != other@[i]);
                    assert(self@ != other@);
                } else {
                    assert(self@.len() != other@.len());
                }
            }
        }
        r
    }
}

impl vstd::std_specs::cmp::PartialEqSpecImpl for Snapshot {
    open spec fn obeys_eq_spec() -> bool {
        true
    }

    open spec fn eq_spec(&self, other: &Snapshot) -> bool {
        self@ == other@
    }
}

impl Eq for Snapshot {}

} // verus!
