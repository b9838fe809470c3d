use crate::signature::{Signature, SigView};
use vstd::prelude::*;

verus! {

/// An advertisement as the radio hands it over: an optional local name and
/// vendor payloads keyed by the 16-bit manufacturer id.
pub struct Peripheral {
    pub local_name: Option<String>,
    pub manufacturer_data: Vec<(u16, Vec<u8>)>,
}

/// The mathematical value of a [`Peripheral`]: the manufacturer data as a
/// map, so that the order the pairs arrived in is already forgotten.
pub struct PeripheralView {
    pub local_name: Option<Seq<char>>,
    pub manufacturer_data: Map<u16, Seq<u8>>,
}

/// The view of a sequence of manufacturer-data pairs.
pub open spec fn pair_views(s: Seq<(u16, Vec<u8>)>) -> Seq<(u16, Seq<u8>)> {
    s.map_values(|p: (u16, Vec<u8>)| (p.0, p.1@))
}

/// The pairs as a map; with distinct vendor ids every pair is an entry.
pub open spec fn pairs_map(s: Seq<(u16, Seq<u8>)>) -> Map<u16, Seq<u8>>
    decreases s.len(),
{
    if s.len() == 0 {
        Map::empty()
    } else {
        pairs_map(s.drop_first()).insert(s[0].0, s[0].1)
    }
}

impl View for Peripheral {
    type V = PeripheralView;

    open spec fn view(&self) -> PeripheralView {
        PeripheralView {
            local_name: match self.local_name {
                Option::Some(n) => Option::Some(n@),
                Option::None => Option::None,
            },
            manufacturer_data: pairs_map(pair_views(self.manufacturer_data@)),
        }
    }
}

/// The digest that `xxh3_64` computes over a byte sequence; it depends on
/// the bytes alone.
pub uninterp spec fn xxh3_of(bytes: Seq<u8>) -> u64;

/// Relies on xxhash_rust::xxh3::xxh3_64: a 64-bit digest of the input
/// bytes, a pure function of them.
#[verifier::external_body]
fn xxh3_64_hash(bytes: &Vec<u8>) -> (r: u64)
    ensures
        r == xxh3_of(bytes@),
{
    xxhash_rust::xxh3::xxh3_64(bytes.as_slice())
}

/// The base62 digit alphabet: 0-9, then A-Z, then a-z.
pub open spec fn base62_digit(d: int) -> char
    recommends
        0 <= d < 62,
{
    if d < 10 {
        ((48 + d) as u8) as char
    } else if d < 36 {
        ((55 + d) as u8) as char
    } else {
        ((61 + d) as u8) as char
    }
}

/// Base62 positional notation, most significant digit first, no leading
/// zeros; zero is "0".
pub open spec fn base62_of(n: nat) -> Seq<char>
    decreases n,
{
    if n < 62 {
        seq![base62_digit(n as int)]
    } else {
        base62_of(n / 62).push(base62_digit((n % 62) as int))
    }
}

/// Relies on base62::encode: the standard-alphabet base62 rendering of the
/// number, most significant digit first.
#[verifier::external_body]
fn base62_encode(n: u64) -> (r: String)
    ensures
        r@ == base62_of(n as nat),
{
    base62::encode(n)
}

/// The smallest element of a set of vendor ids.
pub open spec fn min_key(dom: Set<u16>) -> u16 {
    choose|k: u16| dom.contains(k) && forall|j: u16| dom.contains(j) ==> k <= j
}

/// A finite, non-empty set of vendor ids has a smallest element.
pub proof fn lemma_has_min(dom: Set<u16>)
    requires
        dom.finite(),
        dom.len() > 0,
    ensures
        dom.contains(min_key(dom)),
        forall|j: u16| dom.contains(j) ==> min_key(dom) <= j,
    decreases dom.len(),
{
    let x = dom.choose();
    assert(dom.contains(x));
    let rest = dom.remove(x);
    if rest.len() == 0 {
        assert forall|j: u16| dom.contains(j) implies x <= j by {
            if j != x {
                assert(rest.contains(j));
                assert(rest =~= Set::empty());
            }
        }
        assert(dom.contains(x) && forall|j: u16| dom.contains(j) ==> x <= j);
    } else {
        lemma_has_min(rest);
        let m = min_key(rest);
        let w: u16 = if x <= m {
            x
        } else {
            m
        };
        assert(dom.contains(w));
        assert forall|j: u16| dom.contains(j) implies w <= j by {
            if j != x {
                assert(rest.contains(j));
            }
        }
    }
}

/// A vendor id as two bytes, little endian.
pub open spec fn le_bytes(k: u16) -> Seq<u8> {
    seq![(k % 256) as u8, (k / 256) as u8]
}

/// The bytes fed to the content hash: for each vendor id in ascending
/// order, the id little endian, then its payload. Iterating in key order is
/// load-bearing: no map iteration order may leak into the digest.
pub open spec fn mfg_blob(m: Map<u16, Seq<u8>>) -> Seq<u8>
    decreases m.dom().len(),
    when m.dom().finite()
    via mfg_blob_decreases
{
    if m.dom().len() == 0 {
        Seq::empty()
    } else {
        let k = min_key(m.dom());
        le_bytes(k) + m[k] + mfg_blob(m.remove(k))
    }
}

#[via_fn]
proof fn mfg_blob_decreases(m: Map<u16, Seq<u8>>) {
    if m.dom().len() > 0 {
        lemma_has_min(m.dom());
    }
}

/// The signature an advertisement resolves to, if it can be correlated at
/// all: the name when one is advertised, otherwise a digest of the
/// manufacturer data, otherwise nothing.
pub open spec fn derive_signature(p: PeripheralView) -> Option<SigView> {
    match p.local_name {
        Option::Some(n) => Option::Some(SigView::Named(n)),
        Option::None => {
            if p.manufacturer_data.dom().len() > 0 {
                Option::Some(
                    SigView::Anonymous(base62_of(xxh3_of(mfg_blob(p.manufacturer_data)) as nat)),
                )
            } else {
                Option::None
            }
        },
    }
}

/// The blob a sequence of pairs contributes, front to back.
pub open spec fn blob_of_pairs(s: Seq<(u16, Seq<u8>)>) -> Seq<u8>
    decreases s.len(),
{
    if s.len() == 0 {
        Seq::empty()
    } else {
        le_bytes(s[0].0) + s[0].1 + blob_of_pairs(s.drop_first())
    }
}

/// No two pairs carry the same vendor id.
pub open spec fn distinct_ids(s: Seq<(u16, Seq<u8>)>) -> bool {
    forall|i: int, j: int| 0 <= i < j < s.len() ==> (#[trigger] s[i]).0 != (#[trigger] s[j]).0
}

/// Under distinct vendor ids, the map read from a pair sequence has exactly
/// its pairs as entries.
pub proof fn lemma_pairs_map_props(s: Seq<(u16, Seq<u8>)>)
    requires
        distinct_ids(s),
    ensures
        pairs_map(s).dom().finite(),
        pairs_map(s).dom().len() == s.len(),
        forall|i: int| 0 <= i < s.len() ==> pairs_map(s).contains_pair((#[trigger] s[i]).0, s[i].1),
        forall|k: u16|
            #[trigger] pairs_map(s).dom().contains(k) ==> exists|i: int|
                0 <= i < s.len() && (#[trigger] s[i]).0 == k,
    decreases s.len(),
{
    if s.len() > 0 {
        let rest = s.drop_first();
        assert(forall|i: int| 0 <= i < rest.len() ==> #[trigger] rest[i] == s[i + 1]);
        lemma_pairs_map_props(rest);
        let m = pairs_map(rest);
        if m.dom().contains(s[0].0) {
            let i = choose|i: int| 0 <= i < rest.len() && (#[trigger] rest[i]).0 == s[0].0;
            assert(s[i + 1].0 == s[0].0);
            assert(false);
        }
        assert forall|i: int| 0 <= i < s.len() implies pairs_map(s).contains_pair(
            (#[trigger] s[i]).0,
            s[i].1,
        ) by {
            if i > 0 {
                assert(m.contains_pair(rest[i - 1].0, rest[i - 1].1));
                assert(s[i].0 != s[0].0);
            }
        }
        assert forall|k: u16| #[trigger] pairs_map(s).dom().contains(k) implies exists|i: int|
            0 <= i < s.len() && (#[trigger] s[i]).0 == k by {
            if k == s[0].0 {
                assert(s[0].0 == k);
            } else {
                let i = choose|i: int| 0 <= i < rest.len() && (#[trigger] rest[i]).0 == k;
                assert(s[i + 1].0 == k);
            }
        }
    }
}

/// Two pair sequences with distinct ids and the same pairs read as the same
/// map, whatever order they arrived in.
pub proof fn lemma_pairs_map_permutation(a: Seq<(u16, Seq<u8>)>, b: Seq<(u16, Seq<u8>)>)
    requires
        distinct_ids(a),
        a.to_multiset() == b.to_multiset(),
    ensures
        pairs_map(a) == pairs_map(b),
{
    broadcast use vstd::seq_lib::group_to_multiset_ensures;

    crate::keyed::lemma_distinct_keys_permutation(a, b, |p: (u16, Seq<u8>)| p.0);
    assert(distinct_ids(b));
    lemma_pairs_map_props(a);
    lemma_pairs_map_props(b);
    let ma = pairs_map(a);
    let mb = pairs_map(b);
    assert forall|k: u16|
        #![trigger ma.dom().contains(k)]
        #![trigger mb.dom().contains(k)]
        ma.dom().contains(k) == mb.dom().contains(k) && (ma.dom().contains(k) ==> ma[k]
            == mb[k]) by {
        if ma.dom().contains(k) {
            let i = choose|i: int| 0 <= i < a.len() && (#[trigger] a[i]).0 == k;
            assert(b.to_multiset().contains(a[i])) by {
                assert(a.to_multiset().count(a[i]) > 0);
            }
            assert(b.contains(a[i]));
            let j = choose|j: int| 0 <= j < b.len() && b[j] == a[i];
            assert(mb.contains_pair(b[j].0, b[j].1));
            assert(ma.contains_pair(a[i].0, a[i].1));
        }
        if mb.dom().contains(k) {
            let j = choose|j: int| 0 <= j < b.len() && (#[trigger] b[j]).0 == k;
            assert(a.to_multiset().contains(b[j])) by {
                assert(b.to_multiset().count(b[j]) > 0);
            }
            assert(a.contains(b[j]));
            let i = choose|i: int| 0 <= i < a.len() && a[i] == b[j];
            assert(ma.contains_pair(a[i].0, a[i].1));
        }
    }
    assert(ma =~= mb);
}

/// Pairs sorted ascending by vendor id contribute exactly the blob that
/// their map defines: the ids are visited smallest first.
pub proof fn lemma_blob_of_sorted(s: Seq<(u16, Seq<u8>)>)
    requires
        forall|i: int, j: int| 0 <= i < j < s.len() ==> (#[trigger] s[i]).0 < (#[trigger] s[j]).0,
    ensures
        blob_of_pairs(s) == mfg_blob(pairs_map(s)),
    decreases s.len(),
{
    assert(distinct_ids(s));
    lemma_pairs_map_props(s);
    let m = pairs_map(s);
    if s.len() == 0 {
        assert(m.dom().len() == 0);
    } else {
        let k0 = s[0].0;
        lemma_has_min(m.dom());
        let mk = min_key(m.dom());
        assert(m.dom().contains(k0)) by {
            assert(m.contains_pair(s[0].0, s[0].1));
        }
        assert(mk <= k0);
        assert(k0 <= mk) by {
            let i = choose|i: int| 0 <= i < s.len() && (#[trigger] s[i]).0 == mk;
            if i > 0 {
                assert(s[0].0 < s[i].0);
            }
        }
        assert(mk == k0);
        assert(m[k0] == s[0].1) by {
            assert(m.contains_pair(s[0].0, s[0].1));
        }
        let rest = s.drop_first();
        assert(forall|i: int| 0 <= i < rest.len() ==> #[trigger] rest[i] == s[i + 1]);
        lemma_pairs_map_props(rest);
        assert(!pairs_map(rest).dom().contains(k0)) by {
            if pairs_map(rest).dom().contains(k0) {
                let i = choose|i: int| 0 <= i < rest.len() && (#[trigger] rest[i]).0 == k0;
                assert(s[0].0 < s[i + 1].0);
            }
        }
        assert(m.remove(k0) =~= pairs_map(rest));
        lemma_blob_of_sorted(rest);
        assert(mfg_blob(m) == le_bytes(k0) + m[k0] + mfg_blob(m.remove(k0)));
    }
}

/// Deriving is a pure function of the advertisement fields: the same name,
/// or the same vendor-id-to-payload map, always yields the same signature,
/// whatever order the map was built in.
pub proof fn lemma_derive_deterministic(a: PeripheralView, b: PeripheralView)
    requires
        a.local_name == b.local_name,
        a.manufacturer_data == b.manufacturer_data,
    ensures
        derive_signature(a) == derive_signature(b),
{
}

/// A name takes priority: whatever manufacturer data an advertisement
/// carries, a present local name decides the signature.
pub proof fn lemma_name_takes_priority(p: PeripheralView, n: Seq<char>)
    requires
        p.local_name == Option::Some(n),
    ensures
        derive_signature(p) == Option::Some(SigView::Named(n)),
{
}

/// A bytewise copy of a payload.
fn clone_bytes(v: &Vec<u8>) -> (r: Vec<u8>)
    ensures
        r@ == v@,
{
    let mut r: Vec<u8> = Vec::new();
    let mut i: usize = 0;
    while i < v.len()
        invariant
            i <= v@.len(),
            r@.len() == i,
            forall|k: int| 0 <= k < i ==> r@[k] == v@[k],
        decreases v@.len() - i,
    {
        r.push(v[i]);
        i = i + 1;
    }
    proof {
        assert(r@ =~= v@);
    }
    r
}

/// Sorts manufacturer-data pairs in place, ascending by vendor id.
#[verifier::loop_isolation(false)]
fn sort_pairs(v: &mut Vec<(u16, Vec<u8>)>)
    ensures
        final(v)@.len() == old(v)@.len(),
        pair_views(final(v)@).to_multiset() == pair_views(old(v)@).to_multiset(),
        forall|a: int, b: int|
            0 <= a < b < final(v)@.len() ==> (#[trigger] pair_views(final(v)@)[a]).0 <= (
            #[trigger] pair_views(final(v)@)[b]).0,
{
    broadcast use vstd::seq_lib::group_to_multiset_ensures;
    broadcast use vstd::multiset::group_multiset_axioms;

    let ghost orig = pair_views(old(v)@);
    if v.len() <= 1 {
        return ;
    }
    let mut i: usize = 1;
    while i < v.len()
        invariant
            1 <= i <= v@.len(),
            v@.len() == old(v)@.len(),
            pair_views(v@).to_multiset() == orig.to_multiset(),
            forall|a: int, b: int|
                0 <= a < b < i ==> (#[trigger] pair_views(v@)[a]).0 <= (
                #[trigger] pair_views(v@)[b]).0,
        decreases v@.len() - i,
    {
        let mut j: usize = i;
        while j > 0 && v[j - 1].0 > v[j].0
            invariant
                0 <= j <= i,
                v@.len() == old(v)@.len(),
                pair_views(v@).to_multiset() == orig.to_multiset(),
                forall|a: int, b: int|
                    0 <= a < b <= i && a != j && b != j ==> (#[trigger] pair_views(v@)[a]).0 <= (
                    #[trigger] pair_views(v@)[b]).0,
                forall|a: int|
                    j < a <= i ==> pair_views(v@)[j as int].0 <= (#[trigger] pair_views(v@)[a]).0,
            decreases j,
        {
            let ghost dv = pair_views(v@);
            let x = (v[j - 1].0, clone_bytes(&v[j - 1].1));
            let y = (v[j].0, clone_bytes(&v[j].1));
            v[j - 1] = y;
            v[j] = x;
            proof {
                let dv2 = pair_views(v@);
                assert(dv2 =~= dv.update(j - 1, dv[j as int]).update(j as int, dv[j - 1]));
                assert(dv2.to_multiset() =~= dv.to_multiset());
            }
            j = j - 1;
        }
        proof {
            let dv = pair_views(v@);
            assert forall|a: int, b: int| 0 <= a < b <= i implies (#[trigger] dv[a]).0 <= (
            #[trigger] dv[b]).0 by {
                if b == j {
                    assert(j > 0);
                    assert(dv[j - 1].0 <= dv[j as int].0);
                    if a < j - 1 {
                        assert(dv[a].0 <= dv[j - 1].0);
                    }
                }
            }
        }
        i = i + 1;
    }
}

impl Peripheral {
    pub fn new(local_name: Option<String>, manufacturer_data: Vec<(u16, Vec<u8>)>) -> (r:
        Peripheral)
        ensures
            r.local_name == local_name,
            r.manufacturer_data == manufacturer_data,
    {
        Peripheral { local_name, manufacturer_data }
    }

    /// Well-formed: the manufacturer data is a mapping, so no vendor id
    /// occurs twice.
    pub open spec fn wf(&self) -> bool {
        distinct_ids(pair_views(self.manufacturer_data@))
    }

    /// The stable identity this advertisement resolves to. A present local
    /// name wins outright; otherwise non-empty manufacturer data is hashed,
    /// vendor ids in ascending order; otherwise the observation cannot be
    /// correlated and is dropped.
#[verifier::rlimit(40)]
    pub fn try_into_signature(&self) -> (r: Option<Signature>)
        requires
            self.wf(),
        ensures
            match r {
                Some(s) => derive_signature(self@) == Some(s@),
                None => derive_signature(self@) is None,
            },
    {
        match &self.local_name {
            Some(local_name) => Some(Signature::Named(local_name.clone())),
            None => {
                if self.manufacturer_data.len() == 0 {
                    proof {
                        assert(pair_views(self.manufacturer_data@).len() == 0);
                        assert(self@.manufacturer_data.dom().len() == 0);
                    }
                    None
                } else {
                    let ghost orig = pair_views(self.manufacturer_data@);
                    let mut pairs: Vec<(u16, Vec<u8>)> = Vec::new();
                    let mut i: usize = 0;
                    while i < self.manufacturer_data.len()
                        invariant
                            i <= self.manufacturer_data@.len(),
                            pairs@.len() == i,
                            forall|k: int|
                                0 <= k < i ==> pair_views(pairs@)[k] == pair_views(
                                    self.manufacturer_data@,
                                )[k],
                        decreases self.manufacturer_data@.len() - i,
                    {
                        let id = self.manufacturer_data[i].0;
                        let payload = clone_bytes(&self.manufacturer_data[i].1);
                        let ghost before = pairs@;
                        pairs.push((id, payload));
                        proof {
                            assert forall|k: int| 0 <= k < i + 1 implies pair_views(pairs@)[k]
                                == pair_views(self.manufacturer_data@)[k] by {
                                if k < i {
                                    assert(pairs@[k] == before[k]);
                                    assert(pair_views(before)[k] == pair_views(
                                        self.manufacturer_data@,
                                    )[k]);
                                } else {
                                    assert(pairs@[k] == (id, payload));
                                }
                            }
                        }
                        i = i + 1;
                    }
                    proof {
                        assert(pair_views(pairs@) =~= orig);
                    }
                    sort_pairs(&mut pairs);
                    proof {
                        crate::keyed::lemma_distinct_keys_permutation(
                            orig,
                            pair_views(pairs@),
                            |p: (u16, Seq<u8>)| p.0,
                        );
                        let sv = pair_views(pairs@);
                        assert forall|a: int, b: int| 0 <= a < b < sv.len() implies (
                        #[trigger] sv[a]).0 < (#[trigger] sv[b]).0 by {
                            assert(sv[a].0 != sv[b].0);
                        }
                        lemma_blob_of_sorted(sv);
                        lemma_pairs_map_permutation(orig, sv);
                    }
                    let mut blob: Vec<u8> = Vec::new();
                    let mut t: usize = 0;
                    while t < pairs.len()
                        invariant
                            t <= pairs@.len(),
                            blob@ == blob_of_pairs(pair_views(pairs@).take(t as int)) + Seq::<
                                u8,
                            >::empty(),
                            pairs@.len() == pair_views(pairs@).len(),
                        decreases pairs@.len() - t,
                    {
                        proof {
                            let sv = pair_views(pairs@);
                            lemma_blob_take_step(sv, t as int);
                        }
                        let id = pairs[t].0;
                        blob.push((id % 256) as u8);
                        blob.push((id / 256) as u8);
                        let mut b: usize = 0;
                        let ghost mid = blob@;
                        while b < pairs[t].1.len()
                            invariant
                                t < pairs@.len(),
                                b <= pairs@[t as int].1@.len(),
                                blob@ == mid + pairs@[t as int].1@.take(b as int),
                            decreases pairs@[t as int].1@.len() - b,
                        {
                            blob.push(pairs[t].1[b]);
                            proof {
                                assert(pairs@[t as int].1@.take(b + 1) =~= pairs@[t as int].1@.take(
                                    b as int,
                                ).push(pairs@[t as int].1@[b as int]));
                            }
                            b = b + 1;
                        }
                        proof {
                            let sv = pair_views(pairs@);
                            assert(pairs@[t as int].1@.take(pairs@[t as int].1@.len() as int)
                                =~= sv[t as int].1);
                            assert(blob@ =~= blob_of_pairs(sv.take(t as int)) + le_bytes(
                                sv[t as int].0,
                            ) + sv[t as int].1);
                            assert(blob@ =~= blob_of_pairs(sv.take(t + 1)) + Seq::<u8>::empty());
                        }
                        t = t + 1;
                    }
                    proof {
                        let sv = pair_views(pairs@);
                        assert(sv.take(sv.len() as int) =~= sv);
                        assert(blob@ =~= blob_of_pairs(sv));
                    }
                    let hash = xxh3_64_hash(&blob);
                    let encoded = base62_encode(hash);
                    proof {
                        assert(self@.manufacturer_data.dom().len() > 0) by {
                            lemma_pairs_map_props(orig);
                        }
                    }
                    Some(Signature::Anonymous(encoded))
                }
            },
        }
    }
}

/// Extending a blob by one pair appends its id bytes and payload.
proof fn lemma_blob_take_step(s: Seq<(u16, Seq<u8>)>, t: int)
    requires
        0 <= t < s.len(),
    ensures
        blob_of_pairs(s.take(t + 1)) == blob_of_pairs(s.take(t)) + le_bytes(s[t].0) + s[t].1,
    decreases t,
{
    if t == 0 {
        assert(s.take(1).drop_first() =~= Seq::<(u16, Seq<u8>)>::empty());
        assert(s.take(1)[0] == s[0]);
        assert(s.take(0).len() == 0);
        assert(blob_of_pairs(s.take(1).drop_first()) =~= Seq::<u8>::empty());
        assert(blob_of_pairs(s.take(1)) =~= le_bytes(s[0].0) + s[0].1);
        assert(blob_of_pairs(s.take(0)) + le_bytes(s[0].0) + s[0].1 =~= le_bytes(s[0].0) + s[0].1);
    } else {
        let u = s.drop_first();
        assert(s.take(t + 1)[0] == s[0]);
        assert(s.take(t + 1).drop_first() =~= u.take(t));
        assert(s.take(t)[0] == s[0]);
        assert(s.take(t).drop_first() =~= u.take(t - 1));
        lemma_blob_take_step(u, t - 1);
        assert(u[t - 1] == s[t]);
        assert(blob_of_pairs(s.take(t + 1)) =~= le_bytes(s[0].0) + s[0].1 + blob_of_pairs(
            u.take(t),
        ));
        assert(blob_of_pairs(s.take(t)) =~= le_bytes(s[0].0) + s[0].1 + blob_of_pairs(
            u.take(t - 1),
        ));
        assert(le_bytes(s[0].0) + s[0].1 + (blob_of_pairs(u.take(t - 1)) + le_bytes(u[t - 1].0)
            + u[t - 1].1) =~= (le_bytes(s[0].0) + s[0].1 + blob_of_pairs(u.take(t - 1))) + le_bytes(
            s[t].0,
        ) + s[t].1);
    }
}

} // verus!
