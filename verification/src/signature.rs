use vstd::prelude::*;

verus! {

/// The stable identity of an observed device: the advertised local name when
/// one is present, otherwise an identifier derived from the manufacturer
/// data.
#[derive(Debug)]
pub enum Signature {
    Named(String),
    Anonymous(String),
}

/// The mathematical value of a [`Signature`]: the same two variants over
/// character sequences.
pub enum SigView {
    Named(Seq<char>),
    Anonymous(Seq<char>),
}

impl View for Signature {
    type V = SigView;

    open spec fn view(&self) -> SigView {
        match self {
            Signature::Named(n) => SigView::Named(n@),
            Signature::Anonymous(d) => SigView::Anonymous(d@),
        }
    }
}

impl SigView {
    /// The normalised string form that fixes the total order on signatures.
    pub open spec fn norm(self) -> Seq<char> {
        match self {
            SigView::Named(n) => "Named:"@ + n,
            SigView::Anonymous(d) => "Anonymous:"@ + d,
        }
    }
}

/// Lexicographic order on character sequences, by code point; a prefix
/// precedes every extension of itself.
pub open spec fn lex_le(a: Seq<char>, b: Seq<char>) -> bool
    decreases a.len(),
{
    if a.len() == 0 {
        true
    } else if b.len() == 0 {
        false
    } else if a[0] == b[0] {
        lex_le(a.drop_first(), b.drop_first())
    } else {
        (a[0] as u32) < (b[0] as u32)
    }
}

/// The total order on signatures: lexicographic on the normalised string
/// form, so every `Anonymous` signature precedes every `Named` one.
pub open spec fn sig_le(a: SigView, b: SigView) -> bool {
    lex_le(a.norm(), b.norm())
}

/// Distinct characters have distinct code points.
proof fn lemma_char_neq(x: char, y: char)
    requires
        x != y,
    ensures
        (x as u32) != (y as u32),
{
    if (x as u32) == (y as u32) {
        vstd::utf8::char_u32_cast(x, x as u32);
        vstd::utf8::char_u32_cast(y, y as u32);
    }
}

pub proof fn lemma_lex_le_reflexive(a: Seq<char>)
    ensures
        lex_le(a, a),
    decreases a.len(),
{
    if a.len() > 0 {
        lemma_lex_le_reflexive(a.drop_first());
    }
}

pub proof fn lemma_lex_le_total(a: Seq<char>, b: Seq<char>)
    ensures
        lex_le(a, b) || lex_le(b, a),
    decreases a.len(),
{
    if a.len() > 0 && b.len() > 0 {
        if a[0] == b[0] {
            lemma_lex_le_total(a.drop_first(), b.drop_first());
        } else {
            lemma_char_neq(a[0], b[0]);
        }
    }
}

pub proof fn lemma_lex_le_antisymmetric(a: Seq<char>, b: Seq<char>)
    requires
        lex_le(a, b),
        lex_le(b, a),
    ensures
        a == b,
    decreases a.len(),
{
    if a.len() == 0 {
        assert(b.len() == 0);
        assert(a =~= b);
    } else {
        assert(b.len() > 0);
        assert(a[0] == b[0]);
        lemma_lex_le_antisymmetric(a.drop_first(), b.drop_first());
        assert(a =~= seq![a[0]] + a.drop_first());
        assert(b =~= seq![b[0]] + b.drop_first());
    }
}

pub proof fn lemma_lex_le_transitive(a: Seq<char>, b: Seq<char>, c: Seq<char>)
    requires
        lex_le(a, b),
        lex_le(b, c),
    ensures
        lex_le(a, c),
    decreases a.len(),
{
    if a.len() == 0 {
    } else {
        assert(b.len() > 0);
        assert(c.len() > 0);
        if a[0] == b[0] && b[0] == c[0] {
            lemma_lex_le_transitive(a.drop_first(), b.drop_first(), c.drop_first());
        }
    }
}

/// Dropping a shared prefix does not change the lexicographic comparison.
pub proof fn lemma_lex_le_common_prefix(p: Seq<char>, a: Seq<char>, b: Seq<char>)
    ensures
        lex_le(p + a, p + b) == lex_le(a, b),
    decreases p.len(),
{
    if p.len() == 0 {
        assert(p + a =~= a);
        assert(p + b =~= b);
    } else {
        assert((p + a)[0] == (p + b)[0]);
        assert((p + a).drop_first() =~= p.drop_first() + a);
        assert((p + b).drop_first() =~= p.drop_first() + b);
        lemma_lex_le_common_prefix(p.drop_first(), a, b);
    }
}

/// The normalised form is injective: equal norms mean equal signatures.
pub proof fn lemma_norm_injective(a: SigView, b: SigView)
    requires
        a.norm() == b.norm(),
    ensures
        a == b,
{
    reveal_strlit("Named:");
    reveal_strlit("Anonymous:");
    match (a, b) {
        (SigView::Named(x), SigView::Named(y)) => {
            let p = "Named:"@;
            assert((p + x).len() == (p + y).len());
            assert(x.len() == y.len());
            assert forall|i: int| 0 <= i < x.len() implies x[i] == y[i] by {
                assert((p + x)[p.len() + i] == x[i]);
                assert((p + y)[p.len() + i] == y[i]);
            }
            assert(x =~= y);
        },
        (SigView::Anonymous(x), SigView::Anonymous(y)) => {
            let p = "Anonymous:"@;
            assert((p + x).len() == (p + y).len());
            assert(x.len() == y.len());
            assert forall|i: int| 0 <= i < x.len() implies x[i] == y[i] by {
                assert((p + x)[p.len() + i] == x[i]);
                assert((p + y)[p.len() + i] == y[i]);
            }
            assert(x =~= y);
        },
        (SigView::Named(x), SigView::Anonymous(y)) => {
            assert(a.norm()[0] == 'N');
            assert(b.norm()[0] == 'A');
        },
        (SigView::Anonymous(x), SigView::Named(y)) => {
            assert(a.norm()[0] == 'A');
            assert(b.norm()[0] == 'N');
        },
    }
}

/// `sig_le` is a total order on signature views.
pub proof fn lemma_sig_le_total_ordering()
    ensures
        forall|a: SigView| #[trigger] sig_le(a, a),
        forall|a: SigView, b: SigView| #[trigger] sig_le(a, b) || #[trigger] sig_le(b, a),
        forall|a: SigView, b: SigView| #[trigger] sig_le(a, b) && #[trigger] sig_le(b, a) ==> a == b,
        forall|a: SigView, b: SigView, c: SigView|
            #[trigger] sig_le(a, b) && #[trigger] sig_le(b, c) ==> sig_le(a, c),
{
    assert forall|a: SigView| #[trigger] sig_le(a, a) by {
        lemma_lex_le_reflexive(a.norm());
    }
    assert forall|a: SigView, b: SigView| #[trigger] sig_le(a, b) || #[trigger] sig_le(b, a) by {
        lemma_lex_le_total(a.norm(), b.norm());
    }
    assert forall|a: SigView, b: SigView| #[trigger] sig_le(a, b) && #[trigger] sig_le(b, a)
        implies a == b by {
        lemma_lex_le_antisymmetric(a.norm(), b.norm());
        lemma_norm_injective(a, b);
    }
    assert forall|a: SigView, b: SigView, c: SigView|
        #[trigger] sig_le(a, b) && #[trigger] sig_le(b, c) implies sig_le(a, c) by {
        lemma_lex_le_transitive(a.norm(), b.norm(), c.norm());
    }
}

/// Equal character prefixes leave the comparison to the remainders.
proof fn lemma_lex_le_skip(a: Seq<char>, b: Seq<char>, i: int)
    requires
        0 <= i <= a.len(),
        i <= b.len(),
        forall|j: int| 0 <= j < i ==> a[j] == b[j],
    ensures
        lex_le(a, b) == lex_le(a.skip(i), b.skip(i)),
    decreases i,
{
    if i > 0 {
        assert(a.len() > 0 && b.len() > 0 && a[0] == b[0]);
        assert(forall|j: int| 0 <= j < i - 1 ==> a.drop_first()[j] == b.drop_first()[j]);
        lemma_lex_le_skip(a.drop_first(), b.drop_first(), i - 1);
        assert(a.drop_first().skip(i - 1) =~= a.skip(i));
        assert(b.drop_first().skip(i - 1) =~= b.skip(i));
    } else {
        assert(a.skip(0) =~= a);
        assert(b.skip(0) =~= b);
    }
}

/// Lexicographic comparison of two string slices, by code point.
pub fn str_lex_le(a: &str, b: &str) -> (r: bool)
    ensures
        r == lex_le(a@, b@),
{
    let a_len = a.unicode_len();
    let b_len = b.unicode_len();
    let mut i: usize = 0;
    loop
        invariant
            0 <= i <= a_len,
            i <= b_len,
            a_len == a@.len(),
            b_len == b@.len(),
            forall|j: int| 0 <= j < i ==> a@[j] == b@[j],
        decreases a_len - i,
    {
        if i == a_len {
            proof {
                lemma_lex_le_skip(a@, b@, i as int);
                assert(a@.skip(i as int).len() == 0);
            }
            return true;
        }
        if i == b_len {
            proof {
                lemma_lex_le_skip(a@, b@, i as int);
                assert(b@.skip(i as int).len() == 0);
                assert(a@.skip(i as int).len() > 0);
            }
            return false;
        }
        let ca = a.get_char(i);
        let cb = b.get_char(i);
        if ca != cb {
            proof {
                lemma_lex_le_skip(a@, b@, i as int);
                assert(a@.skip(i as int)[0] == ca);
                assert(b@.skip(i as int)[0] == cb);
            }
            return (ca as u32) < (cb as u32);
        }
        i = i + 1;
    }
}

impl Signature {
    /// The string form "Named:<name>" or "Anonymous:<id>" that fixes the
    /// total order on signatures.
    pub fn normalised_string(&self) -> (r: String)
        ensures
            r@ == self@.norm(),
    {
        match self {
            Signature::Named(n) => {
                let mut s = String::from_str("Named:");
                s.append(n.as_str());
                s
            },
            Signature::Anonymous(d) => {
                let mut s = String::from_str("Anonymous:");
                s.append(d.as_str());
                s
            },
        }
    }

    /// The total order on signatures, decided without building the
    /// normalised strings.
    pub fn le(&self, other: &Signature) -> (r: bool)
        ensures
            r == sig_le(self@, other@),
    {
        proof {
            reveal_strlit("Named:");
            reveal_strlit("Anonymous:");
        }
        match (self, other) {
            (Signature::Named(a), Signature::Named(b)) => {
                proof {
                    lemma_lex_le_common_prefix("Named:"@, a@, b@);
                }
                str_lex_le(a.as_str(), b.as_str())
            },
            (Signature::Anonymous(a), Signature::Anonymous(b)) => {
                proof {
                    lemma_lex_le_common_prefix("Anonymous:"@, a@, b@);
                }
                str_lex_le(a.as_str(), b.as_str())
            },
            (Signature::Named(a), Signature::Anonymous(b)) => {
                proof {
                    assert(self@.norm()[0] == 'N');
                    assert(other@.norm()[0] == 'A');
                }
                false
            },
            (Signature::Anonymous(a), Signature::Named(b)) => {
                proof {
                    assert(self@.norm()[0] == 'A');
                    assert(other@.norm()[0] == 'N');
                }
                true
            },
        }
    }
}

impl Clone for Signature {
    fn clone(&self) -> (r: Signature)
        ensures
            r == *self,
    {
        match self {
            Signature::Named(n) => Signature::Named(n.clone()),
            Signature::Anonymous(d) => Signature::Anonymous(d.clone()),
        }
    }
}

impl PartialEq for Signature {
    fn eq(&self, other: &Signature) -> (r: bool)
    {
        match (self, other) {
            (Signature::Named(a), Signature::Named(b)) => *a == *b,
            (Signature::Anonymous(a), Signature::Anonymous(b)) => *a == *b,
            (Signature::Named(a), Signature::Anonymous(b)) => false,
            (Signature::Anonymous(a), Signature::Named(b)) => false,
        }
    }
}

impl vstd::std_specs::cmp::PartialEqSpecImpl for Signature {
    open spec fn obeys_eq_spec() -> bool {
        true
    }

    open spec fn eq_spec(&self, other: &Signature) -> bool {
        self@ == other@
    }
}

impl Eq for Signature {}

} // verus!

verus! {

impl PartialOrd for Signature {
    fn partial_cmp(&self, other: &Signature) -> (r: Option<core::cmp::Ordering>) {
        let le = self.le(other);
        let ge = other.le(self);
        proof {
            lemma_sig_le_total_ordering();
        }
        if le && ge {
            Some(core::cmp::Ordering::Equal)
        } else if le {
            Some(core::cmp::Ordering::Less)
        } else {
            Some(core::cmp::Ordering::Greater)
        }
    }
}

impl vstd::std_specs::cmp::PartialOrdSpecImpl for Signature {
    open spec fn obeys_partial_cmp_spec() -> bool {
        true
    }

    open spec fn partial_cmp_spec(&self, other: &Signature) -> Option<core::cmp::Ordering> {
        if self@ == other@ {
            Some(core::cmp::Ordering::Equal)
        } else if sig_le(self@, other@) {
            Some(core::cmp::Ordering::Less)
        } else {
            Some(core::cmp::Ordering::Greater)
        }
    }
}

} // verus!
