//! Picking the rows that meet a condition, in the order they stand.

use vstd::prelude::*;
use crate::rows::{Battery, InstrumentRow, LocationEntry, Measurement, Mode};

verus! {

/// A condition on values of `T`.
pub trait Test<T> {
    spec fn holds(&self, x: T) -> bool;

    fn check(&self, x: &T) -> (r: bool)
        ensures
            r == self.holds(*x),
    ;
}

/// A value that can be handed out a second time, equal to the first.
pub trait Duplicate: Sized {
    fn duplicate(&self) -> (r: Self)
        ensures
            r == *self,
    ;
}

impl Duplicate for Battery {
    fn duplicate(&self) -> (r: Self) {
        self.clone()
    }
}

impl Duplicate for LocationEntry {
    fn duplicate(&self) -> (r: Self) {
        self.clone()
    }
}

impl Duplicate for Measurement {
    fn duplicate(&self) -> (r: Self) {
        self.clone()
    }
}

impl Duplicate for InstrumentRow {
    fn duplicate(&self) -> (r: Self) {
        self.clone()
    }
}

impl Duplicate for Mode {
    fn duplicate(&self) -> (r: Self) {
        self.clone()
    }
}

impl Duplicate for String {
    fn duplicate(&self) -> (r: Self) {
        self.clone()
    }
}

impl Duplicate for i64 {
    fn duplicate(&self) -> (r: Self) {
        *self
    }
}

/// The values of `s` that meet `p`, in their order.
pub open spec fn kept<T, P: Test<T>>(p: P, s: Seq<T>) -> Seq<T>
    decreases s.len(),
{
    if s.len() == 0 {
        s
    } else if p.holds(s.last()) {
        kept(p, s.drop_last()).push(s.last())
    } else {
        kept(p, s.drop_last())
    }
}

pub fn select<T: Duplicate, P: Test<T>>(p: &P, v: &Vec<T>) -> (r: Vec<T>)
    ensures
        r@ == kept(*p, v@),
{
    let mut out: Vec<T> = Vec::new();
    let mut i: usize = 0;
    assert(out@ =~= kept(*p, v@.take(0)));
    while i < v.len()
        invariant
            i <= v@.len(),
            out@ == kept(*p, v@.take(i as int)),
        decreases v@.len() - i,
    {
        assert(v@.take(i + 1).drop_last() =~= v@.take(i as int));
        if p.check(&v[i]) {
            out.push(v[i].duplicate());
        }
        i = i + 1;
    }
    assert(v@.take(v@.len() as int) =~= v@);
    out
}

/// Whether some value meets `p`.
pub fn any<T, P: Test<T>>(p: &P, v: &Vec<T>) -> (r: bool)
    ensures
        r == (exists|i: int| 0 <= i < v@.len() && p.holds(#[trigger] v@[i])),
{
    let mut i: usize = 0;
    while i < v.len()
        invariant
            i <= v@.len(),
            forall|j: int| 0 <= j < i ==> !p.holds(#[trigger] v@[j]),
        decreases v@.len() - i,
    {
        if p.check(&v[i]) {
            return true;
        }
        i = i + 1;
    }
    false
}

/// The kept values are those that were there and meet the condition.
pub proof fn kept_members<T, P: Test<T>>(p: P, s: Seq<T>)
    ensures
        forall|x: T| #[trigger] kept(p, s).contains(x) <==> (s.contains(x) && p.holds(x)),
        kept(p, s).len() <= s.len(),
    decreases s.len(),
{
    if s.len() > 0 {
        let d = s.drop_last();
        let k = kept(p, d);
        kept_members(p, d);
        assert forall|x: T| #[trigger]
            kept(p, s).contains(x) <==> (s.contains(x) && p.holds(x)) by {
            if kept(p, s).contains(x) {
                let i = choose|i: int| 0 <= i < kept(p, s).len() && kept(p, s)[i] == x;
                if i < k.len() {
                    assert(k[i] == x);
                    assert(k.contains(x));
                    let j = choose|j: int| 0 <= j < d.len() && d[j] == x;
                    assert(s[j] == x);
                } else {
                    assert(s[s.len() - 1] == x);
                }
            }
            if s.contains(x) && p.holds(x) {
                let i = choose|i: int| 0 <= i < s.len() && s[i] == x;
                if i < d.len() {
                    assert(d[i] == x);
                    assert(k.contains(x));
                    let j = choose|j: int| 0 <= j < k.len() && k[j] == x;
                    assert(kept(p, s)[j] == x);
                } else {
                    assert(kept(p, s).last() == x);
                }
            }
        }
    }
}

/// Every kept value meets the condition.
pub proof fn lemma_kept_holds<T, P: Test<T>>(p: P, s: Seq<T>)
    ensures
        forall|i: int| 0 <= i < kept(p, s).len() ==> p.holds(#[trigger] kept(p, s)[i]),
    decreases s.len(),
{
    if s.len() > 0 {
        lemma_kept_holds(p, s.drop_last());
        let k = kept(p, s.drop_last());
        assert forall|i: int| 0 <= i < kept(p, s).len() implies p.holds(
            #[trigger] kept(p, s)[i],
        ) by {
            if i < k.len() {
                assert(kept(p, s)[i] == k[i]);
            }
        }
    }
}

/// Where one value meets the condition, something is kept.
pub proof fn lemma_kept_nonempty<T, P: Test<T>>(p: P, s: Seq<T>, i: int)
    requires
        0 <= i < s.len(),
        p.holds(s[i]),
    ensures
        kept(p, s).len() > 0,
    decreases s.len(),
{
    if i < s.len() - 1 {
        lemma_kept_nonempty(p, s.drop_last(), i);
    }
}

/// Keeping by a condition and by its opposite parts a list in two.
pub proof fn lemma_kept_split<T, P: Test<T>, Q: Test<T>>(p: P, q: Q, s: Seq<T>)
    requires
        forall|x: T| p.holds(x) == !#[trigger] q.holds(x),
    ensures
        kept(p, s).to_multiset().add(kept(q, s).to_multiset()) == s.to_multiset(),
    decreases s.len(),
{
    broadcast use vstd::seq_lib::group_to_multiset_ensures;

    if s.len() > 0 {
        lemma_kept_split(p, q, s.drop_last());
        assert(s =~= s.drop_last().push(s.last()));
        assert(p.holds(s.last()) == !q.holds(s.last()));
        assert(kept(p, s).to_multiset().add(kept(q, s).to_multiset()) =~= s.to_multiset());
    } else {
        assert(s.to_multiset().add(s.to_multiset()) =~= s.to_multiset());
    }
}

/// One more value at the end counts once more.
pub proof fn lemma_push_count<T>(s: Seq<T>, x: T, c: T)
    ensures
        s.push(x).to_multiset().count(c) == s.to_multiset().count(c) + (if c == x {
            1nat
        } else {
            0
        }),
{
    broadcast use vstd::multiset::group_multiset_axioms;

    vstd::seq_lib::to_multiset_build(s, x);
}

pub proof fn lemma_none_count<T>(s: Seq<T>, c: T)
    requires
        s.len() == 0,
    ensures
        s.to_multiset().count(c) == 0,
{
    vstd::seq_lib::to_multiset_contains(s, c);
}

/// What is kept by a condition is kept as often as it is there.
pub proof fn lemma_kept_count<T, P: Test<T>>(p: P, s: Seq<T>, c: T)
    ensures
        kept(p, s).to_multiset().count(c) == (if p.holds(c) {
            s.to_multiset().count(c)
        } else {
            0
        }),
    decreases s.len(),
{
    if s.len() > 0 {
        let d = s.drop_last();
        lemma_kept_count(p, d, c);
        assert(s =~= d.push(s.last()));
        lemma_push_count(d, s.last(), c);
        lemma_push_count(kept(p, d), s.last(), c);
    } else {
        lemma_none_count(s, c);
    }
}

} // verus!
