//! Sorting that keeps equals in the order they came in.

use vstd::prelude::*;
use crate::text::{before, lemma_text_lt_irreflexive, lemma_text_lt_total, lemma_text_lt_trans, same};

verus! {

/// A way to put values of `T` in order, in which any two can be compared.
pub trait Order<T> {
    spec fn le(&self, a: T, b: T) -> bool;

    proof fn total(&self, a: T, b: T)
        ensures
            self.le(a, b) || self.le(b, a),
    ;

    proof fn trans(&self, a: T, b: T, c: T)
        requires
            self.le(a, b),
            self.le(b, c),
        ensures
            self.le(a, c),
    ;

    fn is_le(&self, a: &T, b: &T) -> (r: bool)
        ensures
            r == self.le(*a, *b),
    ;
}

/// `x` put into `s` behind everything that may stand before it.
pub open spec fn inserted<T, O: Order<T>>(o: O, s: Seq<T>, x: T) -> Seq<T>
    decreases s.len(),
{
    if s.len() == 0 || o.le(s.last(), x) {
        s.push(x)
    } else {
        inserted(o, s.drop_last(), x).push(s.last())
    }
}

/// `s` in order, equals as they came.
pub open spec fn sorted<T, O: Order<T>>(o: O, s: Seq<T>) -> Seq<T>
    decreases s.len(),
{
    if s.len() == 0 {
        s
    } else {
        inserted(o, sorted(o, s.drop_last()), s.last())
    }
}

pub open spec fn in_order<T, O: Order<T>>(o: O, s: Seq<T>) -> bool {
    forall|i: int, j: int| 0 <= i < j < s.len() ==> o.le(#[trigger] s[i], #[trigger] s[j])
}

proof fn lemma_inserted_at<T, O: Order<T>>(o: O, s: Seq<T>, x: T, at: int)
    requires
        0 <= at <= s.len(),
        at > 0 ==> o.le(s[at - 1], x),
        forall|k: int| at <= k < s.len() ==> !o.le(#[trigger] s[k], x),
    ensures
        inserted(o, s, x) == s.insert(at, x),
    decreases s.len(),
{
    if s.len() == 0 || at == s.len() {
        assert(s.insert(at, x) =~= s.push(x));
    } else {
        lemma_inserted_at(o, s.drop_last(), x, at);
        assert(s.insert(at, x) =~= s.drop_last().insert(at, x).push(s.last()));
    }
}

pub fn sort<T, O: Order<T>>(o: &O, items: Vec<T>) -> (r: Vec<T>)
    ensures
        r@ == sorted(*o, items@),
{
    let mut rest = items;
    let mut out: Vec<T> = Vec::new();
    let ghost all = items@;
    assert(all.skip(0) =~= all);
    assert(all.take(0).len() == 0);
    assert(out@ =~= sorted(*o, all.take(0)));
    while rest.len() > 0
        invariant
            rest@.len() <= all.len(),
            rest@ == all.skip(all.len() - rest@.len()),
            out@ == sorted(*o, all.take(all.len() - rest@.len())),
        decreases rest@.len(),
    {
        let ghost k = all.len() - rest@.len();
        let x = rest.remove(0);
        assert(x == all[k]);
        assert(rest@ =~= all.skip(k + 1));
        assert(all.take(k + 1).drop_last() =~= all.take(k));
        let mut at: usize = out.len();
        while at > 0 && !o.is_le(&out[at - 1], &x)
            invariant
                at <= out@.len(),
                forall|i: int| at <= i < out@.len() ==> !o.le(#[trigger] out@[i], x),
            decreases at,
        {
            at = at - 1;
        }
        proof {
            lemma_inserted_at(*o, out@, x, at as int);
        }
        out.insert(at, x);
    }
    assert(all.take(all.len() as int) =~= all);
    out
}

/// Sorting only changes the order: every value stays, as often as it was there.
pub proof fn sorted_keeps_all<T, O: Order<T>>(o: O, s: Seq<T>)
    ensures
        sorted(o, s).to_multiset() == s.to_multiset(),
        sorted(o, s).len() == s.len(),
    decreases s.len(),
{
    broadcast use vstd::seq_lib::group_to_multiset_ensures;

    if s.len() > 0 {
        sorted_keeps_all(o, s.drop_last());
        lemma_inserted_keeps_all(o, sorted(o, s.drop_last()), s.last());
        assert(s =~= s.drop_last().push(s.last()));
    }
}

proof fn lemma_inserted_keeps_all<T, O: Order<T>>(o: O, s: Seq<T>, x: T)
    ensures
        inserted(o, s, x).to_multiset() == s.to_multiset().insert(x),
        inserted(o, s, x).len() == s.len() + 1,
    decreases s.len(),
{
    broadcast use vstd::seq_lib::group_to_multiset_ensures;

    if s.len() > 0 && !o.le(s.last(), x) {
        lemma_inserted_keeps_all(o, s.drop_last(), x);
        assert(s =~= s.drop_last().push(s.last()));
        assert(s.to_multiset().insert(x) =~= s.drop_last().to_multiset().insert(x).insert(
            s.last(),
        ));
    }
}

/// What is in the sorted list is what was in the list.
pub proof fn sorted_same_members<T, O: Order<T>>(o: O, s: Seq<T>)
    ensures
        forall|x: T| #[trigger] sorted(o, s).contains(x) <==> s.contains(x),
{
    broadcast use vstd::seq_lib::group_to_multiset_ensures;

    sorted_keeps_all(o, s);
    assert forall|x: T| #[trigger] sorted(o, s).contains(x) <==> s.contains(x) by {
        assert(sorted(o, s).to_multiset().count(x) > 0 <==> sorted(o, s).contains(x));
        assert(s.to_multiset().count(x) > 0 <==> s.contains(x));
    }
}

/// What sorting returns is in order.
pub proof fn sorted_in_order<T, O: Order<T>>(o: O, s: Seq<T>)
    ensures
        in_order(o, sorted(o, s)),
    decreases s.len(),
{
    if s.len() > 0 {
        sorted_in_order(o, s.drop_last());
        lemma_inserted_in_order(o, sorted(o, s.drop_last()), s.last());
    }
}

proof fn lemma_inserted_in_order<T, O: Order<T>>(o: O, s: Seq<T>, x: T)
    requires
        in_order(o, s),
    ensures
        in_order(o, inserted(o, s, x)),
        forall|y: T|
            #![trigger inserted(o, s, x).contains(y)]
            inserted(o, s, x).contains(y) ==> y == x || s.contains(y),
    decreases s.len(),
{
    let r = inserted(o, s, x);
    if s.len() == 0 || o.le(s.last(), x) {
        assert forall|i: int, j: int| 0 <= i < j < r.len() implies o.le(
            #[trigger] r[i],
            #[trigger] r[j],
        ) by {
            if j == r.len() - 1 {
                if i < s.len() - 1 {
                    o.trans(s[i], s.last(), x);
                }
            }
        }
        assert forall|y: T| #![trigger r.contains(y)] r.contains(y) implies y == x || s.contains(
            y,
        ) by {
            let i = choose|i: int| 0 <= i < r.len() && r[i] == y;
            if i < s.len() {
                assert(s[i] == y);
            }
        }
    } else {
        let d = s.drop_last();
        let q = inserted(o, d, x);
        lemma_inserted_in_order(o, d, x);
        assert(r == q.push(s.last()));
        o.total(s.last(), x);
        assert forall|i: int, j: int| 0 <= i < j < r.len() implies o.le(
            #[trigger] r[i],
            #[trigger] r[j],
        ) by {
            if j == r.len() - 1 {
                assert(q.contains(q[i]));
                if q[i] != x {
                    let k = choose|k: int| 0 <= k < d.len() && d[k] == q[i];
                    assert(o.le(s[k], s[s.len() - 1]));
                }
            }
        }
        assert forall|y: T| #![trigger r.contains(y)] r.contains(y) implies y == x || s.contains(
            y,
        ) by {
            let i = choose|i: int| 0 <= i < r.len() && r[i] == y;
            if i < q.len() {
                assert(q.contains(y));
                if y != x {
                    let k = choose|k: int| 0 <= k < d.len() && d[k] == y;
                    assert(s[k] == y);
                }
            } else {
                assert(s[s.len() - 1] == y);
            }
        }
    }
}

/// Sorting does not reorder equals: those that are equal to `x` come out in
/// the order they had.
pub proof fn sorted_keeps_equals_in_order<T, O: Order<T>>(o: O, s: Seq<T>, x: T)
    ensures
        sorted(o, s).filter(|y: T| o.le(x, y) && o.le(y, x)) == s.filter(
            |y: T| o.le(x, y) && o.le(y, x),
        ),
    decreases s.len(),
{
    let p = |y: T| o.le(x, y) && o.le(y, x);
    reveal(Seq::filter);
    if s.len() > 0 {
        let t = sorted(o, s.drop_last());
        sorted_keeps_equals_in_order(o, s.drop_last(), x);
        sorted_in_order(o, s.drop_last());
        lemma_inserted_filter(o, t, s.last(), x);
    }
}

proof fn lemma_inserted_filter<T, O: Order<T>>(o: O, s: Seq<T>, v: T, x: T)
    requires
        in_order(o, s),
    ensures
        inserted(o, s, v).filter(|y: T| o.le(x, y) && o.le(y, x)) == (if o.le(x, v) && o.le(v, x) {
            s.filter(|y: T| o.le(x, y) && o.le(y, x)).push(v)
        } else {
            s.filter(|y: T| o.le(x, y) && o.le(y, x))
        }),
    decreases s.len(),
{
    let p = |y: T| o.le(x, y) && o.le(y, x);
    reveal(Seq::filter);
    if s.len() == 0 || o.le(s.last(), v) {
        assert(s.push(v).drop_last() =~= s);
    } else {
        let d = s.drop_last();
        lemma_inserted_filter(o, d, v, x);
        assert(inserted(o, d, v).push(s.last()).drop_last() =~= inserted(o, d, v));
        if p(v) && p(s.last()) {
            o.trans(s.last(), x, v);
        }
    }
}

/// Numbers from small to large.
pub struct Ascending;

impl Order<i64> for Ascending {
    open spec fn le(&self, a: i64, b: i64) -> bool {
        a <= b
    }

    proof fn total(&self, a: i64, b: i64) {
    }

    proof fn trans(&self, a: i64, b: i64, c: i64) {
    }

    fn is_le(&self, a: &i64, b: &i64) -> (r: bool) {
        *a <= *b
    }
}

/// Strings in the order of their characters.
pub struct Alphabetical;

impl Order<String> for Alphabetical {
    open spec fn le(&self, a: String, b: String) -> bool {
        !crate::text::text_lt(b@, a@)
    }

    proof fn total(&self, a: String, b: String) {
        lemma_text_lt_total(a@, b@);
    }

    proof fn trans(&self, a: String, b: String, c: String) {
        lemma_not_lt_trans(a@, b@, c@);
    }

    fn is_le(&self, a: &String, b: &String) -> (r: bool) {
        !before(b.as_str(), a.as_str())
    }
}

pub proof fn lemma_not_lt_trans(a: Seq<char>, b: Seq<char>, c: Seq<char>)
    requires
        !crate::text::text_lt(b, a),
        !crate::text::text_lt(c, b),
    ensures
        !crate::text::text_lt(c, a),
{
    lemma_text_lt_total(a, b);
    lemma_text_lt_total(b, c);
    if crate::text::text_lt(c, a) {
        if a == b {
        } else {
            lemma_text_lt_trans(c, a, b);
        }
    }
}

/// `a` before `b`, and among equal texts the smaller number first.
pub open spec fn dated_le(a: Seq<char>, ai: i64, b: Seq<char>, bi: i64) -> bool {
    crate::text::text_lt(a, b) || (a == b && ai <= bi)
}

pub fn dated_before(a: &str, ai: i64, b: &str, bi: i64) -> (r: bool)
    ensures
        r == dated_le(a@, ai, b@, bi),
{
    if before(a, b) {
        true
    } else {
        same(a, b) && ai <= bi
    }
}

pub proof fn lemma_dated_total(a: Seq<char>, ai: i64, b: Seq<char>, bi: i64)
    ensures
        dated_le(a, ai, b, bi) || dated_le(b, bi, a, ai),
        dated_le(a, ai, b, bi) && dated_le(b, bi, a, ai) ==> a == b && ai == bi,
{
    lemma_text_lt_total(a, b);
    lemma_text_lt_irreflexive(a);
}

pub proof fn lemma_dated_trans(
    a: Seq<char>,
    ai: i64,
    b: Seq<char>,
    bi: i64,
    c: Seq<char>,
    ci: i64,
)
    requires
        dated_le(a, ai, b, bi),
        dated_le(b, bi, c, ci),
    ensures
        dated_le(a, ai, c, ci),
{
    if crate::text::text_lt(a, b) && crate::text::text_lt(b, c) {
        lemma_text_lt_trans(a, b, c);
    }
}

} // verus!
