//! Stable sorting by key, as `slice::sort_by` does it.
//!
//! A stable sort is unique: sorted, a permutation, and equal keys keep their
//! order. It is specified here by insertion (`stable_sort`), which has all
//! three properties by construction, and computed by merge sort, which is
//! proved to give the same sequence (`lemma_stable_sort_append`).
use std::collections::VecDeque;
use vstd::prelude::*;

verus! {

/// An order on keys that is irreflexive, transitive, and whose
/// incomparability is transitive (a strict weak order).
pub trait KeyOrder: Sized {
    spec fn key_lt(self, other: Self) -> bool;

    proof fn lemma_key_order(a: Self, b: Self, c: Self)
        ensures
            !a.key_lt(a),
            a.key_lt(b) && b.key_lt(c) ==> a.key_lt(c),
            !a.key_lt(b) && !b.key_lt(c) ==> !a.key_lt(c),
    ;
}

/// Values that are sorted by the order of their views.
pub trait Ordered: View + Sized {
    fn lt(&self, other: &Self) -> (r: bool)
        where <Self as View>::V: KeyOrder
        ensures
            r == self@.key_lt(other@),
    ;
}

/// The views of the elements of `s`.
pub open spec fn views<T: View>(s: Seq<T>) -> Seq<T::V> {
    s.map_values(|x: T| x@)
}

/// `a` sorts before `b` ascending, or after it descending (the comparison reversed).
pub open spec fn less_by<T: KeyOrder>(descending: bool, a: T, b: T) -> bool {
    if descending {
        b.key_lt(a)
    } else {
        a.key_lt(b)
    }
}

/// Where a stable sort puts `x` behind the already sorted `s`: before the
/// first element that `x` sorts before.
pub open spec fn insert_pos<T: KeyOrder>(s: Seq<T>, x: T, descending: bool, from: int) -> int
    decreases s.len() - from,
{
    if from < 0 || from >= s.len() {
        s.len() as int
    } else if less_by(descending, x, s[from]) {
        from
    } else {
        insert_pos(s, x, descending, from + 1)
    }
}

/// The stable sort of `s`.
pub open spec fn stable_sort<T: KeyOrder>(s: Seq<T>, descending: bool) -> Seq<T>
    decreases s.len(),
{
    if s.len() == 0 {
        s
    } else {
        let sorted = stable_sort(s.drop_last(), descending);
        sorted.insert(insert_pos(sorted, s.last(), descending, 0), s.last())
    }
}

/// No element sorts before an earlier one.
pub open spec fn is_sorted<T: KeyOrder>(s: Seq<T>, descending: bool) -> bool {
    forall|i: int, j: int| 0 <= i < j < s.len() ==> !less_by(descending, #[trigger] s[j], #[trigger] s[i])
}

proof fn lemma_less_by_order<T: KeyOrder>(descending: bool, a: T, b: T, c: T)
    ensures
        !less_by(descending, a, a),
        less_by(descending, a, b) && less_by(descending, b, c) ==> less_by(descending, a, c),
        !less_by(descending, a, b) && !less_by(descending, b, c) ==> !less_by(descending, a, c),
{
    T::lemma_key_order(a, b, c);
    T::lemma_key_order(c, b, a);
}

proof fn lemma_insert_pos<T: KeyOrder>(s: Seq<T>, x: T, descending: bool, from: int)
    requires
        0 <= from <= s.len(),
    ensures
        from <= insert_pos(s, x, descending, from) <= s.len(),
        forall|k: int| from <= k < insert_pos(s, x, descending, from) ==> !less_by(descending, x, #[trigger] s[k]),
        insert_pos(s, x, descending, from) < s.len() ==> less_by(descending, x, s[insert_pos(s, x, descending, from)]),
    decreases s.len() - from,
{
    if from < s.len() && !less_by(descending, x, s[from]) {
        lemma_insert_pos(s, x, descending, from + 1);
    }
}

pub proof fn lemma_stable_sort_sorted<T: KeyOrder>(s: Seq<T>, descending: bool)
    ensures
        is_sorted(stable_sort(s, descending), descending),
        stable_sort(s, descending).len() == s.len(),
    decreases s.len(),
{
    if s.len() > 0 {
        let sorted = stable_sort(s.drop_last(), descending);
        lemma_stable_sort_sorted(s.drop_last(), descending);
        let x = s.last();
        let p = insert_pos(sorted, x, descending, 0);
        lemma_insert_pos(sorted, x, descending, 0);
        let r = sorted.insert(p, x);
        assert forall|i: int, j: int| 0 <= i < j < r.len() implies !less_by(descending, #[trigger] r[j], #[trigger] r[i]) by {
            if j < p {
                assert(r[i] == sorted[i] && r[j] == sorted[j]);
            } else if j == p {
                assert(r[i] == sorted[i]);
                lemma_less_by_order(descending, x, sorted[i], x);
            } else if i < p {
                assert(r[i] == sorted[i] && r[j] == sorted[j - 1]);
            } else if i == p {
                assert(r[j] == sorted[j - 1]);
                lemma_less_by_order(descending, sorted[j - 1], x, sorted[p]);
                if j - 1 > p {
                    assert(!less_by(descending, sorted[j - 1], sorted[p]));
                }
                lemma_less_by_order(descending, sorted[p], sorted[p], sorted[p]);
            } else {
                assert(r[i] == sorted[i - 1] && r[j] == sorted[j - 1]);
            }
        }
    }
}

/// A stable sort only re-orders: mapped through any `f`, the sorted sequence
/// holds the same elements as many times as the input does.
pub proof fn lemma_stable_sort_permutes<T: KeyOrder, U>(s: Seq<T>, descending: bool, f: spec_fn(T) -> U)
    ensures
        stable_sort(s, descending).map_values(f).to_multiset() == s.map_values(f).to_multiset(),
    decreases s.len(),
{
    broadcast use vstd::seq_lib::group_to_multiset_ensures;

    if s.len() > 0 {
        let sorted = stable_sort(s.drop_last(), descending);
        lemma_stable_sort_permutes(s.drop_last(), descending, f);
        lemma_stable_sort_sorted(s.drop_last(), descending);
        let x = s.last();
        let p = insert_pos(sorted, x, descending, 0);
        lemma_insert_pos(sorted, x, descending, 0);
        assert(sorted.insert(p, x).map_values(f) =~= sorted.map_values(f).insert(p, f(x)));
        vstd::seq_lib::to_multiset_insert(sorted.map_values(f), p, f(x));
        assert(s.map_values(f) =~= s.drop_last().map_values(f).push(f(x)));
        vstd::seq_lib::to_multiset_build(s.drop_last().map_values(f), f(x));
    }
}

/// A stable sort keeps ties in their input order: when `s[i]` comes before
/// `s[j]` and neither sorts before the other, the sorted sequence still has
/// `s[i]` before `s[j]`.
pub proof fn lemma_stable_sort_keeps_ties<T: KeyOrder>(s: Seq<T>, descending: bool, i: int, j: int)
    requires
        0 <= i < j < s.len(),
        !less_by(descending, s[i], s[j]),
        !less_by(descending, s[j], s[i]),
    ensures
        exists|p: int, q: int|
            0 <= p < q < s.len() && #[trigger] stable_sort(s, descending)[p] == s[i] && #[trigger] stable_sort(
                s,
                descending,
            )[q] == s[j],
    decreases s.len(),
{
    let sp = s.drop_last();
    let r1 = stable_sort(sp, descending);
    let x = s.last();
    let pos = insert_pos(r1, x, descending, 0);
    lemma_stable_sort_sorted(sp, descending);
    lemma_insert_pos(r1, x, descending, 0);
    let r = stable_sort(s, descending);
    assert(r == r1.insert(pos, x));
    if j < s.len() - 1 {
        assert(sp[i] == s[i] && sp[j] == s[j]);
        lemma_stable_sort_keeps_ties(sp, descending, i, j);
        let (p, q) = choose|p: int, q: int|
            0 <= p < q < sp.len() && #[trigger] r1[p] == sp[i] && #[trigger] r1[q] == sp[j];
        let p2 = if p < pos { p } else { p + 1 };
        let q2 = if q < pos { q } else { q + 1 };
        assert(r[p2] == s[i] && r[q2] == s[j]);
    } else {
        broadcast use vstd::seq_lib::group_to_multiset_ensures;

        lemma_stable_sort_permutes(sp, descending, |a: T| a);
        assert(sp.map_values(|a: T| a) =~= sp);
        assert(r1.map_values(|a: T| a) =~= r1);
        assert(sp[i] == s[i]);
        assert(sp.contains(s[i]));
        assert(r1.to_multiset().count(s[i]) > 0);
        let p = choose|p: int| 0 <= p < r1.len() && r1[p] == s[i];
        if p >= pos {
            if p > pos {
                assert(!less_by(descending, r1[p], r1[pos]));
                lemma_less_by_order(descending, x, r1[p], r1[pos]);
            }
            assert(less_by(descending, x, s[i]));
            assert(false);
        }
        assert(r[p] == s[i] && r[pos] == s[j]);
    }
}

/// A sequence that is already sorted is its own stable sort.
pub proof fn lemma_stable_sort_of_sorted<T: KeyOrder>(s: Seq<T>, descending: bool)
    requires
        is_sorted(s, descending),
    ensures
        stable_sort(s, descending) == s,
    decreases s.len(),
{
    if s.len() > 0 {
        let p = s.drop_last();
        assert(is_sorted(p, descending)) by {
            assert forall|i: int, j: int| 0 <= i < j < p.len() implies !less_by(descending, #[trigger] p[j], #[trigger] p[i]) by {
                assert(p[i] == s[i] && p[j] == s[j]);
            }
        }
        lemma_stable_sort_of_sorted(p, descending);
        let x = s.last();
        lemma_insert_pos(p, x, descending, 0);
        let q = insert_pos(p, x, descending, 0);
        if q < p.len() {
            assert(p[q] == s[q]);
            assert(!less_by(descending, s[s.len() - 1], s[q]));
        }
        assert(p.insert(q, x) =~= s);
    }
}

/// `x` inserted where a stable sort puts it behind `s`.
pub open spec fn insert_sorted<T: KeyOrder>(s: Seq<T>, x: T, descending: bool) -> Seq<T> {
    s.insert(insert_pos(s, x, descending, 0), x)
}

/// The stable merge of two sequences: the head of `b` is taken only when it
/// sorts before the head of `a`, so on equal keys `a` comes first.
pub open spec fn merge_by<T: KeyOrder>(a: Seq<T>, b: Seq<T>, descending: bool) -> Seq<T>
    decreases a.len() + b.len(),
{
    if a.len() == 0 {
        b
    } else if b.len() == 0 {
        a
    } else if less_by(descending, b[0], a[0]) {
        seq![b[0]] + merge_by(a, b.drop_first(), descending)
    } else {
        seq![a[0]] + merge_by(a.drop_first(), b, descending)
    }
}

proof fn lemma_insert_pos_shift<T: KeyOrder>(r: Seq<T>, x: T, descending: bool, k: int)
    requires
        r.len() > 0,
        0 <= k,
    ensures
        insert_pos(r, x, descending, k + 1) == 1 + insert_pos(r.drop_first(), x, descending, k),
    decreases r.len() - k,
{
    if k + 1 < r.len() && !less_by(descending, x, r[k + 1]) {
        lemma_insert_pos_shift(r, x, descending, k + 1);
    }
}

/// Inserting behind a non-empty sequence either goes first or leaves its
/// head in place.
proof fn lemma_insert_sorted_cons<T: KeyOrder>(r: Seq<T>, x: T, descending: bool)
    requires
        r.len() > 0,
    ensures
        less_by(descending, x, r[0]) ==> insert_sorted(r, x, descending) == seq![x] + r,
        !less_by(descending, x, r[0]) ==> insert_sorted(r, x, descending) == seq![r[0]] + insert_sorted(
            r.drop_first(),
            x,
            descending,
        ),
{
    if less_by(descending, x, r[0]) {
        assert(insert_sorted(r, x, descending) =~= seq![x] + r);
    } else {
        lemma_insert_pos_shift(r, x, descending, 0);
        let p = insert_pos(r.drop_first(), x, descending, 0);
        lemma_insert_pos(r.drop_first(), x, descending, 0);
        assert(insert_sorted(r, x, descending) =~= seq![r[0]] + r.drop_first().insert(p, x));
    }
}

/// Inserting an element behind a merge is merging with the element inserted
/// behind the second sequence.
proof fn lemma_merge_insert<T: KeyOrder>(a: Seq<T>, b: Seq<T>, x: T, descending: bool)
    ensures
        insert_sorted(merge_by(a, b, descending), x, descending) == merge_by(a, insert_sorted(b, x, descending), descending),
    decreases a.len() + b.len(),
{
    if a.len() == 0 {
        assert(merge_by(a, insert_sorted(b, x, descending), descending) == insert_sorted(b, x, descending));
    } else if b.len() == 0 {
        let ib = insert_sorted(b, x, descending);
        assert(ib =~= seq![x]);
        lemma_insert_sorted_cons(a, x, descending);
        if less_by(descending, x, a[0]) {
            assert(merge_by(a, ib, descending) =~= seq![x] + merge_by(a, ib.drop_first(), descending));
            assert(ib.drop_first() =~= Seq::<T>::empty());
        } else {
            lemma_merge_insert(a.drop_first(), b, x, descending);
            assert(merge_by(a.drop_first(), b, descending) == a.drop_first());
        }
    } else {
        let m = merge_by(a, b, descending);
        let ib = insert_sorted(b, x, descending);
        lemma_insert_sorted_cons(b, x, descending);
        lemma_less_by_order(descending, x, b[0], a[0]);
        if less_by(descending, b[0], a[0]) {
            let rest = merge_by(a, b.drop_first(), descending);
            assert(m == seq![b[0]] + rest);
            assert(m.len() > 0 && m[0] == b[0] && m.drop_first() =~= rest);
            lemma_insert_sorted_cons(m, x, descending);
            if less_by(descending, x, b[0]) {
                assert(ib == seq![x] + b);
                assert(merge_by(a, ib, descending) == seq![x] + merge_by(a, ib.drop_first(), descending));
                assert(ib.drop_first() =~= b);
            } else {
                lemma_merge_insert(a, b.drop_first(), x, descending);
                assert(ib == seq![b[0]] + insert_sorted(b.drop_first(), x, descending));
                assert(ib[0] == b[0] && ib.drop_first() =~= insert_sorted(b.drop_first(), x, descending));
            }
        } else {
            let rest = merge_by(a.drop_first(), b, descending);
            assert(m == seq![a[0]] + rest);
            assert(m.len() > 0 && m[0] == a[0] && m.drop_first() =~= rest);
            lemma_insert_sorted_cons(m, x, descending);
            if less_by(descending, x, a[0]) {
                assert(less_by(descending, x, b[0]));
                assert(ib == seq![x] + b);
                assert(merge_by(a, ib, descending) == seq![x] + merge_by(a, ib.drop_first(), descending));
                assert(ib.drop_first() =~= b);
            } else {
                lemma_merge_insert(a.drop_first(), b, x, descending);
                assert(ib.len() > 0);
                if less_by(descending, x, b[0]) {
                    assert(ib == seq![x] + b);
                    assert(ib[0] == x);
                } else {
                    assert(ib == seq![b[0]] + insert_sorted(b.drop_first(), x, descending));
                    assert(ib[0] == b[0]);
                }
            }
        }
    }
}

/// The stable sort of a concatenation is the stable merge of the stable
/// sorts of its parts.
pub proof fn lemma_stable_sort_append<T: KeyOrder>(s: Seq<T>, t: Seq<T>, descending: bool)
    ensures
        stable_sort(s + t, descending) == merge_by(stable_sort(s, descending), stable_sort(t, descending), descending),
    decreases t.len(),
{
    if t.len() == 0 {
        assert(s + t =~= s);
    } else {
        let tp = t.drop_last();
        let x = t.last();
        assert((s + t).drop_last() =~= s + tp);
        assert((s + t).last() == x);
        lemma_stable_sort_append(s, tp, descending);
        lemma_merge_insert(stable_sort(s, descending), stable_sort(tp, descending), x, descending);
    }
}

/// Sequences of at most one element are their own stable sort.
pub proof fn lemma_stable_sort_small<T: KeyOrder>(s: Seq<T>, descending: bool)
    requires
        s.len() <= 1,
    ensures
        stable_sort(s, descending) == s,
{
    if s.len() == 1 {
        assert(s.drop_last() =~= Seq::<T>::empty());
        assert(stable_sort(s.drop_last(), descending) == s.drop_last());
        assert(insert_pos(s.drop_last(), s.last(), descending, 0) == 0);
        assert(stable_sort(s, descending) =~= s);
    }
}

/// Merges two sorted runs stably.
fn merge_runs<T: Ordered>(a: VecDeque<T>, b: VecDeque<T>, descending: bool) -> (r: VecDeque<T>)
    where <T as View>::V: KeyOrder
    ensures
        views(r@) == merge_by(views(a@), views(b@), descending),
{
    let ghost goal = merge_by(views(a@), views(b@), descending);
    let mut a = a;
    let mut b = b;
    let mut out: VecDeque<T> = VecDeque::new();
    while a.len() > 0 && b.len() > 0
        invariant
            views(out@) + merge_by(views(a@), views(b@), descending) == goal,
        decreases a@.len() + b@.len(),
    {
        let ghost (av, bv) = (views(a@), views(b@));
        proof {
            assert(a@[0]@ == av[0]);
            assert(b@[0]@ == bv[0]);
        }
        let take_b = less(&b[0], &a[0], descending);
        let ghost before = views(out@);
        if take_b {
            let x = b.pop_front().unwrap();
            out.push_back(x);
            proof {
                assert(views(b@) =~= bv.drop_first());
                assert(views(out@) =~= before.push(bv[0]));
                assert(views(out@) + merge_by(views(a@), views(b@), descending) =~= before + (seq![bv[0]]
                    + merge_by(av, bv.drop_first(), descending)));
            }
        } else {
            let x = a.pop_front().unwrap();
            out.push_back(x);
            proof {
                assert(views(a@) =~= av.drop_first());
                assert(views(out@) =~= before.push(av[0]));
                assert(views(out@) + merge_by(views(a@), views(b@), descending) =~= before + (seq![av[0]]
                    + merge_by(av.drop_first(), bv, descending)));
            }
        }
    }
    while a.len() > 0
        invariant
            b@.len() == 0 || a@.len() == 0,
            views(out@) + merge_by(views(a@), views(b@), descending) == goal,
        decreases a@.len(),
    {
        let ghost (av, before) = (views(a@), views(out@));
        let x = a.pop_front().unwrap();
        out.push_back(x);
        proof {
            assert(views(a@) =~= av.drop_first());
            assert(views(out@) =~= before.push(av[0]));
            assert(merge_by(av, views(b@), descending) == av);
            assert(merge_by(views(a@), views(b@), descending) == views(a@));
            assert(views(out@) + views(a@) =~= before + av);
        }
    }
    while b.len() > 0
        invariant
            a@.len() == 0,
            views(out@) + merge_by(views(a@), views(b@), descending) == goal,
        decreases b@.len(),
    {
        let ghost (bv, before) = (views(b@), views(out@));
        let x = b.pop_front().unwrap();
        out.push_back(x);
        proof {
            assert(views(b@) =~= bv.drop_first());
            assert(views(out@) =~= before.push(bv[0]));
            assert(views(out@) + views(b@) =~= before + bv);
        }
    }
    proof {
        assert(merge_by(views(a@), views(b@), descending) =~= Seq::<T::V>::empty());
        assert(views(out@) =~= goal);
    }
    out
}

/// Sorts a run stably by splitting it in halves, sorting each and merging.
fn sort_run<T: Ordered>(v: VecDeque<T>, descending: bool) -> (r: VecDeque<T>)
    where <T as View>::V: KeyOrder
    ensures
        views(r@) == stable_sort(views(v@), descending),
    decreases v@.len(),
{
    let n = v.len();
    if n <= 1 {
        proof {
            lemma_stable_sort_small(views(v@), descending);
        }
        return v;
    }
    let ghost whole = views(v@);
    let mut front = v;
    let back = front.split_off(n / 2);
    proof {
        assert(views(front@) + views(back@) =~= whole);
        lemma_stable_sort_append(views(front@), views(back@), descending);
    }
    let sorted_front = sort_run(front, descending);
    let sorted_back = sort_run(back, descending);
    merge_runs(sorted_front, sorted_back, descending)
}

/// Sorts `v` stably, ascending or descending by key.
pub fn stable_sort_by_key<T: Ordered>(v: &mut Vec<T>, descending: bool)
    where <T as View>::V: KeyOrder
    ensures
        views(final(v)@) == stable_sort(views(old(v)@), descending),
{
    let ghost input = views(v@);
    let mut run: VecDeque<T> = VecDeque::new();
    while v.len() > 0
        invariant
            views(v@) + views(run@) == input,
        decreases v@.len(),
    {
        let ghost (vv, rv) = (views(v@), views(run@));
        let x = v.pop().unwrap();
        run.push_front(x);
        proof {
            assert(views(v@) =~= vv.drop_last());
            assert(views(run@) =~= seq![vv.last()] + rv);
            assert(views(v@) + views(run@) =~= vv + rv);
        }
    }
    proof {
        assert(views(run@) =~= input);
    }
    let mut sorted = sort_run(run, descending);
    let ghost result = views(sorted@);
    while sorted.len() > 0
        invariant
            views(v@) + views(sorted@) == result,
        decreases sorted@.len(),
    {
        let ghost (vv, sv) = (views(v@), views(sorted@));
        let x = sorted.pop_front().unwrap();
        v.push(x);
        proof {
            assert(views(sorted@) =~= sv.drop_first());
            assert(views(v@) =~= vv.push(sv[0]));
            assert(views(v@) + views(sorted@) =~= vv + sv);
        }
    }
    proof {
        assert(views(v@) =~= result);
    }
}

fn less<T: Ordered>(a: &T, b: &T, descending: bool) -> (r: bool)
    where <T as View>::V: KeyOrder
    ensures
        r == less_by(descending, a@, b@),
{
    if descending {
        b.lt(a)
    } else {
        a.lt(b)
    }
}

} // verus!
