//! Sequences that hold the same in another order, and what filters keep of sequences.

use vstd::prelude::*;

verus! {

/// Whether two sequences hold the same, in whatever order.
pub open spec fn same_members<T>(a: Seq<T>, b: Seq<T>) -> bool {
    a.to_multiset() == b.to_multiset()
}

/// Where all that a filter keeps is kept by a coarser one, the coarser one in front of it changes
/// nothing.
pub proof fn lemma_filter_twice<T>(s: Seq<T>, coarse: spec_fn(T) -> bool, fine: spec_fn(T) -> bool)
    requires
        forall|i: int|
            #![trigger s[i]]
            0 <= i < s.len() && fine(s[i]) ==> coarse(s[i]),
    ensures
        s.filter(coarse).filter(fine) == s.filter(fine),
    decreases s.len(),
{
    if s.len() == 0 {
        assert(s.filter(coarse).filter(fine) =~= s.filter(fine));
    } else {
        let front = s.drop_last();
        let m = s.last();
        assert forall|i: int| #![trigger front[i]] 0 <= i < front.len() && fine(front[i]) implies coarse(
            front[i],
        ) by {
            assert(front[i] == s[i]);
        }
        lemma_filter_twice(front, coarse, fine);
        assert(s =~= front.push(m));
        assert(s[s.len() - 1] == m);
        front.lemma_filter_push(m, coarse);
        front.lemma_filter_push(m, fine);
        if coarse(m) {
            front.filter(coarse).lemma_filter_push(m, fine);
        }
    }
}

/// A filter keeps a member as often as it was there, or not at all.
pub proof fn lemma_count_in_filter<T>(s: Seq<T>, p: spec_fn(T) -> bool, x: T)
    ensures
        s.filter(p).to_multiset().count(x) == if p(x) {
            s.to_multiset().count(x)
        } else {
            0
        },
    decreases s.len(),
{
    broadcast use vstd::seq_lib::group_to_multiset_ensures;

    if s.len() == 0 {
        assert(s.filter(p) =~= s);
        assert(s.to_multiset().count(x) == 0);
    } else {
        let front = s.drop_last();
        let m = s.last();
        lemma_count_in_filter(front, p, x);
        assert(s =~= front.push(m));
        front.lemma_filter_push(m, p);
        assert(front.push(m).to_multiset() =~= front.to_multiset().insert(m));
        if p(m) {
            assert(front.filter(p).push(m).to_multiset() =~= front.filter(p).to_multiset().insert(m));
        }
    }
}

/// What a filter keeps of the same members is the same.
pub proof fn lemma_filter_of_same_members<T>(a: Seq<T>, b: Seq<T>, p: spec_fn(T) -> bool)
    requires
        same_members(a, b),
    ensures
        same_members(a.filter(p), b.filter(p)),
        a.filter(p).len() == b.filter(p).len(),
{
    broadcast use vstd::seq_lib::group_to_multiset_ensures;

    assert forall|x: T| a.filter(p).to_multiset().count(x) == b.filter(p).to_multiset().count(x) by {
        lemma_count_in_filter(a, p, x);
        lemma_count_in_filter(b, p, x);
    }
    assert(a.filter(p).to_multiset() =~= b.filter(p).to_multiset());
    assert(a.filter(p).to_multiset().len() == a.filter(p).len());
    assert(b.filter(p).to_multiset().len() == b.filter(p).len());
}

/// What is in one of two sequences with the same members is in the other.
pub proof fn lemma_came_from<T>(a: Seq<T>, b: Seq<T>, i: int)
    requires
        a.to_multiset() == b.to_multiset(),
        0 <= i < a.len(),
    ensures
        b.contains(a[i]),
{
    broadcast use vstd::seq_lib::group_to_multiset_ensures;

    assert(a.contains(a[i]));
    assert(a.to_multiset().count(a[i]) > 0);
    assert(b.to_multiset().count(a[i]) > 0);
}

/// What is put in the place of members, one for one, is the same where the members are.
pub proof fn lemma_map_same_members<A, B>(a: Seq<A>, b: Seq<A>, f: spec_fn(A) -> B)
    requires
        same_members(a, b),
    ensures
        same_members(a.map_values(f), b.map_values(f)),
    decreases a.len(),
{
    broadcast use vstd::seq_lib::group_to_multiset_ensures;

    assert(a.len() == a.to_multiset().len());
    assert(b.len() == b.to_multiset().len());
    if a.len() == 0 {
        assert(a.map_values(f) =~= b.map_values(f));
    } else {
        let n = a.len() - 1;
        lemma_came_from(a, b, n);
        let i = choose|i: int| 0 <= i < b.len() && b[i] == a[n];
        assert(a.remove(n).to_multiset() == a.to_multiset().remove(a[n]));
        assert(b.remove(i).to_multiset() == b.to_multiset().remove(b[i]));
        lemma_map_same_members(a.remove(n), b.remove(i), f);
        let x = a.map_values(f);
        let y = b.map_values(f);
        assert(a.remove(n).map_values(f) =~= x.remove(n));
        assert(b.remove(i).map_values(f) =~= y.remove(i));
        vstd::seq_lib::to_multiset_remove(x, n);
        vstd::seq_lib::to_multiset_remove(y, i);
        assert(x.contains(x[n]));
        assert(y.contains(y[i]));
        assert(x.to_multiset() =~= x.remove(n).to_multiset().insert(x[n]));
        assert(y.to_multiset() =~= y.remove(i).to_multiset().insert(y[i]));
    }
}

/// What a filter keeps of the start of a sequence is the start of what it keeps, and a member that
/// it keeps comes next.
pub proof fn lemma_filter_of_start<T>(s: Seq<T>, p: spec_fn(T) -> bool, i: int)
    requires
        0 <= i < s.len(),
        p(s[i]),
    ensures
        ({
            let n = s.take(i).filter(p).len() as int;
            &&& n < s.filter(p).len()
            &&& s.filter(p).take(n) == s.take(i).filter(p)
            &&& s.filter(p)[n] == s[i]
        }),
{
    let front = s.take(i);
    let rest = s.skip(i + 1);
    front.lemma_filter_push(s[i], p);
    assert(s =~= front.push(s[i]) + rest);
    Seq::filter_distributes_over_add(front.push(s[i]), rest, p);
    let n = front.filter(p).len() as int;
    assert(s.filter(p).take(n) =~= front.filter(p));
}

/// A sequence with two members of a kind keeps at least two when it is cut down to that kind.
pub proof fn lemma_two_in_filter<T>(s: Seq<T>, p: spec_fn(T) -> bool, i: int, j: int)
    requires
        0 <= i < j < s.len(),
        p(s[i]),
        p(s[j]),
    ensures
        s.filter(p).len() >= 2,
    decreases s.len(),
{
    let front = s.drop_last();
    assert(s =~= front.push(s.last()));
    front.lemma_filter_push(s.last(), p);
    if j < front.len() {
        lemma_two_in_filter(front, p, i, j);
    } else {
        front.lemma_filter_contains(p, i);
        assert(front.filter(p).contains(front[i]));
    }
}

/// What a filter keeps was there, and is of its kind.
pub proof fn lemma_kept_was_there<T>(s: Seq<T>, p: spec_fn(T) -> bool, k: int)
    requires
        0 <= k < s.filter(p).len(),
    ensures
        s.contains(s.filter(p)[k]),
        p(s.filter(p)[k]),
{
    assert(s.filter(p).contains(s.filter(p)[k]));
    s.lemma_filter_contains_rev(p, s.filter(p)[k]);
    s.lemma_filter_pred(p, k);
}

} // verus!
