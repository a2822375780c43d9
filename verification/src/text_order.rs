//! The order of texts, and lists in the order of the texts that their entries stand under.

use crate::bytes::{
    bytes_less, comes_before, lemma_bytes_less_total, lemma_bytes_less_transitive,
};
use crate::seqs::lemma_came_from;
use vstd::prelude::*;
use vstd::string::*;
use vstd::utf8::{encode_utf8, encode_utf8_decode_utf8};

verus! {

/// Whether `a` comes before `b`: texts are ordered as the bytes that encode them.
pub open spec fn text_less(a: Seq<char>, b: Seq<char>) -> bool {
    bytes_less(encode_utf8(a), encode_utf8(b))
}

/// Of two different texts one comes first, and no text comes before itself.
pub proof fn lemma_text_less_total(a: Seq<char>, b: Seq<char>)
    ensures
        !(text_less(a, b) && text_less(b, a)),
        a == b ==> !text_less(a, b),
        a == b || text_less(a, b) || text_less(b, a),
{
    lemma_bytes_less_total(encode_utf8(a), encode_utf8(b));
    encode_utf8_decode_utf8(a);
    encode_utf8_decode_utf8(b);
}

/// Whether two texts stand in a direction: ascending or descending.
pub open spec fn stands_before(a: Seq<char>, b: Seq<char>, ascending: bool) -> bool {
    if ascending {
        text_less(a, b)
    } else {
        text_less(b, a)
    }
}

/// Whether entries stand in a direction, by the texts that they stand under.
pub open spec fn in_direction<T>(entries: Seq<(String, T)>, ascending: bool) -> bool {
    forall|i: int, j: int|
        0 <= i < j < entries.len() ==> stands_before(
            (#[trigger] entries[i]).0@,
            (#[trigger] entries[j]).0@,
            ascending,
        )
}

/// Whether entries stand in the order of their texts, no two under the same.
pub open spec fn in_text_order<T>(entries: Seq<(String, T)>) -> bool {
    in_direction(entries, true)
}

/// Whether no two entries stand under the same text.
pub open spec fn texts_differ<T>(entries: Seq<(String, T)>) -> bool {
    forall|i: int, j: int|
        0 <= i < j < entries.len() ==> (#[trigger] entries[i]).0@ != (#[trigger] entries[j]).0@
}

/// Whether all entries of `a` stand before all entries of `b`.
spec fn all_before<T>(a: Seq<(String, T)>, b: Seq<(String, T)>, ascending: bool) -> bool {
    forall|i: int, j: int|
        0 <= i < a.len() && 0 <= j < b.len() ==> stands_before(
            (#[trigger] a[i]).0@,
            (#[trigger] b[j]).0@,
            ascending,
        )
}

/// Whether no entry of `a` stands under the text of an entry of `b`.
spec fn apart<T>(a: Seq<(String, T)>, b: Seq<(String, T)>) -> bool {
    forall|i: int, j: int|
        0 <= i < a.len() && 0 <= j < b.len() ==> (#[trigger] a[i]).0@ != (#[trigger] b[j]).0@
}

/// Takes the last entry of `from`, which stands before all that are left, over to `to`.
fn take_last<T>(
    from: &mut Vec<(String, T)>,
    to: &mut Vec<(String, T)>,
    other: &Vec<(String, T)>,
    ascending: bool,
)
    requires
        old(from)@.len() > 0,
        in_direction(old(from)@, !ascending),
        in_direction(old(to)@, ascending),
        all_before(old(to)@, old(from)@, ascending),
        all_before(old(to)@, other@, ascending),
        forall|j: int|
            0 <= j < other@.len() ==> stands_before(
                old(from)@.last().0@,
                (#[trigger] other@[j]).0@,
                ascending,
            ),
    ensures
        final(from)@ == old(from)@.drop_last(),
        final(to)@ == old(to)@.push(old(from)@.last()),
        in_direction(final(from)@, !ascending),
        in_direction(final(to)@, ascending),
        all_before(final(to)@, final(from)@, ascending),
        all_before(final(to)@, other@, ascending),
{
    let ghost entries = from@;
    let ghost before = to@;
    match from.pop() {
        Some(entry) => {
            to.push(entry);
        },
        None => {},
    }
    assert(to@ == before.push(entries.last()));
    assert forall|i: int, j: int| 0 <= i < j < to@.len() implies stands_before(
        (#[trigger] to@[i]).0@,
        (#[trigger] to@[j]).0@,
        ascending,
    ) by {
        if j == before.len() {
            assert(entries[entries.len() - 1] == to@[j]);
            assert(before[i] == to@[i]);
        }
    }
    assert forall|i: int, j: int| 0 <= i < to@.len() && 0 <= j < from@.len() implies stands_before(
        (#[trigger] to@[i]).0@,
        (#[trigger] from@[j]).0@,
        ascending,
    ) by {
        assert(from@[j] == entries[j]);
        if i == before.len() {
            assert(entries[entries.len() - 1] == to@[i]);
        } else {
            assert(before[i] == to@[i]);
        }
    }
}

/// Merges two lists that stand in the other direction.
fn merge<T>(
    left: Vec<(String, T)>,
    right: Vec<(String, T)>,
    ascending: bool,
) -> (merged: Vec<(String, T)>)
    requires
        in_direction(left@, !ascending),
        in_direction(right@, !ascending),
        apart(left@, right@),
    ensures
        in_direction(merged@, ascending),
        merged@.to_multiset() == left@.to_multiset().add(right@.to_multiset()),
{
    broadcast use vstd::seq_lib::group_to_multiset_ensures;

    let mut a = left;
    let mut b = right;
    let mut merged: Vec<(String, T)> = Vec::new();
    let ghost all = a@.to_multiset().add(b@.to_multiset());
    assert(merged@.to_multiset().add(a@.to_multiset()).add(b@.to_multiset()) =~= all);
    while a.len() > 0 || b.len() > 0
        invariant
            in_direction(a@, !ascending),
            in_direction(b@, !ascending),
            apart(a@, b@),
            in_direction(merged@, ascending),
            all_before(merged@, a@, ascending),
            all_before(merged@, b@, ascending),
            merged@.to_multiset().add(a@.to_multiset()).add(b@.to_multiset()) == all,
        decreases a@.len() + b@.len(),
    {
        let from_left = if a.len() == 0 {
            false
        } else if b.len() == 0 {
            true
        } else {
            let x = a[a.len() - 1].0.as_str().as_bytes();
            let y = b[b.len() - 1].0.as_str().as_bytes();
            if ascending {
                comes_before(x, y)
            } else {
                comes_before(y, x)
            }
        };
        let ghost a0 = a@;
        let ghost b0 = b@;
        let ghost m0 = merged@;
        proof {
            if a0.len() > 0 && b0.len() > 0 {
                lemma_lasts(a0, b0, ascending);
            }
            if a0.len() > 0 {
                assert(a0 =~= a0.drop_last().push(a0.last()));
            }
            if b0.len() > 0 {
                assert(b0 =~= b0.drop_last().push(b0.last()));
            }
        }
        if from_left {
            take_last(&mut a, &mut merged, &b, ascending);
            proof {
                vstd::seq_lib::to_multiset_build(a@, a0.last());
                vstd::seq_lib::to_multiset_build(m0, a0.last());
            }
            assert(a0.to_multiset() =~= a@.to_multiset().insert(a0.last()));
            assert(merged@.to_multiset() =~= m0.to_multiset().insert(a0.last()));
            assert(forall|i: int| 0 <= i < a@.len() ==> #[trigger] a@[i] == a0[i]);
        } else {
            take_last(&mut b, &mut merged, &a, ascending);
            proof {
                vstd::seq_lib::to_multiset_build(b@, b0.last());
                vstd::seq_lib::to_multiset_build(m0, b0.last());
            }
            assert(b0.to_multiset() =~= b@.to_multiset().insert(b0.last()));
            assert(merged@.to_multiset() =~= m0.to_multiset().insert(b0.last()));
            assert(forall|i: int| 0 <= i < b@.len() ==> #[trigger] b@[i] == b0[i]);
        }
        assert(merged@.to_multiset().add(a@.to_multiset()).add(b@.to_multiset()) =~= all);
    }
    assert(a@ =~= seq![]);
    assert(b@ =~= seq![]);
    assert(merged@.to_multiset() =~= all);
    merged
}

/// Of the last entries of two lists, the one that stands first stands before the whole of the
/// other list.
proof fn lemma_lasts<T>(a: Seq<(String, T)>, b: Seq<(String, T)>, ascending: bool)
    requires
        a.len() > 0,
        b.len() > 0,
        in_direction(a, !ascending),
        in_direction(b, !ascending),
        apart(a, b),
    ensures
        stands_before(a.last().0@, b.last().0@, ascending) ==> forall|j: int|
            0 <= j < b.len() ==> stands_before(a.last().0@, (#[trigger] b[j]).0@, ascending),
        !stands_before(a.last().0@, b.last().0@, ascending) ==> forall|j: int|
            0 <= j < a.len() ==> stands_before(b.last().0@, (#[trigger] a[j]).0@, ascending),
{
    let x = a[a.len() - 1];
    let y = b[b.len() - 1];
    lemma_text_less_total(x.0@, y.0@);
    if stands_before(x.0@, y.0@, ascending) {
        assert forall|j: int| 0 <= j < b.len() implies stands_before(
            x.0@,
            (#[trigger] b[j]).0@,
            ascending,
        ) by {
            if j < b.len() - 1 {
                lemma_stands_before_transitive(x.0@, y.0@, b[j].0@, ascending);
            }
        }
    } else {
        assert(stands_before(y.0@, x.0@, ascending));
        assert forall|j: int| 0 <= j < a.len() implies stands_before(
            y.0@,
            (#[trigger] a[j]).0@,
            ascending,
        ) by {
            if j < a.len() - 1 {
                lemma_stands_before_transitive(y.0@, x.0@, a[j].0@, ascending);
            }
        }
    }
}

proof fn lemma_stands_before_transitive(a: Seq<char>, b: Seq<char>, c: Seq<char>, ascending: bool)
    requires
        stands_before(a, b, ascending),
        stands_before(b, c, ascending),
    ensures
        stands_before(a, c, ascending),
{
    if ascending {
        lemma_bytes_less_transitive(encode_utf8(a), encode_utf8(b), encode_utf8(c));
    } else {
        lemma_bytes_less_transitive(encode_utf8(c), encode_utf8(b), encode_utf8(a));
    }
}

/// Sorts entries in a direction, by merging halves that are sorted in the other.
fn sort_in_direction<T>(entries: Vec<(String, T)>, ascending: bool) -> (sorted: Vec<(String, T)>)
    requires
        texts_differ(entries@),
    ensures
        in_direction(sorted@, ascending),
        sorted@.to_multiset() == entries@.to_multiset(),
    decreases entries@.len(),
{
    broadcast use vstd::seq_lib::group_to_multiset_ensures;

    let count: usize = entries.len();
    if count < 2 {
        return entries;
    }
    let ghost all = entries@;
    let mut left = entries;
    let right = left.split_off(count / 2);
    assert(all =~= left@ + right@);
    let ghost l = left@;
    let ghost r = right@;
    proof {
        vstd::seq_lib::lemma_multiset_commutative(l, r);
        assert(forall|i: int| 0 <= i < r.len() ==> #[trigger] r[i] == all[l.len() + i]);
        assert(forall|i: int| 0 <= i < l.len() ==> #[trigger] l[i] == all[i]);
    }
    let a = sort_in_direction(left, !ascending);
    let b = sort_in_direction(right, !ascending);
    proof {
        assert forall|i: int, j: int| 0 <= i < a@.len() && 0 <= j < b@.len() implies (
        #[trigger] a@[i]).0@ != (#[trigger] b@[j]).0@ by {
            lemma_came_from(a@, l, i);
            lemma_came_from(b@, r, j);
            let x = choose|x: int| 0 <= x < l.len() && l[x] == a@[i];
            let y = choose|y: int| 0 <= y < r.len() && r[y] == b@[j];
            assert(all[x] == l[x]);
            assert(all[l.len() + y] == r[y]);
        }
    }
    merge(a, b, ascending)
}

/// Puts entries into the order of the texts that they stand under.
pub fn sort_entries<T>(entries: Vec<(String, T)>) -> (sorted: Vec<(String, T)>)
    requires
        texts_differ(entries@),
    ensures
        in_text_order(sorted@),
        sorted@.to_multiset() == entries@.to_multiset(),
        forall|i: int, j: int|
            0 <= i < j < sorted@.len() ==> bytes_less(
                encode_utf8((#[trigger] sorted@[i]).0@),
                encode_utf8((#[trigger] sorted@[j]).0@),
            ),
{
    sort_in_direction(entries, true)
}

/// No two entries of a list in order stand under the same text, so that the list is an object whose
/// keys are these texts.
pub proof fn lemma_texts_in_order_differ<T>(entries: Seq<(String, T)>)
    requires
        in_text_order(entries),
    ensures
        texts_differ(entries),
{
    assert forall|i: int, j: int| 0 <= i < j < entries.len() implies (#[trigger] entries[i]).0@ != (
    #[trigger] entries[j]).0@ by {
        lemma_text_less_total(entries[i].0@, entries[j].0@);
    }
}

/// Entries are in order exactly if of any two the first has the smaller text, by the bytes that
/// encode it.
pub proof fn lemma_order_is_that_of_the_bytes<T>(entries: Seq<(String, T)>)
    ensures
        in_text_order(entries) <==> forall|i: int, j: int|
            0 <= i < j < entries.len() ==> bytes_less(
                encode_utf8((#[trigger] entries[i]).0@),
                encode_utf8((#[trigger] entries[j]).0@),
            ),
{
    if forall|i: int, j: int|
        0 <= i < j < entries.len() ==> bytes_less(
            encode_utf8((#[trigger] entries[i]).0@),
            encode_utf8((#[trigger] entries[j]).0@),
        ) {
        assert forall|i: int, j: int| 0 <= i < j < entries.len() implies stands_before(
            (#[trigger] entries[i]).0@,
            (#[trigger] entries[j]).0@,
            true,
        ) by {}
    }
}

} // verus!
