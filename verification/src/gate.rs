//! The rule by which a filter lets through what is not alone: the first message with a key is
//! held back until a second one with that key comes; from there on every message with the key
//! passes.

use crate::seqs::lemma_filter_twice;
use vstd::prelude::*;

verus! {

/// What passes when a message comes: nothing, if it is the first with its key; the message that
/// was held back and the new one, if it is the second; the new one, if it is a later one.
pub open spec fn gate_out<K, M>(seen: Map<K, Option<M>>, key: K, message: M) -> Seq<M> {
    if !seen.contains_key(key) {
        seq![]
    } else {
        match seen[key] {
            Some(first) => seq![first, message],
            None => seq![message],
        }
    }
}

/// What is known of the keys after a message has come: the message that is held back under its
/// key, or that nothing is held back under it any more.
pub open spec fn gate_next<K, M>(seen: Map<K, Option<M>>, key: K, message: M) -> Map<
    K,
    Option<M>,
> {
    if seen.contains_key(key) {
        seen.insert(key, None)
    } else {
        seen.insert(key, Some(message))
    }
}

/// What is known of the keys after all messages of `input` have come, from none known.
pub open spec fn gate_state<K, M>(key: spec_fn(M) -> K, input: Seq<M>) -> Map<K, Option<M>>
    decreases input.len(),
{
    if input.len() == 0 {
        Map::empty()
    } else {
        gate_next(gate_state(key, input.drop_last()), key(input.last()), input.last())
    }
}

/// All that passes while the messages of `input` come, from no key known.
pub open spec fn gate_run<K, M>(key: spec_fn(M) -> K, input: Seq<M>) -> Seq<M>
    decreases input.len(),
{
    if input.len() == 0 {
        seq![]
    } else {
        gate_run(key, input.drop_last()) + gate_out(
            gate_state(key, input.drop_last()),
            key(input.last()),
            input.last(),
        )
    }
}

/// The messages with a key, in order.
pub open spec fn with_key<K, M>(key: spec_fn(M) -> K, input: Seq<M>, k: K) -> Seq<M> {
    input.filter(has_key(key, k))
}

/// Whether a message has a key.
pub open spec fn has_key<K, M>(key: spec_fn(M) -> K, k: K) -> spec_fn(M) -> bool {
    |m: M| key(m) == k
}

/// Of every key, the messages that pass are those that came, in the order in which they came, if
/// there were at least two; otherwise none passes.
pub proof fn lemma_gate_passes_what_is_not_alone<K, M>(
    key: spec_fn(M) -> K,
    input: Seq<M>,
    k: K,
)
    ensures
        with_key(key, gate_run(key, input), k) == if with_key(key, input, k).len() >= 2 {
            with_key(key, input, k)
        } else {
            Seq::empty()
        },
{
    lemma_gate(key, input, k);
}

proof fn lemma_gate<K, M>(key: spec_fn(M) -> K, input: Seq<M>, k: K)
    ensures
        ({
            let came = with_key(key, input, k);
            let state = gate_state(key, input);
            &&& state.contains_key(k) <==> came.len() > 0
            &&& came.len() == 1 ==> state[k] == Some(came[0])
            &&& came.len() > 1 ==> state[k] is None
            &&& with_key(key, gate_run(key, input), k) == if came.len() >= 2 {
                came
            } else {
                Seq::empty()
            }
        }),
    decreases input.len(),
{
    let same = has_key(key, k);
    if input.len() == 0 {
        assert(input.filter(same) =~= Seq::empty());
        assert(gate_run(key, input).filter(same) =~= Seq::empty());
    } else {
        let front = input.drop_last();
        let m = input.last();
        lemma_gate(key, front, k);
        lemma_gate_held_key(key, front, key(m));
        let state = gate_state(key, front);
        let out = gate_out(state, key(m), m);
        lemma_gate_out(key, state, m, k);
        assert(input =~= front.push(m));
        front.lemma_filter_push(m, same);
        Seq::filter_distributes_over_add(gate_run(key, front), out, same);
        assert(with_key(key, gate_run(key, input), k) == with_key(key, gate_run(key, front), k)
            + out.filter(same));
        let before = with_key(key, front, k);
        let came = with_key(key, input, k);
        let passed = with_key(key, gate_run(key, front), k);
        assert(gate_state(key, input) == gate_next(state, key(m), m));
        if key(m) == k {
            assert(came == before.push(m));
            if before.len() == 0 {
                assert(passed + out.filter(same) =~= Seq::empty());
            } else if before.len() == 1 {
                assert(before =~= seq![before[0]]);
                assert(passed + out.filter(same) =~= came);
            } else {
                assert(passed + out.filter(same) =~= came);
            }
        } else {
            assert(came == before);
            assert(passed + out.filter(same) =~= passed);
        }
    }
}

/// What of a key passes when one message comes.
proof fn lemma_gate_out<K, M>(key: spec_fn(M) -> K, state: Map<K, Option<M>>, m: M, k: K)
    requires
        state.contains_key(key(m)) && state[key(m)] is Some ==> key(state[key(m)]->0) == key(m),
    ensures
        gate_out(state, key(m), m).filter(has_key(key, k)) == if key(m) == k {
            gate_out(state, key(m), m)
        } else {
            Seq::empty()
        },
{
    let same = has_key(key, k);
    let none = Seq::<M>::empty();
    assert(none.filter(same) =~= none);
    if state.contains_key(key(m)) {
        match state[key(m)] {
            Some(first) => {
                assert(seq![first, m] =~= none.push(first).push(m));
                none.lemma_filter_push(first, same);
                none.push(first).lemma_filter_push(m, same);
            },
            None => {
                assert(seq![m] =~= none.push(m));
                none.lemma_filter_push(m, same);
            },
        }
    }
}

/// A message is held back under its own key.
proof fn lemma_gate_held_key<K, M>(key: spec_fn(M) -> K, input: Seq<M>, k: K)
    ensures
        ({
            let state = gate_state(key, input);
            state.contains_key(k) && state[k] is Some ==> key(state[k]->0) == k
        }),
    decreases input.len(),
{
    if input.len() > 0 {
        let front = gate_state(key, input.drop_last());
        let m = input.last();
        lemma_gate_held_key(key, input.drop_last(), k);
        assert(gate_state(key, input) == gate_next(front, key(m), m));
        if key(m) != k {
            assert(gate_state(key, input).contains_key(k) == front.contains_key(k));
        }
    }
}

/// A gate in front of another one, with a coarser key, takes away nothing that the other would
/// let through: whatever is not alone by the finer key passes both, as it would pass the finer
/// one by itself.
pub proof fn lemma_coarser_gate_loses_nothing<J, K, M>(
    coarse: spec_fn(M) -> J,
    fine: spec_fn(M) -> K,
    input: Seq<M>,
    k: K,
)
    requires
        forall|a: M, b: M| #[trigger] fine(a) == #[trigger] fine(b) ==> coarse(a) == coarse(b),
    ensures
        with_key(fine, gate_run(fine, gate_run(coarse, input)), k) == with_key(
            fine,
            gate_run(fine, input),
            k,
        ),
{
    let passed = gate_run(coarse, input);
    let is_fine = has_key(fine, k);
    lemma_gate(fine, passed, k);
    lemma_gate(fine, input, k);
    if with_key(fine, input, k).len() == 0 {
        if with_key(fine, passed, k).len() > 0 {
            let m = with_key(fine, passed, k)[0];
            passed.lemma_filter_pred(is_fine, 0);
            lemma_same_by_key(coarse, fine, input, k, m);
            assert(false);
        }
        assert(with_key(fine, passed, k) =~= Seq::empty());
    } else {
        let m = with_key(fine, input, k)[0];
        input.lemma_filter_pred(is_fine, 0);
        lemma_same_by_key(coarse, fine, input, k, m);
    }
}

proof fn lemma_same_by_key<J, K, M>(
    coarse: spec_fn(M) -> J,
    fine: spec_fn(M) -> K,
    input: Seq<M>,
    k: K,
    m: M,
)
    requires
        forall|a: M, b: M| #[trigger] fine(a) == #[trigger] fine(b) ==> coarse(a) == coarse(b),
        fine(m) == k,
    ensures
        with_key(fine, gate_run(coarse, input), k) == if with_key(coarse, input, coarse(m)).len()
            >= 2 {
            with_key(fine, input, k)
        } else {
            Seq::empty()
        },
        with_key(coarse, input, coarse(m)).len() >= with_key(fine, input, k).len(),
{
    let passed = gate_run(coarse, input);
    let is_coarse = has_key(coarse, coarse(m));
    let is_fine = has_key(fine, k);
    assert forall|x: M| #[trigger] is_fine(x) implies is_coarse(x) by {
        assert(fine(x) == fine(m));
    }
    lemma_gate(coarse, input, coarse(m));
    lemma_filter_twice(passed, is_coarse, is_fine);
    lemma_filter_twice(input, is_coarse, is_fine);
    input.filter(is_coarse).lemma_filter_len(is_fine);
    assert(Seq::<M>::empty().filter(is_fine) =~= Seq::empty());
}

/// A gate whose key is the same for twins lets all twins pass. `twin` tells what makes messages
/// twins.
pub proof fn lemma_gate_keeps_twins<J, K, M>(
    key: spec_fn(M) -> J,
    twin: spec_fn(M) -> K,
    input: Seq<M>,
    k: K,
)
    requires
        forall|a: M, b: M| twin(a) == twin(b) ==> #[trigger] key(a) == #[trigger] key(b),
        with_key(twin, input, k).len() >= 2,
    ensures
        with_key(twin, gate_run(key, input), k) == with_key(twin, input, k),
{
    let is_twin = has_key(twin, k);
    let m = with_key(twin, input, k)[0];
    input.lemma_filter_pred(is_twin, 0);
    lemma_same_by_key(key, twin, input, k, m);
}

/// Whether messages and what they stand for go together, one by one.
pub open spec fn go_together<M, R>(
    stands_for: spec_fn(M, R) -> bool,
    messages: Seq<M>,
    things: Seq<R>,
) -> bool {
    &&& messages.len() == things.len()
    &&& forall|i: int|
        #![trigger messages[i]]
        #![trigger things[i]]
        0 <= i < messages.len() ==> stands_for(messages[i], things[i])
}

/// Whether the key of messages tells them apart as the key of what they stand for does.
pub open spec fn keys_agree<J, K, M, R>(
    stands_for: spec_fn(M, R) -> bool,
    key: spec_fn(M) -> J,
    thing_key: spec_fn(R) -> K,
) -> bool {
    forall|a: M, b: M, x: R, y: R|
        #![trigger stands_for(a, x), stands_for(b, y)]
        stands_for(a, x) && stands_for(b, y) ==> (key(a) == key(b) <==> thing_key(x) == thing_key(
            y,
        ))
}

/// A gate treats messages as it treats what they stand for: what passes of the messages stands for
/// what passes of the things, in the same order.
pub proof fn lemma_gate_follows_things<J, K, M, R>(
    stands_for: spec_fn(M, R) -> bool,
    key: spec_fn(M) -> J,
    thing_key: spec_fn(R) -> K,
    messages: Seq<M>,
    things: Seq<R>,
)
    requires
        go_together(stands_for, messages, things),
        keys_agree(stands_for, key, thing_key),
    ensures
        go_together(stands_for, gate_run(key, messages), gate_run(thing_key, things)),
    decreases messages.len(),
{
    if messages.len() > 0 {
        let front = messages.drop_last();
        let rest = things.drop_last();
        let m = messages.last();
        let t = things.last();
        assert(stands_for(messages[messages.len() - 1], things[things.len() - 1]));
        assert(go_together(stands_for, front, rest)) by {
            assert forall|i: int|
                #![trigger front[i]]
                #![trigger rest[i]]
                0 <= i < front.len() implies stands_for(front[i], rest[i]) by {
                assert(stands_for(messages[i], things[i]));
            }
        }
        lemma_gate_follows_things(stands_for, key, thing_key, front, rest);
        lemma_states_agree(stands_for, key, thing_key, front, rest, m, t);
        let out = gate_out(gate_state(key, front), key(m), m);
        let thing_out = gate_out(gate_state(thing_key, rest), thing_key(t), t);
        assert(go_together(stands_for, out, thing_out));
        let a = gate_run(key, front);
        let b = gate_run(thing_key, rest);
        assert(gate_run(key, messages) == a + out);
        assert(gate_run(thing_key, things) == b + thing_out);
        assert forall|i: int|
            #![trigger (a + out)[i]]
            #![trigger (b + thing_out)[i]]
            0 <= i < (a + out).len() implies stands_for((a + out)[i], (b + thing_out)[i]) by {
            if i < a.len() {
                assert(stands_for(a[i], b[i]));
            } else {
                assert(stands_for(out[i - a.len()], thing_out[i - a.len()]));
            }
        }
    }
}

/// What is known of the key of a message agrees with what is known of the key of the thing that it
/// stands for.
proof fn lemma_states_agree<J, K, M, R>(
    stands_for: spec_fn(M, R) -> bool,
    key: spec_fn(M) -> J,
    thing_key: spec_fn(R) -> K,
    messages: Seq<M>,
    things: Seq<R>,
    m: M,
    t: R,
)
    requires
        go_together(stands_for, messages, things),
        keys_agree(stands_for, key, thing_key),
        stands_for(m, t),
    ensures
        ({
            let state = gate_state(key, messages);
            let thing_state = gate_state(thing_key, things);
            &&& state.contains_key(key(m)) <==> thing_state.contains_key(thing_key(t))
            &&& state.contains_key(key(m)) ==> (state[key(m)] is Some
                <==> thing_state[thing_key(t)] is Some)
            &&& state.contains_key(key(m)) && state[key(m)] is Some ==> stands_for(
                state[key(m)]->0,
                thing_state[thing_key(t)]->0,
            )
        }),
    decreases messages.len(),
{
    if messages.len() > 0 {
        let front = messages.drop_last();
        let rest = things.drop_last();
        let last = messages.last();
        let last_thing = things.last();
        assert(stands_for(messages[messages.len() - 1], things[things.len() - 1]));
        assert(go_together(stands_for, front, rest)) by {
            assert forall|i: int|
                #![trigger front[i]]
                #![trigger rest[i]]
                0 <= i < front.len() implies stands_for(front[i], rest[i]) by {
                assert(stands_for(messages[i], things[i]));
            }
        }
        lemma_states_agree(stands_for, key, thing_key, front, rest, m, t);
        lemma_states_agree(stands_for, key, thing_key, front, rest, last, last_thing);
        let state = gate_state(key, front);
        let thing_state = gate_state(thing_key, rest);
        assert(gate_state(key, messages) == gate_next(state, key(last), last));
        assert(gate_state(thing_key, things) == gate_next(
            thing_state,
            thing_key(last_thing),
            last_thing,
        ));
        assert(key(m) == key(last) <==> thing_key(t) == thing_key(last_thing));
    }
}

} // verus!
