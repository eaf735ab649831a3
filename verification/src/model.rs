//! Mathematical model of the execution loop.
//!
//! An argument vector is modelled as a sequence of character sequences.
//! The loop consumes argument vectors in arrival order and acts on one
//! exactly when it differs from the vector it last acted on; these
//! functions say which vectors are acted on and in what order.

use vstd::prelude::*;

verus! {

/// The view of a sequence of strings: each element as its character sequence.
pub open spec fn strings_view(v: Seq<String>) -> Seq<Seq<char>> {
    v.map_values(|s: String| s@)
}

/// Appending a string to a sequence appends its view to the sequence's view.
pub proof fn lemma_strings_view_push(v: Seq<String>, s: String)
    ensures
        strings_view(v.push(s)) == strings_view(v).push(s@),
{
    assert forall|k: int| 0 <= k < v.len() + 1 implies #[trigger] strings_view(v.push(s))[k]
        == strings_view(v).push(s@)[k] by {
        if k < v.len() {
            assert(v.push(s)[k] == v[k]);
        } else {
            assert(v.push(s)[k] == s);
        }
    }
    assert(strings_view(v.push(s)) =~= strings_view(v).push(s@));
}

/// The argument vector the loop starts from, before any input arrives:
/// no extra arguments.
pub open spec fn init_args() -> Seq<Seq<char>> {
    Seq::empty()
}

/// The vector the loop has last acted on after consuming `inputs` in order,
/// starting from `last`: consuming a vector always leaves it as the point of
/// comparison for the next one, whether or not it was acted on.
pub open spec fn last_after(last: Seq<Seq<char>>, inputs: Seq<Seq<Seq<char>>>) -> Seq<Seq<char>> {
    if inputs.len() == 0 {
        last
    } else {
        inputs.last()
    }
}

/// The vectors the loop acts on while consuming `inputs` in order, starting
/// with `last` as the vector it last acted on: each input that equals its
/// predecessor (or `last`, for the first) is dropped, every other input is
/// kept, in arrival order.
pub open spec fn executed_after(last: Seq<Seq<char>>, inputs: Seq<Seq<Seq<char>>>) -> Seq<
    Seq<Seq<char>>,
>
    decreases inputs.len(),
{
    if inputs.len() == 0 {
        Seq::empty()
    } else if inputs[0] == last {
        executed_after(last, inputs.drop_first())
    } else {
        seq![inputs[0]] + executed_after(inputs[0], inputs.drop_first())
    }
}

/// Consuming a single vector acts on it exactly when it differs from the
/// vector last acted on.
pub proof fn lemma_executed_single(last: Seq<Seq<char>>, v: Seq<Seq<char>>)
    ensures
        executed_after(last, seq![v]) == if v == last {
            Seq::<Seq<Seq<char>>>::empty()
        } else {
            seq![v]
        },
{
    assert(seq![v].drop_first() =~= Seq::<Seq<Seq<char>>>::empty());
    assert(executed_after(last, Seq::<Seq<Seq<char>>>::empty()) == Seq::<Seq<Seq<char>>>::empty());
    assert(executed_after(v, Seq::<Seq<Seq<char>>>::empty()) == Seq::<Seq<Seq<char>>>::empty());
    if v == last {
    } else {
        assert(seq![v] + Seq::<Seq<Seq<char>>>::empty() =~= seq![v]);
    }
}

/// Consuming `a` and then `b` acts on exactly the vectors acted on for `a`,
/// in their order, followed by those acted on for `b`: work for inputs
/// enqueued earlier is never reordered after work for later ones.
pub proof fn lemma_executed_in_order(
    last: Seq<Seq<char>>,
    a: Seq<Seq<Seq<char>>>,
    b: Seq<Seq<Seq<char>>>,
)
    ensures
        executed_after(last, a + b) == executed_after(last, a) + executed_after(
            last_after(last, a),
            b,
        ),
    decreases a.len(),
{
    if a.len() == 0 {
        assert(a + b =~= b);
        assert(executed_after(last, a) + executed_after(last_after(last, a), b) =~= executed_after(
            last,
            b,
        ));
    } else {
        assert((a + b).drop_first() =~= a.drop_first() + b);
        if a[0] == last {
            lemma_executed_in_order(last, a.drop_first(), b);
            assert(last_after(last, a) =~= last_after(last, a.drop_first()));
        } else {
            lemma_executed_in_order(a[0], a.drop_first(), b);
            assert(last_after(last, a) =~= last_after(a[0], a.drop_first()));
            assert(executed_after(last, a + b) =~= executed_after(last, a) + executed_after(
                last_after(last, a),
                b,
            ));
        }
    }
}

/// A vector equal to its immediate predecessor is never acted on: consuming
/// the first `i + 1` inputs acts on exactly the vectors that consuming the
/// first `i` does, whenever input `i` repeats input `i - 1` (or repeats the
/// starting vector, when it is the first input).
pub proof fn lemma_duplicate_not_executed(
    last: Seq<Seq<char>>,
    inputs: Seq<Seq<Seq<char>>>,
    i: int,
)
    requires
        0 <= i < inputs.len(),
        inputs[i] == if i == 0 {
            last
        } else {
            inputs[i - 1]
        },
    ensures
        executed_after(last, inputs.take(i + 1)) == executed_after(last, inputs.take(i)),
{
    let a = inputs.take(i);
    assert(inputs.take(i + 1) =~= a + seq![inputs[i]]);
    lemma_executed_in_order(last, a, seq![inputs[i]]);
    assert(last_after(last, a) == inputs[i]) by {
        if i == 0 {
        } else {
            assert(a.last() == inputs[i - 1]);
        }
    }
    lemma_executed_single(inputs[i], inputs[i]);
    assert(executed_after(last, a) + Seq::<Seq<Seq<char>>>::empty() =~= executed_after(last, a));
}

} // verus!
