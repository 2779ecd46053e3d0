//! Total stopping time of the Collatz map.
//!
//! The map halves an even number and sends an odd `n` to `3n + 1`. Whether every
//! number reaches 1 under it is open, so the functions here are specified on the
//! numbers that do, and count the steps that this takes.

use vstd::prelude::*;

verus! {

/// One application of the Collatz map.
pub open spec fn collatz_step(n: nat) -> nat {
    if n % 2 == 0 {
        n / 2
    } else {
        3 * n + 1
    }
}

/// Starting from `n`, the map reaches 1 for the first time after exactly `i`
/// steps, and every number on the way fits a machine word.
pub open spec fn reaches_one(n: nat, i: nat) -> bool
    decreases i,
{
    if n == 1 {
        i == 0
    } else {
        i > 0 && n <= usize::MAX && collatz_step(n) <= usize::MAX && reaches_one(
            collatz_step(n),
            (i - 1) as nat,
        )
    }
}

/// Starting from `n`, the map reaches 1 within machine words.
pub open spec fn halts(n: nat) -> bool {
    exists|i: nat| reaches_one(n, i)
}

/// The number of steps after which `n` reaches 1 for the first time.
pub open spec fn stopping_time(n: nat) -> nat {
    choose|i: nat| reaches_one(n, i)
}

/// The number that `n` has become after `k` steps.
pub open spec fn iterate(n: nat, k: nat) -> nat
    decreases k,
{
    if k == 0 {
        n
    } else {
        iterate(collatz_step(n), (k - 1) as nat)
    }
}

/// Zero stays zero and never arrives at 1.
pub proof fn lemma_zero_never_arrives(i: nat)
    ensures
        !reaches_one(0, i),
    decreases i,
{
    if i > 0 {
        lemma_zero_never_arrives((i - 1) as nat);
    }
}

/// On its way to 1 a number passes through numbers from 2 up that fit a machine
/// word, and each of them has the rest of the way before it.
pub proof fn lemma_on_the_way(n: nat, i: nat, k: nat)
    requires
        reaches_one(n, i),
        k < i,
    ensures
        reaches_one(iterate(n, k), (i - k) as nat),
        2 <= iterate(n, k) <= usize::MAX,
    decreases k,
{
    if k == 0 {
        lemma_zero_never_arrives(i);
    } else {
        lemma_on_the_way(collatz_step(n), (i - 1) as nat, (k - 1) as nat);
    }
}

/// A way to 1 within machine words passes through no number twice, so it has
/// fewer steps than there are machine words.
pub proof fn lemma_steps_fit(n: nat, i: nat)
    requires
        reaches_one(n, i),
    ensures
        i < usize::MAX,
{
    let steps = vstd::set_lib::set_int_range(0, i as int);
    let passed = |k: int| iterate(n, k as nat) as int;
    let values = steps.map(passed);
    let words = vstd::set_lib::set_int_range(2, usize::MAX + 1);
    vstd::set_lib::lemma_int_range(0, i as int);
    vstd::set_lib::lemma_int_range(2, usize::MAX + 1);
    assert forall|a: int, b: int|
        steps.contains(a) && steps.contains(b) && #[trigger] passed(a) == #[trigger] passed(
            b,
        ) implies a == b by {
        lemma_on_the_way(n, i, a as nat);
        lemma_on_the_way(n, i, b as nat);
        lemma_reaches_one_unique(iterate(n, a as nat), (i - a) as nat, (i - b) as nat);
    }
    assert(vstd::relations::injective_on(passed, steps));
    vstd::set_lib::lemma_map_size(steps, values, passed);
    assert forall|v: int| values.contains(v) implies words.contains(v) by {
        let k = choose|k: int| steps.contains(k) && passed(k) == v;
        lemma_on_the_way(n, i, k as nat);
    }
    vstd::set_lib::lemma_len_subset(values, words);
}

/// The first arrival at 1 happens after one number of steps only.
pub proof fn lemma_reaches_one_unique(n: nat, i: nat, j: nat)
    requires
        reaches_one(n, i),
        reaches_one(n, j),
    ensures
        i == j,
    decreases i,
{
    if n != 1 {
        lemma_reaches_one_unique(collatz_step(n), (i - 1) as nat, (j - 1) as nat);
    }
}

/// A number other than 1 that halts takes one step more than its successor,
/// which halts as well.
pub proof fn lemma_halts_step(n: nat)
    requires
        halts(n),
        n != 1,
    ensures
        halts(collatz_step(n)),
        collatz_step(n) <= usize::MAX,
        stopping_time(n) == stopping_time(collatz_step(n)) + 1,
        stopping_time(n) < usize::MAX,
        reaches_one(n, stopping_time(n)),
{
    let i = stopping_time(n);
    lemma_steps_fit(n, i);
    assert(reaches_one(collatz_step(n), (i - 1) as nat));
    let j = stopping_time(collatz_step(n));
    lemma_reaches_one_unique(collatz_step(n), (i - 1) as nat, j);
}

/// The number 1 has arrived before its first step.
pub proof fn lemma_one_has_stopped()
    ensures
        halts(1),
        stopping_time(1) == 0,
{
    assert(reaches_one(1, 0));
    lemma_reaches_one_unique(1, 0, stopping_time(1));
}

/// Counts the steps from `n` to 1, recursively.
pub fn collatz_recursive(n: usize) -> (steps: usize)
    requires
        halts(n as nat),
    ensures
        reaches_one(n as nat, steps as nat),
        steps == stopping_time(n as nat),
    decreases stopping_time(n as nat),
{
    if n == 1 {
        proof {
            lemma_one_has_stopped();
        }
        0
    } else if n % 2 == 0 {
        proof {
            lemma_halts_step(n as nat);
        }
        1 + collatz_recursive(n / 2)
    } else {
        proof {
            lemma_halts_step(n as nat);
        }
        1 + collatz_recursive(3 * n + 1)
    }
}

/// Counts the steps from `n` to 1, in a loop.
pub fn collatz_iterative(n: usize) -> (steps: usize)
    requires
        halts(n as nat),
    ensures
        reaches_one(n as nat, steps as nat),
        steps == stopping_time(n as nat),
{
    let ghost start = n as nat;
    proof {
        lemma_steps_fit(start, stopping_time(start));
    }
    let mut n = n;
    let mut i: usize = 0;
    while n != 1
        invariant
            halts(n as nat),
            halts(start),
            stopping_time(start) == i + stopping_time(n as nat),
            stopping_time(start) <= usize::MAX,
            reaches_one(start, stopping_time(start)),
        decreases stopping_time(n as nat),
    {
        proof {
            lemma_halts_step(n as nat);
        }
        if n % 2 == 0 {
            n = n / 2;
        } else {
            n = 3 * n + 1;
        }
        i += 1;
    }
    proof {
        lemma_one_has_stopped();
    }
    return i;
}

} // verus!
