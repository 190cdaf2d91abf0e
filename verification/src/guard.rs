//! The guarded call: what a rule does with its flag when it is entered and
//! left, and how the seed of a left-recursive rule grows.
//!
//! The rule's body is the caller's own parser. It comes in as a function that
//! takes the flags under which the body is to run and the best result so far,
//! and tells how much input the body consumed. `guard` is the whole call;
//! `arrive`, `enter`, `adopt`, `grow_seed` and `leave` are its steps.

use crate::flags::RecursiveInfo;
use crate::flags::RECURSIVE_FLAG_BITS;
use vstd::prelude::*;

verus! {

/// How a guarded call goes on once it has looked at its flag.
#[derive(Clone, Copy, Debug, PartialEq, Eq)]
pub enum Entry {
    /// The flag was clear: the rule is not being evaluated at this position.
    Plain,
    /// The flag was set: the rule has been entered again at the position at
    /// which it is being evaluated.
    Reentrant,
}

/// The entry that the flags give to the rule `id`.
pub open spec fn entry_for(flags: Set<nat>, id: nat) -> Entry {
    if flags.contains(id) {
        Entry::Reentrant
    } else {
        Entry::Plain
    }
}

/// The flags while the body of rule `id` is evaluated.
pub open spec fn flags_on_entry(flags: Set<nat>, id: nat) -> Set<nat> {
    flags.insert(id)
}

/// The flags with which the call of rule `id` returns.
pub open spec fn flags_on_exit(flags: Set<nat>, id: nat) -> Set<nat> {
    flags.remove(id)
}

/// The flags at the position at which a guarded call begins: where the input
/// has `moved` on since they were set, none.
pub open spec fn flags_on_arrival(flags: Set<nat>, moved: bool) -> Set<nat> {
    if moved {
        Set::empty()
    } else {
        flags
    }
}

/// Brings the flags to the position at which a guarded call begins. The flags
/// tell what is being evaluated at the position whose value they carry. Where
/// the input has `moved` on from there, nothing is being evaluated yet at the
/// new position: every flag is cleared and `here`, the value of the new
/// position, is carried. Where it has not, flags and carried value stay.
pub fn arrive<T: Clone + Default>(info: &mut RecursiveInfo<T>, moved: bool, here: T)
    ensures
        final(info).flags() == flags_on_arrival(old(info).flags(), moved),
        final(info).carried() == if moved {
            here
        } else {
            old(info).carried()
        },
{
    if moved {
        info.clear_flags();
        info.set_copy(here);
    }
}

/// Enters the rule `id`: tells whether its flag was set, and sets it for the
/// evaluation of the body.
pub fn enter<T: Clone + Default>(info: &mut RecursiveInfo<T>, id: usize) -> (entry: Entry)
    requires
        id < RECURSIVE_FLAG_BITS,
    ensures
        entry == entry_for(old(info).flags(), id as nat),
        final(info).flags() == flags_on_entry(old(info).flags(), id as nat),
        final(info).carried() == old(info).carried(),
{
    let entry = if info.check_flag(id) {
        Entry::Reentrant
    } else {
        Entry::Plain
    };
    info.set_flag(id);
    entry
}

/// Leaves the rule `id`: clears its flag in the flags that the body handed
/// back, whether the body matched or not.
pub fn leave<T: Clone + Default>(info: &mut RecursiveInfo<T>, id: usize)
    requires
        id < RECURSIVE_FLAG_BITS,
    ensures
        final(info).flags() == flags_on_exit(old(info).flags(), id as nat),
        final(info).carried() == old(info).carried(),
{
    info.clear_flag(id);
}

/// A call that is entered with its flag clear has the flag set while its body
/// runs and clear when it returns, whatever flags the body handed back; where
/// the body handed back the flags it was given, the call returns the flags it
/// was entered with.
pub proof fn lemma_flag_symmetry(flags: Set<nat>, id: nat, handed_back: Set<nat>)
    requires
        entry_for(flags, id) == Entry::Plain,
    ensures
        flags_on_entry(flags, id).contains(id),
        !flags_on_exit(handed_back, id).contains(id),
        forall|other: nat|
            other != id ==> flags_on_exit(handed_back, id).contains(other) == handed_back.contains(
                other,
            ),
        flags_on_exit(flags_on_entry(flags, id), id) == flags,
{
    assert(flags_on_exit(flags_on_entry(flags, id), id) =~= flags);
}

/// A rule that is called again at the position at which its body runs is told
/// so: once a call has arrived and entered, a call of the same rule that finds
/// the input where it was is re-entrant, so the body is not entered a second
/// time at that position.
pub proof fn lemma_nested_call_is_reentrant(flags: Set<nat>, id: nat, moved: bool)
    ensures
        entry_for(
            flags_on_arrival(flags_on_entry(flags_on_arrival(flags, moved), id), false),
            id,
        ) == Entry::Reentrant,
{
}

/// The flags while the bodies of the rules `ids` are evaluated one inside the
/// other, the first of them outermost.
pub open spec fn flags_on_entries(flags: Set<nat>, ids: Seq<nat>) -> Set<nat>
    decreases ids.len(),
{
    if ids.len() == 0 {
        flags
    } else {
        flags_on_entries(flags_on_entry(flags, ids[0]), ids.drop_first())
    }
}

/// The flags after the calls of the rules `ids` have returned, the last of them
/// first.
pub open spec fn flags_on_exits(flags: Set<nat>, ids: Seq<nat>) -> Set<nat>
    decreases ids.len(),
{
    if ids.len() == 0 {
        flags
    } else {
        flags_on_exit(flags_on_exits(flags, ids.drop_first()), ids[0])
    }
}

/// An alternative that fails leaves nothing behind: once every call that it
/// entered with a clear flag has returned, the flags are those that the
/// alternative was given, so the next alternative at the same position starts
/// from them.
pub proof fn lemma_frames_leave_no_trace(flags: Set<nat>, ids: Seq<nat>)
    requires
        forall|i: int| 0 <= i < ids.len() ==> !flags.contains(#[trigger] ids[i]),
        forall|i: int, j: int| 0 <= i < j < ids.len() ==> ids[i] != ids[j],
    ensures
        flags_on_exits(flags_on_entries(flags, ids), ids) == flags,
    decreases ids.len(),
{
    if ids.len() > 0 {
        let inner = flags_on_entry(flags, ids[0]);
        let rest = ids.drop_first();
        assert forall|i: int| 0 <= i < rest.len() implies !inner.contains(#[trigger] rest[i]) by {
            assert(rest[i] == ids[i + 1]);
        }
        assert forall|i: int, j: int| 0 <= i < j < rest.len() implies rest[i] != rest[j] by {
            assert(rest[i] == ids[i + 1]);
            assert(rest[j] == ids[j + 1]);
        }
        lemma_frames_leave_no_trace(inner, rest);
        lemma_flag_symmetry(flags, ids[0], inner);
    }
}

/// A provisional result of a rule: how much input it consumed, and its value.
#[derive(Clone, Debug, PartialEq, Eq)]
pub struct Match<V> {
    pub consumed: usize,
    pub value: V,
}

/// The input that the best result so far has consumed; without a result, none.
pub open spec fn consumed_by<V>(best: Option<Match<V>>) -> nat {
    match best {
        Some(found) => found.consumed as nat,
        None => 0,
    }
}

/// Whether `outcome` is a match within the input: the body matched, and
/// consumed no more than the `remaining` input.
pub open spec fn matches_within<V>(outcome: Option<Match<V>>, remaining: usize) -> bool {
    match outcome {
        Some(found) => found.consumed <= remaining,
        None => false,
    }
}

/// Whether `outcome` grows the seed: the body matched, and consumed more than
/// the best result so far and no more than the `remaining` input.
pub open spec fn grows<V>(
    best: Option<Match<V>>,
    outcome: Option<Match<V>>,
    remaining: usize,
) -> bool {
    match outcome {
        Some(found) => consumed_by(best) < found.consumed <= remaining,
        None => false,
    }
}

/// The best result after the body returned `outcome`: the outcome where it
/// grows the seed, and also where it is the first match, even one that
/// consumed nothing; else the best result so far.
pub open spec fn adopted<V>(
    best: Option<Match<V>>,
    outcome: Option<Match<V>>,
    remaining: usize,
) -> Option<Match<V>> {
    if grows(best, outcome, remaining) || (best is None && matches_within(outcome, remaining)) {
        outcome
    } else {
        best
    }
}

/// One step of seed growing. Where `outcome` grows the seed it becomes the best
/// result and the body is to be evaluated again. Where it does not, the loop
/// has converged: the best result stays, or, where there was none and the body
/// matched, that match becomes the result though it consumed nothing. The best
/// result never shrinks.
pub fn adopt<V>(best: &mut Option<Match<V>>, outcome: Option<Match<V>>, remaining: usize) -> (again:
    bool)
    ensures
        again == grows(*old(best), outcome, remaining),
        *final(best) == adopted(*old(best), outcome, remaining),
        consumed_by(*final(best)) >= consumed_by(*old(best)),
        again ==> consumed_by(*final(best)) > consumed_by(*old(best)),
{
    let first: bool = best.is_none();
    let reached: usize = match best {
        Some(found) => found.consumed,
        None => 0,
    };
    match outcome {
        Some(found) => {
            if found.consumed <= remaining {
                let again: bool = reached < found.consumed;
                if again || first {
                    *best = Some(found);
                }
                again
            } else {
                false
            }
        },
        None => false,
    }
}

/// What seed growing ends with: the best result, and how often the seed grew.
#[derive(Clone, Debug, PartialEq, Eq)]
pub struct Grown<V> {
    pub best: Option<Match<V>>,
    pub growths: usize,
}

/// Whether the result after `step` in `bests` is what `attempt` made of `start`
/// and the result at `step`, and grows it.
pub open spec fn grows_at<C, V, F: Fn(&C, &Option<Match<V>>) -> Option<Match<V>>>(
    attempt: F,
    start: C,
    bests: Seq<Option<Match<V>>>,
    step: int,
    remaining: usize,
) -> bool {
    &&& attempt.ensures((&start, &bests[step]), bests[step + 1])
    &&& grows(bests[step], bests[step + 1], remaining)
}

/// Whether `bests` are the best results of a growth, one after the other: it
/// starts without a result, and each result is what `attempt` made of the one
/// before it, and grows it.
pub open spec fn is_growth<C, V, F: Fn(&C, &Option<Match<V>>) -> Option<Match<V>>>(
    attempt: F,
    start: C,
    bests: Seq<Option<Match<V>>>,
    remaining: usize,
) -> bool {
    &&& bests.len() > 0
    &&& bests[0] is None
    &&& forall|step: int|
        0 <= step < bests.len() - 1 ==> #[trigger] grows_at(attempt, start, bests, step, remaining)
}

/// Whether the growth has converged at `seed` and ends with `result`:
/// `attempt` made of `seed` something that does not grow it, and `result` is
/// what is adopted of that. So `result` is `seed`, but for a seed without a
/// result and a body that matched without consuming: then it is that match.
pub open spec fn settles<C, V, F: Fn(&C, &Option<Match<V>>) -> Option<Match<V>>>(
    attempt: F,
    start: C,
    seed: Option<Match<V>>,
    remaining: usize,
    result: Option<Match<V>>,
) -> bool {
    exists|last: Option<Match<V>>|
        attempt.ensures((&start, &seed), last) && !grows(seed, last, remaining) && result
            == adopted(seed, last, remaining)
}

/// A growth consumes more with every step, so it has no more steps than there
/// is input.
pub proof fn lemma_growth_is_bounded<C, V, F: Fn(&C, &Option<Match<V>>) -> Option<Match<V>>>(
    attempt: F,
    start: C,
    bests: Seq<Option<Match<V>>>,
    remaining: usize,
)
    requires
        is_growth(attempt, start, bests, remaining),
    ensures
        bests.len() - 1 <= consumed_by(bests.last()) <= remaining,
        forall|earlier: int, later: int|
            0 <= earlier < later < bests.len() ==> consumed_by(bests[earlier]) < consumed_by(
                bests[later],
            ),
    decreases bests.len(),
{
    if bests.len() > 1 {
        let shorter = bests.drop_last();
        assert forall|step: int| 0 <= step < shorter.len() - 1 implies #[trigger] grows_at(
            attempt,
            start,
            shorter,
            step,
            remaining,
        ) by {
            assert(grows_at(attempt, start, bests, step, remaining));
        }
        lemma_growth_is_bounded(attempt, start, shorter, remaining);
        assert(grows_at(attempt, start, bests, bests.len() - 2, remaining));
        assert(shorter.last() == bests[bests.len() - 2]);
        assert forall|earlier: int, later: int| 0 <= earlier < later < bests.len() implies consumed_by(
            bests[earlier],
        ) < consumed_by(bests[later]) by {
            if later < bests.len() - 1 {
                assert(shorter[earlier] == bests[earlier] && shorter[later] == bests[later]);
            } else if earlier < bests.len() - 2 {
                assert(shorter[earlier] == bests[earlier]);
                assert(consumed_by(shorter[earlier]) < consumed_by(shorter[shorter.len() - 1]));
            }
        }
    }
}

/// Grows the seed of a left-recursive rule. It starts without a result, hands
/// `start`, with which every evaluation begins, and the best result so far to
/// `attempt`, which evaluates the body with them, and adopts what comes back
/// as long as that grows the seed. It ends with the best result. That is the
/// first match where the body matched without consuming anything, and none
/// only where the body did not match, within the input, when it was evaluated
/// without a result. The body is evaluated once more than the seed grew, so at
/// most once more than there is input.
pub fn grow_seed<C, V, F: Fn(&C, &Option<Match<V>>) -> Option<Match<V>>>(
    attempt: F,
    start: &C,
    remaining: usize,
) -> (grown: Grown<V>)
    requires
        forall|best: Option<Match<V>>| attempt.requires((start, &best)),
    ensures
        exists|bests: Seq<Option<Match<V>>>|
            #![trigger is_growth(attempt, *start, bests, remaining)]
            is_growth(attempt, *start, bests, remaining) && bests.len() == grown.growths + 1
                && settles(attempt, *start, bests.last(), remaining, grown.best),
        grown.growths <= consumed_by(grown.best) <= remaining,
{
    let mut best: Option<Match<V>> = None;
    let mut growths: usize = 0;
    let mut again: bool = true;
    let ghost mut bests: Seq<Option<Match<V>>> = seq![None];
    while again
        invariant
            forall|best: Option<Match<V>>| attempt.requires((start, &best)),
            is_growth(attempt, *start, bests, remaining),
            bests.len() == growths + 1,
            again ==> bests.last() == best,
            growths <= consumed_by(best) <= remaining,
            !again ==> settles(attempt, *start, bests.last(), remaining, best),
        decreases
                remaining - consumed_by(best) + (if again {
                    1nat
                } else {
                    0nat
                }),
    {
        let ghost before = bests;
        let ghost seed = best;
        let outcome = attempt(start, &best);
        again = adopt(&mut best, outcome, remaining);
        if again {
            growths = growths + 1;
            proof {
                bests = before.push(best);
                assert(grows_at(attempt, *start, bests, before.len() - 1, remaining));
                assert forall|step: int| 0 <= step < bests.len() - 1 implies #[trigger] grows_at(
                    attempt,
                    *start,
                    bests,
                    step,
                    remaining,
                ) by {
                    if step < before.len() - 1 {
                        assert(grows_at(attempt, *start, before, step, remaining));
                    }
                }
            }
        } else {
            assert(attempt.ensures((start, &seed), outcome) && !grows(seed, outcome, remaining)
                && best == adopted(seed, outcome, remaining));
        }
    }
    Grown { best, growths }
}

/// How a guarded call ended.
#[derive(Clone, Debug, PartialEq, Eq)]
pub enum Guarded<V> {
    /// The rule was entered again at the position at which it is being
    /// evaluated. Its body was not evaluated: the call yields the best result
    /// of the growth that is under way.
    Reentered,
    /// The rule was entered with its flag clear, and its seed was grown.
    Grown(Grown<V>),
}

/// Whether `returned` is the result `found` of a growth as the call of rule
/// `id` returns it: the same result, with the flag of `id` cleared in the flags
/// that the body handed back.
pub open spec fn released<T: Clone + Default, V>(
    found: Option<Match<(RecursiveInfo<T>, V)>>,
    id: nat,
    returned: Option<Match<(RecursiveInfo<T>, V)>>,
) -> bool {
    match (found, returned) {
        (Some(inner), Some(outer)) => {
            &&& outer.consumed == inner.consumed
            &&& outer.value.1 == inner.value.1
            &&& outer.value.0.flags() == flags_on_exit(inner.value.0.flags(), id)
            &&& outer.value.0.carried() == inner.value.0.carried()
        },
        (None, None) => true,
        _ => false,
    }
}

/// Whether a growth that has converged at `seed` ends, for the caller of rule
/// `id`, with `returned`: the result with which it settles, released.
pub open spec fn settles_released<
    T: Clone + Default,
    V,
    F: Fn(&RecursiveInfo<T>, &Option<Match<(RecursiveInfo<T>, V)>>) -> Option<
        Match<(RecursiveInfo<T>, V)>,
    >,
>(
    attempt: F,
    start: RecursiveInfo<T>,
    seed: Option<Match<(RecursiveInfo<T>, V)>>,
    remaining: usize,
    id: nat,
    returned: Option<Match<(RecursiveInfo<T>, V)>>,
) -> bool {
    exists|found: Option<Match<(RecursiveInfo<T>, V)>>|
        #![trigger settles(attempt, start, seed, remaining, found)]
        settles(attempt, start, seed, remaining, found) && released(found, id, returned)
}

/// A guarded call of the rule `id`, with the flags `info` of the input at
/// which it begins.
///
/// The flags are brought to the position of the call, as `arrive` does, and
/// the flag of `id` is set in them: `info` ends as the flags under which the
/// body runs. Where the flag was set already, the body is not evaluated.
/// Where it was clear, the seed is grown as `grow_seed` does: `attempt`
/// evaluates the body under these flags, with the best result so far, and
/// returns what the body consumed, the flags that it handed back and its
/// value. The best result comes back with the flag of `id` cleared in those
/// flags. A body that matched without consuming anything has that match for
/// its result; there is none only where the body did not match, within the
/// input, when it was evaluated without a result.
pub fn guard<
    T: Clone + Default,
    V,
    F: Fn(&RecursiveInfo<T>, &Option<Match<(RecursiveInfo<T>, V)>>) -> Option<
        Match<(RecursiveInfo<T>, V)>,
    >,
>(info: &mut RecursiveInfo<T>, id: usize, moved: bool, here: T, remaining: usize, attempt: F) -> (guarded:
    Guarded<(RecursiveInfo<T>, V)>)
    requires
        id < RECURSIVE_FLAG_BITS,
        forall|start: RecursiveInfo<T>, best: Option<Match<(RecursiveInfo<T>, V)>>|
            attempt.requires((&start, &best)),
    ensures
        final(info).flags() == flags_on_entry(
            flags_on_arrival(old(info).flags(), moved),
            id as nat,
        ),
        final(info).carried() == if moved {
            here
        } else {
            old(info).carried()
        },
        match guarded {
            Guarded::Reentered => entry_for(flags_on_arrival(old(info).flags(), moved), id as nat)
                == Entry::Reentrant,
            Guarded::Grown(grown) => {
                &&& entry_for(flags_on_arrival(old(info).flags(), moved), id as nat)
                    == Entry::Plain
                &&& exists|bests: Seq<Option<Match<(RecursiveInfo<T>, V)>>>|
                    #![trigger is_growth(attempt, *final(info), bests, remaining)]
                    is_growth(attempt, *final(info), bests, remaining) && bests.len()
                        == grown.growths + 1 && settles_released(
                        attempt,
                        *final(info),
                        bests.last(),
                        remaining,
                        id as nat,
                        grown.best,
                    )
                &&& grown.growths <= consumed_by(grown.best) <= remaining
            },
        },
{
    arrive(info, moved, here);
    match enter(info, id) {
        Entry::Reentrant => Guarded::Reentered,
        Entry::Plain => {
            let grown = grow_seed(attempt, &*info, remaining);
            let Grown { best, growths } = grown;
            let returned = match best {
                Some(found) => {
                    let Match { consumed, value } = found;
                    let (mut handed_back, value) = value;
                    leave(&mut handed_back, id);
                    Some(Match { consumed, value: (handed_back, value) })
                },
                None => None,
            };
            Guarded::Grown(Grown { best: returned, growths })
        },
    }
}

} // verus!
