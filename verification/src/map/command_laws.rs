use vstd::prelude::*;

use crate::comm::micromouse_message::{step_matches_spec, MeasurementInterrupt};
use crate::map::command_world_state::{
    id_difference, id_insert, ordered_step_directions, outcome_insert, step_outcome_ids, step_outcomes,
    steps_outcome_ids, steps_outcomes, FilteredCommandApplication, PathLocalOutcomeId,
    PotentialCommandInterruptTermination,
};
use crate::map::world_data::PartialWorldData;

verus! {

/// The ids of a list of outcomes.
pub open spec fn outcome_keys<const N: usize>(s: Seq<(PathLocalOutcomeId, PartialWorldData<N>)>) -> Seq<PathLocalOutcomeId> {
    s.map_values(|p: (PathLocalOutcomeId, PartialWorldData<N>)| p.0)
}

proof fn lemma_keys_insert<const N: usize>(s: Seq<(PathLocalOutcomeId, PartialWorldData<N>)>, id: PathLocalOutcomeId, w: PartialWorldData<N>)
    ensures
        outcome_keys(outcome_insert(s, id, w)) == id_insert(outcome_keys(s), id),
{
    if exists|i: int| 0 <= i < s.len() && s[i].0 == id {
        let c = choose|i: int| 0 <= i < s.len() && s[i].0 == id;
        assert(outcome_keys(s)[c] == id);
        assert(outcome_keys(s).contains(id));
        assert(outcome_keys(outcome_insert(s, id, w)) =~= outcome_keys(s));
    } else {
        assert(!outcome_keys(s).contains(id)) by {
            if outcome_keys(s).contains(id) {
                let j = choose|j: int| 0 <= j < outcome_keys(s).len() && outcome_keys(s)[j] == id;
                assert(s[j].0 == id);
            }
        }
        assert(outcome_keys(outcome_insert(s, id, w)) =~= outcome_keys(s).push(id));
    }
}

proof fn lemma_keys_step<const N: usize>(
    acc: Seq<(PathLocalOutcomeId, PartialWorldData<N>)>,
    j: int,
    pcits: Seq<PotentialCommandInterruptTermination<N>>,
    n: int,
)
    ensures
        outcome_keys(step_outcomes(acc, j, pcits, n)) == step_outcome_ids(outcome_keys(acc), j, pcits, n),
    decreases n,
{
    if n > 0 {
        lemma_keys_step(acc, j, pcits, n - 1);
        let prev = step_outcomes(acc, j, pcits, n - 1);
        let p = pcits[n - 1];
        let id = PathLocalOutcomeId {
            at_step: j as usize,
            from_interrupt: crate::map::command_world_state::PathLocalInterruptId::InterruptAtIndex(p.interrupt_index),
        };
        lemma_keys_insert(prev, id, p.terminating_world.unwrap());
    }
}

proof fn lemma_keys_steps<const N: usize>(steps: Seq<Seq<PotentialCommandInterruptTermination<N>>>, m: int)
    ensures
        outcome_keys(steps_outcomes(steps, m)) == steps_outcome_ids(steps, m),
    decreases m,
{
    if m > 0 {
        lemma_keys_steps(steps, m - 1);
        lemma_keys_step(steps_outcomes(steps, m - 1), m - 1, steps[m - 1], steps[m - 1].len() as int);
    } else {
        assert(outcome_keys(steps_outcomes(steps, m)) =~= Seq::<PathLocalOutcomeId>::empty());
    }
}

/// The outcomes of a command application, each with the world it needs, are exactly its
/// outcome ids, in the same order.
pub proof fn outcomes_match_outcome_ids<const N: usize>(app: FilteredCommandApplication<N>)
    ensures
        outcome_keys(app.outcomes_spec()) == app.outcome_ids_spec(),
{
    let steps = app.steps_spec();
    lemma_keys_steps(steps, steps.len() as int);
    lemma_keys_insert(steps_outcomes(steps, steps.len() as int), app.termination_id_spec(), app.termination_world_spec());
}

/// The ordered measurement directions at a step are exactly the interrupts that measure at
/// that step: each entry is the index of such an interrupt with its direction, the indices
/// rise strictly, and every interrupt that measures there has an entry.
pub proof fn ordered_directions_are_the_measuring_interrupts(ints: Seq<MeasurementInterrupt>, step: int, n: int)
    requires
        0 <= n <= ints.len(),
        n <= usize::MAX,
    ensures
        forall|a: int|
            0 <= a < ordered_step_directions(ints, step, n).len() ==> {
                let e = #[trigger] ordered_step_directions(ints, step, n)[a];
                &&& 0 <= e.0 < n
                &&& step_matches_spec(ints[e.0 as int].at_step, step)
                &&& e.1 == ints[e.0 as int].direction
            },
        forall|a: int, b: int|
            0 <= a < b < ordered_step_directions(ints, step, n).len() ==> ordered_step_directions(ints, step, n)[a].0
                < ordered_step_directions(ints, step, n)[b].0,
        forall|k: int|
            0 <= k < n && #[trigger] step_matches_spec(ints[k].at_step, step) ==> exists|a: int|
                0 <= a < ordered_step_directions(ints, step, n).len() && ordered_step_directions(ints, step, n)[a].0 == k,
    decreases n,
{
    if n > 0 {
        ordered_directions_are_the_measuring_interrupts(ints, step, n - 1);
        let prev = ordered_step_directions(ints, step, n - 1);
        let r = ordered_step_directions(ints, step, n);
        if step_matches_spec(ints[n - 1].at_step, step) {
            assert(r == prev.push(((n - 1) as usize, ints[n - 1].direction)));
            assert forall|a: int, b: int| 0 <= a < b < r.len() implies r[a].0 < r[b].0 by {
                assert(r[a] == prev[a]);
                if b < prev.len() {
                    assert(r[b] == prev[b]);
                }
            }
            assert forall|k: int| 0 <= k < n && #[trigger] step_matches_spec(ints[k].at_step, step) implies exists|a: int|
                0 <= a < r.len() && r[a].0 == k by {
                if k == n - 1 {
                    assert(r[prev.len() as int].0 == k);
                } else {
                    let a = choose|a: int| 0 <= a < prev.len() && prev[a].0 == k;
                    assert(r[a] == prev[a]);
                }
            }
            assert forall|a: int| 0 <= a < r.len() implies {
                let e = #[trigger] r[a];
                &&& 0 <= e.0 < n
                &&& step_matches_spec(ints[e.0 as int].at_step, step)
                &&& e.1 == ints[e.0 as int].direction
            } by {
                if a < prev.len() {
                    assert(r[a] == prev[a]);
                }
            }
        }
    }
}

/// The outcomes an update of the filter rules out were possible before the update and are
/// no longer possible after it.
pub proof fn rejected_outcomes_were_possible(before: Seq<PathLocalOutcomeId>, after: Seq<PathLocalOutcomeId>)
    ensures
        forall|i: int|
            0 <= i < id_difference(before, after).len() ==> before.contains(#[trigger] id_difference(before, after)[i])
                && !after.contains(id_difference(before, after)[i]),
        forall|i: int|
            0 <= i < before.len() && !after.contains(before[i]) ==> #[trigger] id_difference(before, after).contains(before[i]),
{
    broadcast use vstd::seq_lib::group_filter_ensures;
    let pred = |x: PathLocalOutcomeId| !after.contains(x);
    let d = before.filter(pred);
    assert(d == id_difference(before, after));
    assert forall|i: int| 0 <= i < d.len() implies before.contains(#[trigger] d[i]) && !after.contains(d[i]) by {
        assert(d.contains(d[i]));
        before.lemma_filter_contains_rev(pred, d[i]);
    }
}

} // verus!
