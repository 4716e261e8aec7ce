//! What a restore hands back to the host to replay: the animations and the
//! suspended state code of the actors it restored.
use vstd::prelude::*;
use crate::world::apply::{refs_resolve, target_of};
use crate::world::capture::table_get;
use crate::world::restore::RestorePlan;

verus! {

/// The actor each saved animation of a plan restores onto, in the order of
/// the snapshot's animations: the restore answers each with the animation
/// to replay on that actor.
pub fn replayed_animation_actors(plan: &RestorePlan) -> (r: Vec<usize>)
    requires
        refs_resolve(plan.snapshot@, plan.targets@),
    ensures
        r@.len() == plan.snapshot@.animation_commands.len(),
        forall|k: int|
            0 <= k < r@.len() ==> table_get(plan.targets@, #[trigger] plan.snapshot@.animation_commands[k].actor)
                == Some(r@[k]),
{
    let commands = &plan.snapshot.animation_commands;
    let mut out: Vec<usize> = Vec::new();
    let mut i: usize = 0;
    while i < commands.len()
        invariant
            0 <= i <= commands@.len(),
            commands@ == plan.snapshot.animation_commands@,
            refs_resolve(plan.snapshot@, plan.targets@),
            out@.len() == i,
            forall|k: int|
                0 <= k < i ==> table_get(plan.targets@, #[trigger] plan.snapshot@.animation_commands[k].actor)
                    == Some(out@[k]),
        decreases commands@.len() - i,
    {
        assert(plan.snapshot@.animation_commands[i as int].actor == commands@[i as int].actor);
        let target = target_of(&plan.targets, commands[i].actor);
        out.push(target);
        i = i + 1;
    }
    out
}

/// The saved actors of a plan that had suspended state code, each with the
/// actor it restores onto, in the order of the snapshot's actors: the
/// restore resumes that code on that actor.
pub fn resumed_frame_actors(plan: &RestorePlan) -> (r: Vec<(usize, usize)>)
    requires
        refs_resolve(plan.snapshot@, plan.targets@),
    ensures
        forall|j: int|
            0 <= j < r@.len() ==> {
                let (k, target) = #[trigger] r@[j];
                &&& k < plan.snapshot@.actors.len()
                &&& plan.snapshot@.actors[k as int].frame is Some
                &&& table_get(plan.targets@, plan.snapshot@.actors[k as int].actor) == Some(target)
            },
        forall|k: int|
            0 <= k < plan.snapshot@.actors.len() && (#[trigger] plan.snapshot@.actors[k]).frame is Some
                ==> exists|j: int| 0 <= j < r@.len() && r@[j].0 == k,
        forall|i: int, j: int| 0 <= i < j < r@.len() ==> r@[i].0 < r@[j].0,
{
    let actors = &plan.snapshot.actors;
    let mut out: Vec<(usize, usize)> = Vec::new();
    let mut i: usize = 0;
    while i < actors.len()
        invariant
            0 <= i <= actors@.len(),
            actors@ == plan.snapshot.actors@,
            refs_resolve(plan.snapshot@, plan.targets@),
            forall|j: int|
                0 <= j < out@.len() ==> {
                    let (k, target) = #[trigger] out@[j];
                    &&& k < i
                    &&& plan.snapshot@.actors[k as int].frame is Some
                    &&& table_get(plan.targets@, plan.snapshot@.actors[k as int].actor) == Some(target)
                },
            forall|k: int|
                0 <= k < i && (#[trigger] plan.snapshot@.actors[k]).frame is Some ==> exists|j: int|
                    0 <= j < out@.len() && out@[j].0 == k,
            forall|a: int, b: int| 0 <= a < b < out@.len() ==> out@[a].0 < out@[b].0,
        decreases actors@.len() - i,
    {
        assert(plan.snapshot@.actors[i as int] == actors@[i as int]@);
        assert(table_get(plan.targets@, plan.snapshot@.actors[i as int].actor) is Some);
        assert(plan.snapshot@.actors[i as int].actor == actors@[i as int].actor);
        assert(plan.snapshot@.actors[i as int].frame is Some <==> actors@[i as int].frame is Some);
        if actors[i].frame.is_some() {
            let target = target_of(&plan.targets, actors[i].actor);
            let ghost before = out@;
            out.push((i, target));
            assert forall|k: int|
                0 <= k <= i && (#[trigger] plan.snapshot@.actors[k]).frame is Some implies exists|j: int|
                    0 <= j < out@.len() && out@[j].0 == k by {
                if k < i {
                    let j = choose|j: int| 0 <= j < before.len() && before[j].0 == k;
                    assert(out@[j] == before[j]);
                } else {
                    assert(out@[before.len() as int].0 == k);
                }
            }
        }
        i = i + 1;
    }
    out
}

} // verus!
