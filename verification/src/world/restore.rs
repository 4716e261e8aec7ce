//! Reading a snapshot back over a registered map.
use vstd::prelude::*;
use crate::error::{DispatchError, save_error};
use crate::save::layout::{lemma_runtime_roundtrip, parse_runtime, runtime_canonical, runtime_le};
use crate::save::model::RuntimeModel;
use crate::save::snapshot::read_runtime;
use crate::save::wire::MAX_SAVE_BYTES;

use crate::save::model::{ActorModel, ObjectModel, SavedActor, SavedObject, SavedRuntime, actors_model};
use crate::text::eq_ignore_ascii_case;
use crate::text::same_ignoring_ascii_case;
use crate::value::ObjectId;
use crate::world::capture::{find_entry, saved_game, table_get};
use crate::world::convert::{is_runtime_object, runtime_package, saved_object_of, saved_object_with, stem_table, StemTable, Stems};
use crate::world::runtime::{LatentAction, ScriptRuntime};
use crate::save::model::SavedLatent;
use crate::save::wire::finite_bits;
use crate::world::transient::{discard_transient_actors, discarded};

verus! {

/// The map a snapshot's bytes record, when they hold a snapshot.
pub open spec fn recorded_map(bytes: Seq<u8>) -> Option<Seq<char>> {
    if bytes.len() <= MAX_SAVE_BYTES {
        match parse_runtime(bytes) {
            Some(m) => Some(m.map),
            None => None,
        }
    } else {
        None
    }
}

impl ScriptRuntime {
    /// The map identifier a save records, read without resolving any
    /// package.
    pub fn saved_game_map(bytes: &[u8]) -> (r: Result<String, DispatchError>)
        ensures
            match r {
                Ok(map) => recorded_map(bytes@) == Some(map@),
                Err(e) => recorded_map(bytes@) is None && e is SaveState,
            },
    {
        let snapshot = read_runtime(bytes)?;
        Ok(snapshot.map)
    }
}

/// What `save_game` writes reads back as the snapshot it was written from,
/// when every object in the snapshot is in the form the reader gives back
/// (a lower-case package name without path separators).
pub proof fn lemma_saved_game_reads_back(st: Stems, runtime: ScriptRuntime, map: Seq<char>)
    requires
        saved_game(st, runtime, map) is Some,
        runtime_canonical(saved_game(st, runtime, map)->0),
    ensures
        runtime_le(saved_game(st, runtime, map)->0).len() <= MAX_SAVE_BYTES,
        parse_runtime(runtime_le(saved_game(st, runtime, map)->0)) == saved_game(st, runtime, map),
{
    lemma_runtime_roundtrip(saved_game(st, runtime, map)->0);
}

/// The map a save records is the map it was saved for.
pub proof fn lemma_saved_game_map(st: Stems, runtime: ScriptRuntime, map: Seq<char>)
    requires
        saved_game(st, runtime, map) is Some,
        runtime_canonical(saved_game(st, runtime, map)->0),
    ensures
        recorded_map(runtime_le(saved_game(st, runtime, map)->0)) == Some(map),
{
    lemma_saved_game_reads_back(st, runtime, map);
}

/// The entries of a list of distinct keys as a map.
pub open spec fn keyed_map(entries: Seq<(ObjectModel, usize)>) -> Map<ObjectModel, usize>
    decreases entries.len(),
{
    if entries.len() == 0 {
        Map::empty()
    } else {
        keyed_map(entries.drop_last()).insert(entries.last().0, entries.last().1)
    }
}

/// No key is listed twice.
pub open spec fn distinct_keys(entries: Seq<(ObjectModel, usize)>) -> bool {
    forall|i: int, j: int| 0 <= i < j < entries.len() ==> entries[i].0 != entries[j].0
}

pub proof fn lemma_keyed_map_index(entries: Seq<(ObjectModel, usize)>)
    requires
        distinct_keys(entries),
    ensures
        forall|k: ObjectModel|
            keyed_map(entries).dom().contains(k) <==> exists|i: int|
                0 <= i < entries.len() && #[trigger] entries[i].0 == k,
        forall|i: int|
            0 <= i < entries.len() ==> #[trigger] keyed_map(entries)[entries[i].0] == entries[i].1,
    decreases entries.len(),
{
    if entries.len() > 0 {
        let init = entries.drop_last();
        assert(distinct_keys(init)) by {
            assert forall|i: int, j: int| 0 <= i < j < init.len() implies init[i].0 != init[j].0 by {
                assert(init[i] == entries[i] && init[j] == entries[j]);
            }
        }
        lemma_keyed_map_index(init);
        let last = entries.last();
        assert(keyed_map(entries) == keyed_map(init).insert(last.0, last.1));
        assert forall|k: ObjectModel|
            keyed_map(entries).dom().contains(k) <==> exists|i: int|
                0 <= i < entries.len() && #[trigger] entries[i].0 == k by {
            if keyed_map(entries).dom().contains(k) {
                if k == last.0 {
                    assert(entries[entries.len() - 1].0 == k);
                } else {
                    assert(keyed_map(init).dom().contains(k));
                    let i = choose|i: int| 0 <= i < init.len() && #[trigger] init[i].0 == k;
                    assert(entries[i] == init[i]);
                }
            }
            if exists|i: int| 0 <= i < entries.len() && #[trigger] entries[i].0 == k {
                let i = choose|i: int| 0 <= i < entries.len() && #[trigger] entries[i].0 == k;
                if i < entries.len() - 1 {
                    assert(init[i] == entries[i]);
                    assert(keyed_map(init).dom().contains(k));
                }
            }
        }
        assert forall|i: int| 0 <= i < entries.len() implies #[trigger] keyed_map(entries)[entries[i].0]
            == entries[i].1 by {
            if i < entries.len() - 1 {
                assert(init[i] == entries[i]);
                assert(entries[i].0 != entries.last().0);
            }
        }
    }
}

/// The views of a list of objects with actors.
pub open spec fn keyed_views(entries: Seq<(SavedObject, usize)>) -> Seq<(ObjectModel, usize)> {
    entries.map_values(|e: (SavedObject, usize)| (e.0@, e.1))
}

/// Whether two snapshot objects are the same.
fn same_saved_object(a: &SavedObject, b: &SavedObject) -> (r: bool)
    ensures
        r == (a@ == b@),
{
    a.export_index == b.export_index && a.package == b.package
}

/// The position of a key in a list of objects with actors.
fn find_key(entries: &Vec<(SavedObject, usize)>, key: &SavedObject) -> (r: Option<usize>)
    ensures
        match r {
            Some(i) => i < entries@.len() && keyed_views(entries@)[i as int].0 == key@,
            None => forall|i: int| 0 <= i < entries@.len() ==> #[trigger] keyed_views(entries@)[i].0 != key@,
        },
{
    let mut i: usize = 0;
    while i < entries.len()
        invariant
            0 <= i <= entries@.len(),
            forall|j: int| 0 <= j < i ==> #[trigger] keyed_views(entries@)[j].0 != key@,
        decreases entries@.len() - i,
    {
        if same_saved_object(&entries[i].0, key) {
            return Some(i);
        }
        i = i + 1;
    }
    None
}

/// Sets the actor of a key, adding the key when it is not listed.
fn assign_key(entries: &mut Vec<(SavedObject, usize)>, key: SavedObject, actor: usize)
    requires
        distinct_keys(keyed_views(old(entries)@)),
    ensures
        distinct_keys(keyed_views(final(entries)@)),
        keyed_map(keyed_views(final(entries)@)) == keyed_map(keyed_views(old(entries)@)).insert(
            key@,
            actor,
        ),
{
    let ghost before = keyed_views(entries@);
    let ghost k = key@;
    match find_key(entries, &key) {
        Some(i) => {
            entries.set(i, (key, actor));
            let ghost after = keyed_views(entries@);
            assert(after =~= before.update(i as int, (k, actor)));
            proof {
                lemma_keyed_map_index(before);
                lemma_keyed_map_index(after);
                assert forall|q: ObjectModel|
                    keyed_map(after).dom().contains(q) <==> keyed_map(before).insert(k, actor).dom().contains(q) by {
                    if keyed_map(before).dom().contains(q) {
                        let j = choose|j: int| 0 <= j < before.len() && #[trigger] before[j].0 == q;
                        if j != i {
                            assert(after[j].0 == q);
                        } else {
                            assert(after[i as int].0 == q);
                        }
                    }
                    if q == k {
                        assert(after[i as int].0 == q);
                    }
                    if keyed_map(after).dom().contains(q) {
                        let j = choose|j: int| 0 <= j < after.len() && #[trigger] after[j].0 == q;
                        if j != i {
                            assert(before[j].0 == q);
                        }
                    }
                }
                assert forall|q: ObjectModel| keyed_map(after).dom().contains(q) implies keyed_map(after)[q]
                    == keyed_map(before).insert(k, actor)[q] by {
                    let j = choose|j: int| 0 <= j < after.len() && #[trigger] after[j].0 == q;
                    assert(keyed_map(after)[after[j].0] == after[j].1);
                    if j != i {
                        assert(after[j] == before[j]);
                        assert(keyed_map(before)[before[j].0] == before[j].1);
                    }
                }
                assert(keyed_map(after) =~= keyed_map(before).insert(k, actor));
            }
        },
        None => {
            entries.push((key, actor));
            let ghost after = keyed_views(entries@);
            assert(after =~= before.push((k, actor)));
            assert(after.drop_last() =~= before);
        },
    }
}

/// Removes a key, giving back its actor.
fn take_key(entries: &mut Vec<(SavedObject, usize)>, key: &SavedObject) -> (r: Option<usize>)
    requires
        distinct_keys(keyed_views(old(entries)@)),
    ensures
        distinct_keys(keyed_views(final(entries)@)),
        r == (if keyed_map(keyed_views(old(entries)@)).dom().contains(key@) {
            Some(keyed_map(keyed_views(old(entries)@))[key@])
        } else {
            None::<usize>
        }),
        keyed_map(keyed_views(final(entries)@)) == keyed_map(keyed_views(old(entries)@)).remove(
            key@,
        ),
{
    let ghost before = keyed_views(entries@);
    proof {
        lemma_keyed_map_index(before);
    }
    match find_key(entries, key) {
        Some(i) => {
            let actor = entries[i].1;
            entries.remove(i);
            let ghost after = keyed_views(entries@);
            assert(after =~= before.remove(i as int));
            proof {
                lemma_keyed_map_index(after);
                assert forall|q: ObjectModel|
                    keyed_map(after).dom().contains(q) <==> keyed_map(before).remove(key@).dom().contains(q) by {
                    if keyed_map(before).dom().contains(q) && q != key@ {
                        let j = choose|j: int| 0 <= j < before.len() && #[trigger] before[j].0 == q;
                        if j < i {
                            assert(after[j].0 == q);
                        } else {
                            assert(after[j - 1].0 == q);
                        }
                    }
                    if keyed_map(after).dom().contains(q) {
                        let j = choose|j: int| 0 <= j < after.len() && #[trigger] after[j].0 == q;
                        if j < i {
                            assert(before[j].0 == q);
                        } else {
                            assert(before[j + 1].0 == q);
                        }
                    }
                }
                assert forall|q: ObjectModel| keyed_map(after).dom().contains(q) implies keyed_map(after)[q]
                    == keyed_map(before).remove(key@)[q] by {
                    let j = choose|j: int| 0 <= j < after.len() && #[trigger] after[j].0 == q;
                    assert(keyed_map(after)[after[j].0] == after[j].1);
                    if j < i {
                        assert(keyed_map(before)[before[j].0] == before[j].1);
                    } else {
                        assert(keyed_map(before)[before[j + 1].0] == before[j + 1].1);
                    }
                }
                assert(keyed_map(after) =~= keyed_map(before).remove(key@));
            }
            Some(actor)
        },
        None => {
            assert(!keyed_map(before).dom().contains(key@));
            assert(keyed_map(before).remove(key@) =~= keyed_map(before));
            None
        },
    }
}

/// The authored actors of the runtime keyed by their snapshot object, a
/// later actor taking the place of an earlier one with the same object;
/// nothing when an object cannot be converted.
pub open spec fn authored_of(st: Stems, objects: Seq<(usize, ObjectId)>) -> Option<Map<ObjectModel, usize>>
    decreases objects.len(),
{
    if objects.len() == 0 {
        Some(Map::empty())
    } else {
        match authored_of(st, objects.drop_last()) {
            None => None,
            Some(m) => {
                let (actor, object) = objects.last();
                if object@.package == runtime_package() {
                    Some(m)
                } else {
                    match saved_object_of(st, object@) {
                        Some(o) => Some(m.insert(o, actor)),
                        None => None,
                    }
                }
            },
        }
    }
}

proof fn lemma_authored_none(st: Stems, objects: Seq<(usize, ObjectId)>, i: int)
    requires
        0 <= i <= objects.len(),
        authored_of(st, objects.take(i)) is None,
    ensures
        authored_of(st, objects) is None,
    decreases objects.len(),
{
    if i == objects.len() {
        assert(objects.take(i) =~= objects);
    } else {
        assert(objects.drop_last().take(i) =~= objects.take(i));
        lemma_authored_none(st, objects.drop_last(), i);
    }
}

impl ScriptRuntime {
    fn authored_actors(&self, stems: &StemTable) -> (r: Result<Vec<(SavedObject, usize)>, DispatchError>)
        ensures
            match r {
                Ok(v) => distinct_keys(keyed_views(v@)) && (authored_of(stems@, self.actor_objects@) == Some(keyed_map(keyed_views(v@)))),
                Err(e) => authored_of(stems@, self.actor_objects@) is None && e is SaveState,
            },
    {
        let ghost st = stems@;
        let ghost all = self.actor_objects@;
        let mut out: Vec<(SavedObject, usize)> = Vec::new();
        let mut i: usize = 0;
        assert(all.take(0) =~= Seq::<(usize, ObjectId)>::empty());
        assert(keyed_map(keyed_views(out@)) =~= Map::<ObjectModel, usize>::empty());
        while i < self.actor_objects.len()
            invariant
                st == stems@,
                0 <= i <= all.len(),
                all == self.actor_objects@,
                distinct_keys(keyed_views(out@)),
                authored_of(st, all.take(i as int)) == Some(
                    keyed_map(keyed_views(out@)),
                ),
            decreases all.len() - i,
        {
            assert(all.take(i + 1).drop_last() =~= all.take(i as int));
            assert(all.take(i + 1).last() == all[i as int]);
            let actor = self.actor_objects[i].0;
            let object = &self.actor_objects[i].1;
            if !is_runtime_object(object) {
                let saved = match saved_object_with(object, stems) {
                    Ok(o) => o,
                    Err(e) => {
                        proof {
                            lemma_authored_none(st, all, i + 1);
                        }
                        return Err(e);
                    },
                };
                assign_key(&mut out, saved, actor);
            }
            i = i + 1;
        }
        assert(all.take(all.len() as int) =~= all);
        Ok(out)
    }
}

/// Whether a saved actor index already has a target.
pub open spec fn has_target(targets: Seq<(usize, usize)>, actor: usize) -> bool {
    exists|i: int| 0 <= i < targets.len() && #[trigger] targets[i].0 == actor
}

/// Matches the snapshot's actors, in order, to authored actors by object:
/// each saved actor index once, each authored actor once, and with the
/// class the snapshot records; nothing when one does not match.
pub open spec fn match_actors(st: Stems, 
    runtime: ScriptRuntime,
    saved: Seq<ActorModel>,
    authored: Map<ObjectModel, usize>,
    targets: Seq<(usize, usize)>,
) -> Option<(Map<ObjectModel, usize>, Seq<(usize, usize)>)>
    decreases saved.len(),
{
    if saved.len() == 0 {
        Some((authored, targets))
    } else {
        let a = saved[0];
        if has_target(targets, a.actor) || !authored.dom().contains(a.object) {
            None
        } else {
            let actor = authored[a.object];
            match table_get(runtime.actor_classes@, actor) {
                Some(class) => if saved_object_of(st, class@) == Some(a.class) {
                    match_actors(st, 
                        runtime,
                        saved.subrange(1, saved.len() as int),
                        authored.remove(a.object),
                        targets.push((a.actor, actor)),
                    )
                } else {
                    None
                },
                None => None,
            }
        }
    }
}

/// The errors a save that does not match the runtime is answered with: a
/// save-state error, or the one for an authored actor without a class.
pub open spec fn unmatched_error(runtime: ScriptRuntime, e: DispatchError) -> bool {
    ||| e is SaveState
    ||| e matches DispatchError::UnregisteredActor { actor } && table_get(runtime.actor_classes@, actor) is None
}

/// The authored actor each saved actor restores onto, when every saved
/// actor matches one and every authored actor is matched.
pub open spec fn targets_of(st: Stems, runtime: ScriptRuntime, saved: Seq<ActorModel>) -> Option<Seq<(usize, usize)>> {
    match authored_of(st, runtime.actor_objects@) {
        Some(authored) => match match_actors(st, runtime, saved, authored, Seq::empty()) {
            Some((left, targets)) => if left == Map::<ObjectModel, usize>::empty() {
                Some(targets)
            } else {
                None
            },
            None => None,
        },
        None => None,
    }
}

fn lists_target(targets: &Vec<(usize, usize)>, actor: usize) -> (r: bool)
    ensures
        r == has_target(targets@, actor),
{
    let mut i: usize = 0;
    while i < targets.len()
        invariant
            0 <= i <= targets@.len(),
            forall|j: int| 0 <= j < i ==> #[trigger] targets@[j].0 != actor,
        decreases targets@.len() - i,
    {
        if targets[i].0 == actor {
            return true;
        }
        i = i + 1;
    }
    false
}

impl ScriptRuntime {
    /// Matches a snapshot's actors to the authored actors they restore onto.
    pub fn restore_targets(&self, saved: &Vec<SavedActor>, stems: &StemTable) -> (r: Result<Vec<(usize, usize)>, DispatchError>)
        ensures
            match r {
                Ok(t) => targets_of(stems@, 
                    *self,
                    actors_model(saved@),
                ) == Some(t@),
                Err(e) => targets_of(stems@, *self, actors_model(saved@)) is None && unmatched_error(*self, e),
            },
    {
        let ghost st = stems@;
        let mut authored = self.authored_actors(stems)?;
        let ghost start = keyed_map(keyed_views(authored@));
        let ghost all = actors_model(saved@);
        let mut targets: Vec<(usize, usize)> = Vec::new();
        let mut i: usize = 0;
        assert(all.subrange(0, all.len() as int) =~= all);
        while i < saved.len()
            invariant
                st == stems@,
                0 <= i <= saved@.len(),
                all == actors_model(saved@),
                all.len() == saved@.len(),
                distinct_keys(keyed_views(authored@)),
                authored_of(st, self.actor_objects@) == Some(start),
                match_actors(st, 
                    *self,
                    all,
                    start,
                    Seq::empty(),
                ) == match_actors(st, 
                    *self,
                    all.subrange(i as int, all.len() as int),
                    keyed_map(keyed_views(authored@)),
                    targets@,
                ),
            decreases saved@.len() - i,
        {
            let ghost rest = all.subrange(i as int, all.len() as int);
            assert(rest.subrange(1, rest.len() as int) =~= all.subrange(i + 1, all.len() as int));
            assert(rest[0] == saved@[i as int]@);
            let entry = &saved[i];
            if lists_target(&targets, entry.actor) {
                return Err(save_error("snapshot has duplicate actor indices"));
            }
            let actor = match take_key(&mut authored, &entry.object) {
                Some(a) => a,
                None => {
                    return Err(save_error("snapshot actor is missing from the authored map"));
                },
            };
            let class_at = match find_entry(&self.actor_classes, actor) {
                Some(c) => c,
                None => {
                    return Err(DispatchError::UnregisteredActor { actor });
                },
            };
            let class = saved_object_with(&self.actor_classes[class_at].1, stems)?;
            if !same_saved_object(&class, &entry.class) {
                return Err(save_error("snapshot actor class does not match the authored map"));
            }
            targets.push((entry.actor, actor));
            i = i + 1;
        }
        assert(all.subrange(all.len() as int, all.len() as int) =~= Seq::<ActorModel>::empty());
        proof {
            lemma_keyed_map_index(keyed_views(authored@));
        }
        if authored.len() > 0 {
            assert(keyed_map(keyed_views(authored@)).dom().contains(keyed_views(authored@)[0].0));
            return Err(save_error("snapshot is missing authored actors"));
        }
        assert(keyed_map(keyed_views(authored@)) =~= Map::<ObjectModel, usize>::empty());
        Ok(targets)
    }
}

/// What planning a restore of `bytes` for `map` over `runtime` answers, the
/// stems of platform-dependent package paths being `st`.
pub open spec fn plan_outcome(
    st: Stems,
    runtime: ScriptRuntime,
    map: Seq<char>,
    bytes: Seq<u8>,
    r: Result<RestorePlan, DispatchError>,
) -> bool {
    match r {
        Ok(plan) => restore_plan_of(st, runtime, map, bytes) == Some((plan.snapshot@, plan.targets@)),
        Err(e) => restore_plan_of(st, runtime, map, bytes) is None && unmatched_error(runtime, e),
    }
}

/// The authored actor a saved actor index restores onto.
pub fn saved_actor_target(targets: &Vec<(usize, usize)>, actor: usize) -> (r: Result<usize, DispatchError>)
    ensures
        match r {
            Ok(a) => table_get(targets@, actor) == Some(a),
            Err(e) => table_get(targets@, actor) is None,
        },
{
    match find_entry(targets, actor) {
        Some(i) => Ok(targets[i].1),
        None => Err(save_error("snapshot refers to an absent actor")),
    }
}

/// The latent action a saved one restores to: waits on saved actors wait on
/// their targets; nothing for a sleep that is not finite or a wait on an
/// actor without a target.
pub open spec fn restored_latent(latent: SavedLatent, targets: Seq<(usize, usize)>) -> Option<LatentAction> {
    match latent {
        SavedLatent::Continue => Some(LatentAction::Continue),
        SavedLatent::Stop => Some(LatentAction::Stop),
        SavedLatent::Sleep(d) => if finite_bits(d) {
            Some(LatentAction::Sleep(d))
        } else {
            None
        },
        SavedLatent::FinishAnimation(a) => match table_get(targets, a) {
            Some(t) => Some(LatentAction::FinishAnimation(t)),
            None => None,
        },
        SavedLatent::FinishInterpolation(a) => match table_get(targets, a) {
            Some(t) => Some(LatentAction::FinishInterpolation(t)),
            None => None,
        },
        SavedLatent::MoveTo(a) => match table_get(targets, a) {
            Some(t) => Some(LatentAction::MoveTo(t)),
            None => None,
        },
        SavedLatent::MoveToward(a) => match table_get(targets, a) {
            Some(t) => Some(LatentAction::MoveToward(t)),
            None => None,
        },
        SavedLatent::TurnTo(a) => match table_get(targets, a) {
            Some(t) => Some(LatentAction::TurnTo(t)),
            None => None,
        },
        SavedLatent::TurnToward(a) => match table_get(targets, a) {
            Some(t) => Some(LatentAction::TurnToward(t)),
            None => None,
        },
    }
}

/// Restores a saved latent action onto the restored actors.
pub fn restore_latent(latent: SavedLatent, targets: &Vec<(usize, usize)>) -> (r: Result<
    LatentAction,
    DispatchError,
>)
    ensures
        match r {
            Ok(l) => restored_latent(latent, targets@) == Some(l),
            Err(e) => restored_latent(latent, targets@) is None,
        },
{
    match latent {
        SavedLatent::Continue => Ok(LatentAction::Continue),
        SavedLatent::Stop => Ok(LatentAction::Stop),
        SavedLatent::Sleep(d) => {
            if d & 0x7f80_0000 == 0x7f80_0000 {
                Err(save_error("latent sleep duration is not finite"))
            } else {
                Ok(LatentAction::Sleep(d))
            }
        },
        SavedLatent::FinishAnimation(a) => Ok(LatentAction::FinishAnimation(saved_actor_target(targets, a)?)),
        SavedLatent::FinishInterpolation(a) => Ok(
            LatentAction::FinishInterpolation(saved_actor_target(targets, a)?),
        ),
        SavedLatent::MoveTo(a) => Ok(LatentAction::MoveTo(saved_actor_target(targets, a)?)),
        SavedLatent::MoveToward(a) => Ok(LatentAction::MoveToward(saved_actor_target(targets, a)?)),
        SavedLatent::TurnTo(a) => Ok(LatentAction::TurnTo(saved_actor_target(targets, a)?)),
        SavedLatent::TurnToward(a) => Ok(LatentAction::TurnToward(saved_actor_target(targets, a)?)),
    }
}

/// A snapshot read back for a map, without the actors spawned at run time,
/// and the authored actor each saved actor restores onto.
pub struct RestorePlan {
    pub snapshot: SavedRuntime,
    pub targets: Vec<(usize, usize)>,
}

/// What a restore of `bytes` over the runtime for `map` starts from: the
/// snapshot the bytes hold, when it was saved for `map` (ignoring ASCII
/// case), without run-time actors, and its actors matched to the authored
/// ones; nothing when any of these fails.
pub open spec fn restore_plan_of(st: Stems, runtime: ScriptRuntime, map: Seq<char>, bytes: Seq<u8>) -> Option<
    (RuntimeModel, Seq<(usize, usize)>),
> {
    if bytes.len() <= MAX_SAVE_BYTES {
        match parse_runtime(bytes) {
            Some(m) => if same_ignoring_ascii_case(m.map, map) {
                match targets_of(st, runtime, discarded(m).actors) {
                    Some(t) => Some((discarded(m), t)),
                    None => None,
                }
            } else {
                None
            },
            None => None,
        }
    } else {
        None
    }
}

impl ScriptRuntime {
    /// Reads a save for `map` and decides how it restores over the
    /// registered map: which snapshot it holds once run-time actors are
    /// dropped, and the authored actor each saved actor restores onto. The
    /// stems of platform-dependent package paths come from `stems`.
    pub fn plan_restore_with(&self, map: &str, bytes: &[u8], stems: &StemTable) -> (r: Result<RestorePlan, DispatchError>)
        ensures
            match r {
                Ok(plan) => restore_plan_of(stems@, 
                    *self,
                    map@,
                    bytes@,
                ) == Some((plan.snapshot@, plan.targets@)),
                Err(e) => restore_plan_of(stems@, *self, map@, bytes@) is None && unmatched_error(*self, e),
            },
            r matches Ok(plan) ==> plan_read_from(*self, map@, bytes@, plan.snapshot@, plan.targets@),
            !(recorded_map(bytes@) matches Some(m) && same_ignoring_ascii_case(m, map@)) ==> (r matches Err(e)
                && e is SaveState),
    {
        let ghost st = stems@;
        let mut snapshot = read_runtime(bytes)?;
        if !eq_ignore_ascii_case(snapshot.map.as_str(), map) {
            let message = "snapshot is for `".to_owned().concat(snapshot.map.as_str()).concat("`, not `").concat(
                map,
            ).concat("`");
            return Err(save_error(message.as_str()));
        }
        discard_transient_actors(&mut snapshot);
        let targets = self.restore_targets(&snapshot.actors, stems)?;
        let plan = RestorePlan { snapshot, targets };
        proof {
            lemma_plan_read_from(st, *self, map@, bytes@);
        }
        Ok(plan)
    }

    /// The stems of the package paths a restore matches: those of the
    /// registered actors' objects and classes.
    pub fn restore_stems(&self) -> (r: StemTable) {
        let mut paths: Vec<String> = Vec::new();
        let mut i: usize = 0;
        while i < self.actor_objects.len()
            decreases self.actor_objects@.len() - i,
        {
            paths.push(self.actor_objects[i].1.package.clone());
            i = i + 1;
        }
        let mut j: usize = 0;
        while j < self.actor_classes.len()
            decreases self.actor_classes@.len() - j,
        {
            paths.push(self.actor_classes[j].1.package.clone());
            j = j + 1;
        }
        stem_table(&paths)
    }

    /// Reads a save for `map` and decides how it restores over the
    /// registered map, as `plan_restore_with` does with the stems
    /// `Path::file_stem` gives for the registered actors' package paths.
    pub fn plan_restore(&self, map: &str, bytes: &[u8]) -> (r: Result<RestorePlan, DispatchError>)
        ensures
            exists|st: Stems| #[trigger] plan_outcome(st, *self, map@, bytes@, r),
            r matches Ok(plan) ==> plan_read_from(*self, map@, bytes@, plan.snapshot@, plan.targets@),
            !(recorded_map(bytes@) matches Some(m) && same_ignoring_ascii_case(m, map@)) ==> (r matches Err(e)
                && e is SaveState),
    {
        let stems = self.restore_stems();
        let r = self.plan_restore_with(map, bytes, &stems);
        assert(plan_outcome(stems@, *self, map@, bytes@, r));
        r
    }
}

/// Whether an authored actor of the registered map has index `actor`.
pub open spec fn authored_index(objects: Seq<(usize, ObjectId)>, actor: usize) -> bool {
    exists|j: int| 0 <= j < objects.len() && (#[trigger] objects[j]).0 == actor && objects[j].1@.package != runtime_package()
}

/// What a plan read from `bytes` for `map` holds, whatever the stems of
/// platform-dependent package paths: the snapshot the bytes hold, saved
/// for `map` (ignoring ASCII case), without run-time actors, and each of
/// its actors, in order, with the authored actor it restores onto.
pub open spec fn plan_read_from(
    runtime: ScriptRuntime,
    map: Seq<char>,
    bytes: Seq<u8>,
    snapshot: RuntimeModel,
    targets: Seq<(usize, usize)>,
) -> bool {
    &&& bytes.len() <= MAX_SAVE_BYTES
    &&& parse_runtime(bytes) matches Some(m) && same_ignoring_ascii_case(m.map, map) && snapshot == discarded(m)
    &&& targets.len() == snapshot.actors.len()
    &&& forall|k: int|
        0 <= k < targets.len() ==> (#[trigger] targets[k]).0 == snapshot.actors[k].actor && authored_index(
            runtime.actor_objects@,
            targets[k].1,
        )
}

proof fn lemma_authored_values(st: Stems, objects: Seq<(usize, ObjectId)>)
    requires
        authored_of(st, objects) is Some,
    ensures
        forall|o: ObjectModel|
            #[trigger] authored_of(st, objects)->0.dom().contains(o) ==> authored_index(
                objects,
                authored_of(st, objects)->0[o],
            ),
    decreases objects.len(),
{
    if objects.len() > 0 {
        let init = objects.drop_last();
        lemma_authored_values(st, init);
        let m = authored_of(st, init)->0;
        let n = objects.len() - 1;
        assert forall|o: ObjectModel|
            #[trigger] authored_of(st, objects)->0.dom().contains(o) implies authored_index(
                objects,
                authored_of(st, objects)->0[o],
            ) by {
            if objects[n].1@.package != runtime_package() && saved_object_of(st, objects[n].1@) == Some(o) {
                assert(objects[n] == objects[n]);
            } else {
                assert(m.dom().contains(o));
                let j = choose|j: int| 0 <= j < init.len() && (#[trigger] init[j]).0 == m[o] && init[j].1@.package
                    != runtime_package();
                assert(objects[j] == init[j]);
            }
        }
    }
}

proof fn lemma_match_shape(
    st: Stems,
    runtime: ScriptRuntime,
    saved: Seq<ActorModel>,
    authored: Map<ObjectModel, usize>,
    targets: Seq<(usize, usize)>,
)
    requires
        match_actors(st, runtime, saved, authored, targets) is Some,
        forall|o: ObjectModel| #[trigger] authored.dom().contains(o) ==> authored_index(runtime.actor_objects@, authored[o]),
    ensures
        ({
            let found = match_actors(st, runtime, saved, authored, targets)->0;
            let out = found.1;
            &&& out.len() == targets.len() + saved.len()
            &&& forall|k: int| 0 <= k < targets.len() ==> #[trigger] out[k] == targets[k]
            &&& forall|k: int|
                0 <= k < saved.len() ==> (#[trigger] out[targets.len() + k]).0 == saved[k].actor && authored_index(
                    runtime.actor_objects@,
                    out[targets.len() + k].1,
                )
        }),
    decreases saved.len(),
{
    if saved.len() > 0 {
        let a = saved[0];
        let actor = authored[a.object];
        let next = targets.push((a.actor, actor));
        let rest = saved.subrange(1, saved.len() as int);
        lemma_match_shape(st, runtime, rest, authored.remove(a.object), next);
        let found = match_actors(st, runtime, saved, authored, targets)->0;
        let out = found.1;
        let later = match_actors(st, runtime, rest, authored.remove(a.object), next)->0;
        assert(out == later.1);
        assert forall|k: int| 0 <= k < targets.len() implies #[trigger] out[k] == targets[k] by {
            assert(out[k] == next[k]);
        }
        assert forall|k: int|
            0 <= k < saved.len() implies (#[trigger] out[targets.len() + k]).0 == saved[k].actor && authored_index(
                runtime.actor_objects@,
                out[targets.len() + k].1,
            ) by {
            if k == 0 {
                assert(out[targets.len() as int] == next[targets.len() as int]);
            } else {
                assert(rest[k - 1] == saved[k]);
                assert(out[next.len() + (k - 1)] == out[targets.len() + k]);
            }
        }
    }
}

/// A plan a restore reads holds the snapshot the bytes hold for the map,
/// and its actors in order with the authored actors they restore onto,
/// whatever the stems of platform-dependent package paths.
pub proof fn lemma_plan_read_from(st: Stems, runtime: ScriptRuntime, map: Seq<char>, bytes: Seq<u8>)
    requires
        restore_plan_of(st, runtime, map, bytes) is Some,
    ensures
        ({
            let plan = restore_plan_of(st, runtime, map, bytes)->0;
            plan_read_from(runtime, map, bytes, plan.0, plan.1)
        }),
{
    let m = parse_runtime(bytes)->0;
    let authored = authored_of(st, runtime.actor_objects@)->0;
    lemma_authored_values(st, runtime.actor_objects@);
    lemma_match_shape(st, runtime, discarded(m).actors, authored, Seq::empty());
    let found = match_actors(st, runtime, discarded(m).actors, authored, Seq::empty())->0;
    let out = found.1;
    assert forall|k: int| 0 <= k < out.len() implies (#[trigger] out[k]).0 == discarded(m).actors[k].actor
        && authored_index(runtime.actor_objects@, out[k].1) by {
        assert(out[0 + k] == out[k]);
    }
}

} // verus!
