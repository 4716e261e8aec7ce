//! The bookkeeping of spawning and destroying actors.
use vstd::prelude::*;
use crate::error::DispatchError;
use crate::scalar::object_of;
use crate::text::decimal;
use crate::text::decimal_text;
use crate::value::{ObjectId, Value, kind_name, runtime_actor_id};
use crate::world::apply::put;
use crate::world::capture::table_get;
use crate::world::convert::runtime_package;
use crate::world::runtime::{InstanceState, ScriptRuntime, SoundChannel};

verus! {

/// Decodes the class argument of `Spawn(class, optional owner, tag,
/// location, rotation)`: the object handle it names. Fails when there is no
/// class or more than four further arguments, or when the first argument
/// names no object.
pub fn spawn_class_argument(arguments: &[Value]) -> (r: Result<i32, String>)
    ensures
        match r {
            Ok(h) => 1 <= arguments@.len() <= 5 && object_of(arguments@[0]) == Some(h),
            Err(m) => if arguments@.len() == 0 || arguments@.len() > 5 {
                m@ == "Spawn expects a class and at most 4 optional arguments, found "@ + decimal(
                    arguments@.len(),
                )
            } else {
                object_of(arguments@[0]) is None && m@ == "Spawn class is "@ + kind_name(arguments@[0])
                    + ", expected object"@
            },
        },
{
    if arguments.len() == 0 || arguments.len() > 5 {
        let count = decimal_text(arguments.len() as u64);
        return Err("Spawn expects a class and at most 4 optional arguments, found ".to_owned().concat(
            count.as_str(),
        ));
    }
    match &arguments[0] {
        Value::Null => Ok(0),
        Value::Object(h) => Ok(*h),
        other => Err("Spawn class is ".to_owned().concat(other.kind()).concat(", expected object")),
    }
}

/// Removing an entry for another key leaves what a table holds for a key.
pub(crate) proof fn lemma_table_get_remove<K, X>(table: Seq<(K, X)>, i: int, key: K)
    requires
        0 <= i < table.len(),
        table[i].0 != key,
    ensures
        table_get(table.remove(i), key) == table_get(table, key),
    decreases table.len(),
{
    if i == 0 {
        assert(table.remove(0) =~= table.subrange(1, table.len() as int));
    } else if table[0].0 != key {
        let rest = table.subrange(1, table.len() as int);
        lemma_table_get_remove(rest, i - 1, key);
        assert(table.remove(i).subrange(1, table.remove(i).len() as int) =~= rest.remove(i - 1));
    }
}

/// A table without an entry for a key holds nothing for it.
proof fn lemma_table_get_absent<K, X>(table: Seq<(K, X)>, key: K)
    requires
        forall|j: int| 0 <= j < table.len() ==> table[j].0 != key,
    ensures
        table_get(table, key) is None,
    decreases table.len(),
{
    if table.len() > 0 {
        let rest = table.subrange(1, table.len() as int);
        assert forall|j: int| 0 <= j < rest.len() implies rest[j].0 != key by {
            assert(rest[j] == table[j + 1]);
        }
        lemma_table_get_absent(rest, key);
    }
}

/// Drops every entry an actor has in a table keyed by actor.
pub fn remove_entries<X>(table: &mut Vec<(usize, X)>, actor: usize)
    ensures
        forall|a: usize|
            #[trigger] table_get(final(table)@, a) == if a == actor {
                None
            } else {
                table_get(old(table)@, a)
            },
{
    let ghost before = table@;
    let mut i: usize = 0;
    while i < table.len()
        invariant
            0 <= i <= table@.len(),
            forall|j: int| 0 <= j < i ==> table@[j].0 != actor,
            forall|a: usize| a != actor ==> #[trigger] table_get(table@, a) == table_get(before, a),
        decreases table@.len() - i,
    {
        if table[i].0 == actor {
            let ghost current = table@;
            assert forall|a: usize| a != actor implies #[trigger] table_get(current.remove(i as int), a)
                == table_get(before, a) by {
                lemma_table_get_remove(current, i as int, a);
            }
            table.remove(i);
            assert(table@ == current.remove(i as int));
        } else {
            i = i + 1;
        }
    }
    proof {
        lemma_table_get_absent(table@, actor);
    }
}

/// Drops every sound channel of an actor.
pub fn remove_actor_channels(table: &mut Vec<((usize, u8), SoundChannel)>, actor: usize)
    ensures
        forall|k: (usize, u8)|
            #[trigger] table_get(final(table)@, k) == if k.0 == actor {
                None
            } else {
                table_get(old(table)@, k)
            },
{
    let ghost before = table@;
    let mut i: usize = 0;
    while i < table.len()
        invariant
            0 <= i <= table@.len(),
            forall|j: int| 0 <= j < i ==> table@[j].0.0 != actor,
            forall|k: (usize, u8)| k.0 != actor ==> #[trigger] table_get(table@, k) == table_get(before, k),
        decreases table@.len() - i,
    {
        if table[i].0.0 == actor {
            let ghost current = table@;
            assert forall|k: (usize, u8)| k.0 != actor implies #[trigger] table_get(current.remove(i as int), k)
                == table_get(before, k) by {
                lemma_table_get_remove(current, i as int, k);
            }
            table.remove(i);
            assert(table@ == current.remove(i as int));
        } else {
            i = i + 1;
        }
    }
    assert forall|k: (usize, u8)| k.0 == actor implies #[trigger] table_get(table@, k) is None by {
        lemma_table_get_absent(table@, k);
    }
}

/// Drops an actor from a list of actors.
pub fn remove_listed(list: &mut Vec<usize>, actor: usize)
    ensures
        forall|a: usize| #[trigger] final(list)@.contains(a) == (old(list)@.contains(a) && a != actor),
{
    let ghost before = list@;
    let mut i: usize = 0;
    while i < list.len()
        invariant
            0 <= i <= list@.len(),
            forall|j: int| 0 <= j < i ==> list@[j] != actor,
            forall|a: usize| a != actor ==> (#[trigger] list@.contains(a) == before.contains(a)),
            forall|a: usize| #[trigger] list@.contains(a) ==> before.contains(a),
        decreases list@.len() - i,
    {
        if list[i] == actor {
            let ghost current = list@;
            list.remove(i);
            assert forall|a: usize| a != actor implies (#[trigger] list@.contains(a) == current.contains(a)) by {
                if current.contains(a) {
                    let k = choose|k: int| 0 <= k < current.len() && current[k] == a;
                    if k < i {
                        assert(list@[k] == a);
                    } else {
                        assert(k != i);
                        assert(list@[k - 1] == a);
                    }
                }
                if list@.contains(a) {
                    let k = choose|k: int| 0 <= k < list@.len() && list@[k] == a;
                    if k < i {
                        assert(current[k] == a);
                    } else {
                        assert(current[k + 1] == a);
                    }
                }
            }
            assert forall|a: usize| #[trigger] list@.contains(a) implies current.contains(a) by {
                let k = choose|k: int| 0 <= k < list@.len() && list@[k] == a;
                if k < i {
                    assert(current[k] == a);
                } else {
                    assert(current[k + 1] == a);
                }
            }
        } else {
            i = i + 1;
        }
    }
}

/// Adds an actor to a list of actors unless it is listed already.
pub fn insert_listed(list: &mut Vec<usize>, actor: usize)
    ensures
        forall|a: usize| #[trigger] final(list)@.contains(a) == (old(list)@.contains(a) || a == actor),
{
    let mut i: usize = 0;
    while i < list.len()
        invariant
            0 <= i <= list@.len(),
            forall|j: int| 0 <= j < i ==> list@[j] != actor,
        decreases list@.len() - i,
    {
        if list[i] == actor {
            return;
        }
        i = i + 1;
    }
    let ghost before = list@;
    list.push(actor);
    assert forall|a: usize| #[trigger] list@.contains(a) == (before.contains(a) || a == actor) by {
        if before.contains(a) {
            let k = choose|k: int| 0 <= k < before.len() && before[k] == a;
            assert(list@[k] == a);
        }
        if list@.contains(a) {
            let k = choose|k: int| 0 <= k < list@.len() && list@[k] == a;
            if k < before.len() {
                assert(before[k] == a);
            }
        }
        if a == actor {
            assert(list@[before.len() as int] == a);
        }
    }
}

impl ScriptRuntime {
    /// Registers an actor spawned at run time: it takes the next actor
    /// index and is registered under its run-time object with its class and
    /// its property values, in no state and no longer listed as destroyed.
    /// Fails, changing nothing, when no actor index is left after it.
    pub fn register_spawned_actor(&mut self, class: ObjectId, instance: InstanceState) -> (r: Result<usize, DispatchError>)
        ensures
            match r {
                Ok(n) => {
                    &&& n == old(self).next_actor
                    &&& final(self).next_actor == n + 1
                    &&& table_get(final(self).actor_objects@, n) matches Some(o) && o@.package == runtime_package()
                        && o@.export_index == n
                    &&& table_get(final(self).actor_classes@, n) == Some(class)
                    &&& table_get(final(self).instances@, n) == Some(instance)
                    &&& table_get(final(self).actor_states@, n) == Some(None::<String>)
                    &&& !final(self).destroyed@.contains(n)
                    &&& final(self).state_revisions@ == old(self).state_revisions@
                    &&& final(self).state_frames@ == old(self).state_frames@
                    &&& final(self).timers@ == old(self).timers@
                    &&& final(self).disabled_events == old(self).disabled_events
                    &&& final(self).animation_commands@ == old(self).animation_commands@
                    &&& final(self).animation_channels@ == old(self).animation_channels@
                    &&& final(self).animating@ == old(self).animating@
                    &&& final(self).player_probe_touching@ == old(self).player_probe_touching@
                    &&& final(self).sound_channels@ == old(self).sound_channels@
                    &&& final(self).handle_objects@ == old(self).handle_objects@
                    &&& final(self).object_instances@ == old(self).object_instances@
                    &&& forall|a: usize|
                        a != n ==> {
                            &&& #[trigger] table_get(final(self).actor_objects@, a) == table_get(
                                old(self).actor_objects@,
                                a,
                            )
                            &&& table_get(final(self).actor_classes@, a) == table_get(old(self).actor_classes@, a)
                            &&& table_get(final(self).instances@, a) == table_get(old(self).instances@, a)
                            &&& table_get(final(self).actor_states@, a) == table_get(old(self).actor_states@, a)
                            &&& final(self).destroyed@.contains(a) == old(self).destroyed@.contains(a)
                        }
                },
                Err(e) => e is ObjectLimit && old(self).next_actor == usize::MAX && *final(self) == *old(self),
            },
    {
        if self.next_actor == usize::MAX {
            return Err(DispatchError::ObjectLimit);
        }
        let spawned = self.next_actor;
        self.next_actor = spawned + 1;
        put(&mut self.actor_objects, spawned, runtime_actor_id(spawned));
        put(&mut self.actor_classes, spawned, class);
        put(&mut self.actor_states, spawned, None);
        put(&mut self.instances, spawned, instance);
        remove_listed(&mut self.destroyed, spawned);
        proof {
            assert(runtime_package() == "<runtime>"@);
        }
        Ok(spawned)
    }

    /// Finishes destroying an actor: it is listed as destroyed, and loses
    /// its timer, its place among animating actors and its sound channels.
    pub fn forget_destroyed_actor(&mut self, actor: usize)
        ensures
            forall|a: usize| #[trigger] final(self).destroyed@.contains(a) == (old(self).destroyed@.contains(a) || a == actor),
            forall|a: usize|
                #[trigger] table_get(final(self).timers@, a) == if a == actor {
                    None
                } else {
                    table_get(old(self).timers@, a)
                },
            forall|a: usize|
                #[trigger] final(self).animating@.contains(a) == (old(self).animating@.contains(a) && a != actor),
            forall|k: (usize, u8)|
                #[trigger] table_get(final(self).sound_channels@, k) == if k.0 == actor {
                    None
                } else {
                    table_get(old(self).sound_channels@, k)
                },
            final(self).actor_objects@ == old(self).actor_objects@,
            final(self).state_frames@ == old(self).state_frames@,
            final(self).actor_states@ == old(self).actor_states@,
    {
        insert_listed(&mut self.destroyed, actor);
        remove_entries(&mut self.timers, actor);
        remove_listed(&mut self.animating, actor);
        remove_actor_channels(&mut self.sound_channels, actor);
    }
}

} // verus!
