//! Sound channels: which sound plays in which slot of an actor, as the
//! sound natives start, stop and retune them.
use vstd::prelude::*;
use crate::native::{ModifySoundArguments, modify_arguments_of, modify_sound_arguments};
use crate::save::wire::finite_bits;
use crate::text::signed_text;
use crate::value::{ObjectId, ObjectIdModel, Value};
use crate::world::apply::{lemma_table_get_push, lemma_table_get_update};
use crate::world::capture::table_get;
use crate::world::convert::handle_object;
use crate::world::runtime::{ScriptRuntime, SoundChannel};

verus! {

/// Everything but the sound channels is the same in both runtimes.
pub open spec fn sounds_only(a: ScriptRuntime, b: ScriptRuntime) -> bool {
    &&& b.actor_objects@ == a.actor_objects@
    &&& b.actor_classes@ == a.actor_classes@
    &&& b.instances@ == a.instances@
    &&& b.object_instances@ == a.object_instances@
    &&& b.actor_states@ == a.actor_states@
    &&& b.state_revisions@ == a.state_revisions@
    &&& b.state_frames@ == a.state_frames@
    &&& b.timers@ == a.timers@
    &&& b.destroyed@ == a.destroyed@
    &&& b.disabled_events == a.disabled_events
    &&& b.animation_commands@ == a.animation_commands@
    &&& b.animation_channels@ == a.animation_channels@
    &&& b.animating@ == a.animating@
    &&& b.player_probe_touching@ == a.player_probe_touching@
    &&& b.handle_objects@ == a.handle_objects@
    &&& b.random_state == a.random_state
    &&& b.player_alt_fire_pressed == a.player_alt_fire_pressed
    &&& b.player_space_pressed == a.player_space_pressed
    &&& b.active_state_actor == a.active_state_actor
    &&& b.pending_latent == a.pending_latent
    &&& b.next_actor == a.next_actor
}

/// The position of the channel of an actor's slot.
fn find_channel(table: &Vec<((usize, u8), SoundChannel)>, actor: usize, slot: u8) -> (r: Option<usize>)
    ensures
        match r {
            Some(i) => i < table@.len() && table@[i as int].0 == (actor, slot) && table_get(table@, (actor, slot))
                == Some(table@[i as int].1) && forall|j: int| 0 <= j < i ==> table@[j].0 != (actor, slot),
            None => table_get(table@, (actor, slot)) is None && forall|j: int|
                0 <= j < table@.len() ==> table@[j].0 != (actor, slot),
        },
{
    let mut i: usize = 0;
    assert(table@.subrange(0, table@.len() as int) =~= table@);
    while i < table.len()
        invariant
            0 <= i <= table@.len(),
            forall|j: int| 0 <= j < i ==> table@[j].0 != (actor, slot),
            table_get(table@, (actor, slot)) == table_get(table@.subrange(i as int, table@.len() as int), (actor, slot)),
        decreases table@.len() - i,
    {
        let ghost rest = table@.subrange(i as int, table@.len() as int);
        assert(rest[0] == table@[i as int]);
        assert(rest.subrange(1, rest.len() as int) =~= table@.subrange(i + 1, table@.len() as int));
        if table[i].0.0 == actor && table[i].0.1 == slot {
            return Some(i);
        }
        i = i + 1;
    }
    None
}

/// The channels a stop keeps: those of other actors, of other sounds when a
/// sound is named, and of other slots when a slot is named.
pub open spec fn stopped(
    table: Seq<((usize, u8), SoundChannel)>,
    actor: usize,
    sound: Option<ObjectIdModel>,
    slot: Option<u8>,
) -> Seq<((usize, u8), SoundChannel)>
    decreases table.len(),
{
    if table.len() == 0 {
        Seq::empty()
    } else {
        let rest = stopped(table.drop_last(), actor, sound, slot);
        let e = table.last();
        if e.0.0 != actor || (sound is Some && e.1.sound@ != sound->0) || (slot is Some && e.0.1 != slot->0) {
            rest.push(e)
        } else {
            rest
        }
    }
}

spec fn stop_keeps(e: ((usize, u8), SoundChannel), actor: usize, sound: Option<ObjectIdModel>, slot: Option<u8>) -> bool {
    e.0.0 != actor || (sound is Some && e.1.sound@ != sound->0) || (slot is Some && e.0.1 != slot->0)
}

proof fn lemma_stopped_contains(
    table: Seq<((usize, u8), SoundChannel)>,
    actor: usize,
    sound: Option<ObjectIdModel>,
    slot: Option<u8>,
    e: ((usize, u8), SoundChannel),
)
    ensures
        stopped(table, actor, sound, slot).contains(e) <==> (table.contains(e) && stop_keeps(e, actor, sound, slot)),
    decreases table.len(),
{
    if table.len() > 0 {
        let init = table.drop_last();
        let last = table.last();
        lemma_stopped_contains(init, actor, sound, slot, e);
        assert(table =~= init.push(last));
        let rest = stopped(init, actor, sound, slot);
        if stop_keeps(last, actor, sound, slot) {
            assert(rest.push(last).contains(e) <==> (rest.contains(e) || e == last)) by {
                if rest.push(last).contains(e) {
                    let k = choose|k: int| 0 <= k < rest.push(last).len() && rest.push(last)[k] == e;
                    if k < rest.len() {
                        assert(rest[k] == e);
                    }
                }
                if rest.contains(e) {
                    let k = choose|k: int| 0 <= k < rest.len() && rest[k] == e;
                    assert(rest.push(last)[k] == e);
                }
                if e == last {
                    assert(rest.push(last)[rest.len() as int] == e);
                }
            }
        }
        assert(table.contains(e) <==> (init.contains(e) || e == last)) by {
            if table.contains(e) {
                let k = choose|k: int| 0 <= k < table.len() && table[k] == e;
                if k < init.len() {
                    assert(init[k] == e);
                }
            }
            if init.contains(e) {
                let k = choose|k: int| 0 <= k < init.len() && init[k] == e;
                assert(table[k] == e);
            }
            if e == last {
                assert(table[table.len() - 1] == e);
            }
        }
    }
}

/// What `StopSound` keeps: only channels that were there; every channel of
/// another actor; every channel playing another sound than the one named,
/// whether or not a slot is named; every channel in another slot than the
/// one named. No channel of the actor that plays the named sound (any
/// sound when none is named) in the named slot (any slot when none is
/// named) remains.
pub proof fn lemma_stop_sound(
    table: Seq<((usize, u8), SoundChannel)>,
    actor: usize,
    sound: Option<ObjectIdModel>,
    slot: Option<u8>,
)
    ensures
        ({
            let kept = stopped(table, actor, sound, slot);
            &&& forall|e: ((usize, u8), SoundChannel)| #[trigger] kept.contains(e) ==> table.contains(e)
            &&& forall|e: ((usize, u8), SoundChannel)|
                #[trigger] table.contains(e) && e.0.0 != actor ==> kept.contains(e)
            &&& forall|e: ((usize, u8), SoundChannel)|
                #[trigger] table.contains(e) && (sound matches Some(s) && e.1.sound@ != s) ==> kept.contains(e)
            &&& forall|e: ((usize, u8), SoundChannel)|
                #[trigger] table.contains(e) && (slot matches Some(k) && e.0.1 != k) ==> kept.contains(e)
            &&& forall|e: ((usize, u8), SoundChannel)|
                #[trigger] kept.contains(e) ==> !(e.0.0 == actor && (sound matches Some(s) ==> e.1.sound@ == s)
                    && (slot matches Some(k) ==> e.0.1 == k))
        }),
{
    let kept = stopped(table, actor, sound, slot);
    assert forall|e: ((usize, u8), SoundChannel)| #[trigger] kept.contains(e) implies table.contains(e) && !(e.0.0
        == actor && (sound matches Some(s) ==> e.1.sound@ == s) && (slot matches Some(k) ==> e.0.1 == k)) by {
        lemma_stopped_contains(table, actor, sound, slot, e);
    }
    assert forall|e: ((usize, u8), SoundChannel)| #[trigger] table.contains(e) && stop_keeps(e, actor, sound, slot) implies kept.contains(e) by {
        lemma_stopped_contains(table, actor, sound, slot, e);
    }
}

/// The arguments of `StopSound`: at most an optional sound (`None` or
/// handle 0 for any) and an optional slot; nothing for other arguments or a
/// handle that names no object.
pub open spec fn stop_arguments_of(handles: Seq<ObjectId>, arguments: Seq<Value>) -> Option<
    (Option<ObjectIdModel>, Option<u8>),
> {
    if arguments.len() > 2 {
        None
    } else {
        let sound = match if arguments.len() > 0 {
            Some(arguments[0])
        } else {
            None
        } {
            None => Some(None),
            Some(Value::Null) => Some(None),
            Some(Value::Object(h)) => if h == 0 {
                Some(None)
            } else {
                match handle_object(handles, h) {
                    Some(o) => Some(Some(o)),
                    None => None,
                }
            },
            _ => None,
        };
        let slot = match if arguments.len() > 1 {
            Some(arguments[1])
        } else {
            None
        } {
            None => Some(None),
            Some(Value::Null) => Some(None),
            Some(Value::Byte(b)) => Some(Some(b)),
            _ => None,
        };
        match (sound, slot) {
            (Some(s), Some(k)) => Some((s, k)),
            _ => None,
        }
    }
}

/// Whether `ModifySound` finds the channel it names: a slot other than 0
/// of the actor holds a channel, playing the named sound when one is named.
pub open spec fn sound_modified(
    handles: Seq<ObjectId>,
    table: Seq<((usize, u8), SoundChannel)>,
    actor: usize,
    a: ModifySoundArguments,
) -> bool {
    a.slot != 0 && match table_get(table, (actor, a.slot)) {
        Some(c) => match a.sound {
            Some(h) => handle_object(handles, h) == Some(c.sound@),
            None => true,
        },
        None => false,
    }
}

/// `ModifySound` reaches a channel only in a slot other than 0 that holds
/// one; when it names a sound, only a channel playing that sound; when it
/// names none, any channel in the slot.
pub proof fn lemma_sound_modified(
    handles: Seq<ObjectId>,
    table: Seq<((usize, u8), SoundChannel)>,
    actor: usize,
    a: ModifySoundArguments,
)
    ensures
        a.slot == 0 ==> !sound_modified(handles, table, actor, a),
        table_get(table, (actor, a.slot)) is None ==> !sound_modified(handles, table, actor, a),
        a.slot != 0 && a.sound is None && table_get(table, (actor, a.slot)) is Some ==> sound_modified(
            handles,
            table,
            actor,
            a,
        ),
        a.sound matches Some(h) && table_get(table, (actor, a.slot)) matches Some(c) && handle_object(handles, h)
            != Some(c.sound@) ==> !sound_modified(handles, table, actor, a),
        a.slot != 0 ==> (a.sound matches Some(h) && table_get(table, (actor, a.slot)) matches Some(c) && handle_object(
            handles,
            h,
        ) == Some(c.sound@) ==> sound_modified(handles, table, actor, a)),
{
}

/// Whether the sound `ModifySound` names, if it looks at one, is an object.
pub open spec fn named_sound_ok(handles: Seq<ObjectId>, a: ModifySoundArguments) -> bool {
    a.slot == 0 || match a.sound {
        Some(h) => handle_object(handles, h) is Some,
        None => true,
    }
}

impl ScriptRuntime {
    /// The object a script handle names.
    pub fn object_for_handle(&self, handle: i32) -> (r: Result<ObjectId, String>)
        ensures
            match r {
                Ok(o) => handle_object(self.handle_objects@, handle) == Some(o@),
                Err(_) => handle_object(self.handle_objects@, handle) is None,
            },
    {
        if handle > 0 && ((handle - 1) as usize) < self.handle_objects.len() {
            Ok(self.handle_objects[(handle - 1) as usize].duplicate())
        } else {
            Err("invalid object handle ".to_owned().concat(signed_text(handle).as_str()))
        }
    }

    /// Starts `sound` in an actor's slot: slot 0 plays without a channel;
    /// with `no_override` a busy slot keeps its sound and nothing starts;
    /// otherwise the slot's channel becomes the new sound. Whether the sound
    /// starts.
    pub fn start_sound(&mut self, actor: usize, slot: u8, sound: ObjectId, duration: u32, pitch: u32, no_override: bool) -> (r: bool)
        ensures
            sounds_only(*old(self), *final(self)),
            r == (slot == 0 || !(no_override && table_get(old(self).sound_channels@, (actor, slot)) is Some)),
            slot != 0 && r ==> forall|k: (usize, u8)|
                #[trigger] table_get(final(self).sound_channels@, k) == if k == (actor, slot) {
                    Some(SoundChannel { sound, remaining: duration, pitch })
                } else {
                    table_get(old(self).sound_channels@, k)
                },
            !(slot != 0 && r) ==> final(self).sound_channels@ == old(self).sound_channels@,
    {
        if slot == 0 {
            return true;
        }
        let found = find_channel(&self.sound_channels, actor, slot);
        if no_override && found.is_some() {
            return false;
        }
        let ghost before = self.sound_channels@;
        let channel = SoundChannel { sound, remaining: duration, pitch };
        match found {
            Some(i) => {
                proof {
                    lemma_table_get_update(before, i as int, ((actor, slot), channel));
                }
                self.sound_channels.set(i, ((actor, slot), channel));
            },
            None => {
                proof {
                    lemma_table_get_push(before, ((actor, slot), channel));
                }
                self.sound_channels.push(((actor, slot), channel));
            },
        }
        true
    }

    /// Decodes `StopSound(optional sound, optional slot)`, naming the sound
    /// by its object.
    pub fn stop_sound_arguments(&self, arguments: &[Value]) -> (r: Result<(Option<ObjectId>, Option<u8>), String>)
        ensures
            match r {
                Ok((sound, slot)) => stop_arguments_of(self.handle_objects@, arguments@) == Some(
                    (
                        match sound {
                            Some(o) => Some(o@),
                            None => None,
                        },
                        slot,
                    ),
                ),
                Err(_) => stop_arguments_of(self.handle_objects@, arguments@) is None,
            },
    {
        if arguments.len() > 2 {
            return Err("StopSound expects an optional sound and slot".to_owned());
        }
        let sound = if arguments.len() > 0 {
            match &arguments[0] {
                Value::Null => None,
                Value::Object(handle) => if *handle == 0 {
                    None
                } else {
                    Some(self.object_for_handle(*handle)?)
                },
                other => {
                    return Err("StopSound sound is ".to_owned().concat(other.kind()));
                },
            }
        } else {
            None
        };
        let slot = if arguments.len() > 1 {
            match &arguments[1] {
                Value::Null => None,
                Value::Byte(slot) => Some(*slot),
                other => {
                    return Err("StopSound slot is ".to_owned().concat(other.kind()));
                },
            }
        } else {
            None
        };
        Ok((sound, slot))
    }

    /// Stops an actor's channels: all of them, or those playing `sound`, or
    /// the one in `slot`, as named.
    pub fn stop_sound(&mut self, actor: usize, sound: Option<&ObjectId>, slot: Option<u8>)
        ensures
            sounds_only(*old(self), *final(self)),
            final(self).sound_channels@ == stopped(
                old(self).sound_channels@,
                actor,
                match sound {
                    Some(o) => Some(o@),
                    None => None,
                },
                slot,
            ),
    {
        let ghost name = match sound {
            Some(o) => Some(o@),
            None => None,
        };
        let ghost all = self.sound_channels@;
        let n = self.sound_channels.len();
        let mut i: usize = 0;
        let mut j: usize = 0;
        assert(all.take(0) =~= Seq::<((usize, u8), SoundChannel)>::empty());
        assert(all.subrange(0, all.len() as int) =~= all);
        while j < n
            invariant
                n == all.len(),
                0 <= j <= all.len(),
                i <= j,
                sounds_only(*old(self), *self),
                name == match sound {
                    Some(o) => Some(o@),
                    None => None,
                },
                i == stopped(all.take(j as int), actor, name, slot).len(),
                self.sound_channels@ == stopped(all.take(j as int), actor, name, slot) + all.subrange(
                    j as int,
                    all.len() as int,
                ),
            decreases all.len() - j,
        {
            let ghost kept = stopped(all.take(j as int), actor, name, slot);
            assert(all.take(j + 1).drop_last() =~= all.take(j as int));
            assert(all.take(j + 1).last() == all[j as int]);
            assert(self.sound_channels@[i as int] == all[j as int]);
            let entry = &self.sound_channels[i];
            let other_sound = match sound {
                Some(s) => !entry.1.sound.same(s),
                None => false,
            };
            let other_slot = match slot {
                Some(k) => entry.0.1 != k,
                None => false,
            };
            assert(other_sound == (name is Some && all[j as int].1.sound@ != name->0));
            assert(other_slot == (slot is Some && all[j as int].0.1 != slot->0));
            if entry.0.0 != actor || other_sound || other_slot {
                assert(kept.push(all[j as int]) + all.subrange(j + 1, all.len() as int) =~= self.sound_channels@);
                i = i + 1;
            } else {
                self.sound_channels.remove(i);
                assert(kept + all.subrange(j + 1, all.len() as int) =~= self.sound_channels@);
            }
            j = j + 1;
        }
        assert(all.take(all.len() as int) =~= all);
        assert(self.sound_channels@ =~= stopped(all, actor, name, slot));
    }

    /// Runs `ModifySound` for an actor: decodes its arguments, then, when
    /// the value is finite and the named channel is found, retunes it (for
    /// parameter 2, the pitch). Whether the channel was found, so that the
    /// change reaches the mixer.
    pub fn modify_sound(&mut self, actor: usize, arguments: &[Value]) -> (r: Result<bool, String>)
        ensures
            sounds_only(*old(self), *final(self)),
            match r {
                Ok(found) => modify_arguments_of(arguments@) matches Some(a) && finite_bits(a.value) && named_sound_ok(
                    old(self).handle_objects@,
                    a,
                ) && found == sound_modified(old(self).handle_objects@, old(self).sound_channels@, actor, a)
                    && forall|k: (usize, u8)|
                    #[trigger] table_get(final(self).sound_channels@, k) == if found && a.parameter == 2 && k == (
                    actor,
                    a.slot,
                ) {
                    Some(
                        SoundChannel {
                            sound: table_get(old(self).sound_channels@, k)->0.sound,
                            remaining: table_get(old(self).sound_channels@, k)->0.remaining,
                            pitch: a.value,
                        },
                    )
                } else {
                    table_get(old(self).sound_channels@, k)
                },
                Err(_) => final(self).sound_channels@ == old(self).sound_channels@ && match modify_arguments_of(
                    arguments@,
                ) {
                    Some(a) => !finite_bits(a.value) || !named_sound_ok(old(self).handle_objects@, a),
                    None => true,
                },
            },
    {
        let a = modify_sound_arguments(arguments)?;
        if a.value & 0x7f80_0000 == 0x7f80_0000 {
            return Err("ModifySound value must be finite".to_owned());
        }
        if a.slot == 0 {
            return Ok(false);
        }
        let sound = match a.sound {
            None => None,
            Some(handle) => Some(self.object_for_handle(handle)?),
        };
        let at = match find_channel(&self.sound_channels, actor, a.slot) {
            Some(i) => i,
            None => {
                return Ok(false);
            },
        };
        if let Some(s) = &sound {
            if !self.sound_channels[at].1.sound.same(s) {
                return Ok(false);
            }
        }
        if a.parameter == 2 {
            let ghost before = self.sound_channels@;
            let (key, channel) = self.sound_channels.remove(at);
            let retuned = SoundChannel { sound: channel.sound, remaining: channel.remaining, pitch: a.value };
            self.sound_channels.insert(at, (key, retuned));
            proof {
                assert(self.sound_channels@ =~= before.update(at as int, (key, retuned)));
                lemma_table_get_update(before, at as int, (key, retuned));
            }
        }
        Ok(true)
    }
}

} // verus!
