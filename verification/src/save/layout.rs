//! Layout of the records of a snapshot: frames, actors, object instances,
//! animation state and the whole runtime.
use vstd::prelude::*;
use crate::save::model::{
    ActorModel, CommandModel, FrameModel, InstanceModel, ObjectModel, RuntimeModel,
    SavedAnimationChannel, SavedLatent, SavedTimer, ValueModel,
};
use crate::save::wire::{
    MAX_ITEMS, bool_le, finite_bits, i32_le, lemma_bool_roundtrip, lemma_f32_roundtrip,
    lemma_i32_roundtrip, lemma_string_roundtrip, lemma_u16_roundtrip, lemma_u32_roundtrip,
    lemma_u64_roundtrip, lemma_u8_roundtrip, parse_bool, parse_bytes, parse_f32, parse_i32,
    parse_string, parse_u16, parse_u32, parse_u64, parse_u8, string_fits, string_le, u16_le, u32_le,
    u64_le,
};
use crate::save::format::{
    VERSION, counted_le, lemma_counted_roundtrip, lemma_object_roundtrip, lemma_opt_string_roundtrip,
    lemma_top_value_roundtrip, magic, object_canonical, object_le, object_writable, opt_string_fits,
    opt_string_le, parse_counted, parse_object, parse_opt_string, read_top_value, top_value_canonical,
    value_bytes, top_value_ok,
};

verus! {

// ---------------------------------------------------------------------------
// Latent actions

/// The actor a latent action waits on, if any.
pub open spec fn latent_actor(l: SavedLatent) -> Option<usize> {
    match l {
        SavedLatent::FinishAnimation(a) => Some(a),
        SavedLatent::FinishInterpolation(a) => Some(a),
        SavedLatent::MoveTo(a) => Some(a),
        SavedLatent::MoveToward(a) => Some(a),
        SavedLatent::TurnTo(a) => Some(a),
        SavedLatent::TurnToward(a) => Some(a),
        _ => None,
    }
}

pub open spec fn latent_le(l: SavedLatent) -> Seq<u8> {
    match l {
        SavedLatent::Continue => seq![0u8],
        SavedLatent::Stop => seq![1u8],
        SavedLatent::Sleep(b) => seq![2u8] + u32_le(b),
        SavedLatent::FinishAnimation(a) => seq![3u8] + u32_le(a as u32),
        SavedLatent::FinishInterpolation(a) => seq![4u8] + u32_le(a as u32),
        SavedLatent::MoveTo(a) => seq![5u8] + u32_le(a as u32),
        SavedLatent::MoveToward(a) => seq![6u8] + u32_le(a as u32),
        SavedLatent::TurnTo(a) => seq![7u8] + u32_le(a as u32),
        SavedLatent::TurnToward(a) => seq![8u8] + u32_le(a as u32),
    }
}

pub open spec fn latent_writable(l: SavedLatent) -> bool {
    match l {
        SavedLatent::Sleep(b) => finite_bits(b),
        _ => match latent_actor(l) {
            Some(a) => a <= u32::MAX,
            None => true,
        },
    }
}

pub open spec fn parse_latent(s: Seq<u8>) -> Option<(SavedLatent, Seq<u8>)> {
    match parse_u8(s) {
        Some((tag, r)) => if tag == 0 {
            Some((SavedLatent::Continue, r))
        } else if tag == 1 {
            Some((SavedLatent::Stop, r))
        } else if tag == 2 {
            match parse_f32(r) {
                Some((b, after)) => Some((SavedLatent::Sleep(b), after)),
                None => None,
            }
        } else if 3 <= tag <= 8 {
            match parse_u32(r) {
                Some((a, after)) => {
                    let a = a as usize;
                    Some(
                        (
                            if tag == 3 {
                                SavedLatent::FinishAnimation(a)
                            } else if tag == 4 {
                                SavedLatent::FinishInterpolation(a)
                            } else if tag == 5 {
                                SavedLatent::MoveTo(a)
                            } else if tag == 6 {
                                SavedLatent::MoveToward(a)
                            } else if tag == 7 {
                                SavedLatent::TurnTo(a)
                            } else {
                                SavedLatent::TurnToward(a)
                            },
                            after,
                        ),
                    )
                },
                None => None,
            }
        } else {
            None
        },
        None => None,
    }
}

pub proof fn lemma_latent_roundtrip(l: SavedLatent, rest: Seq<u8>)
    requires
        latent_writable(l),
    ensures
        parse_latent(latent_le(l) + rest) == Some((l, rest)),
{
    let s = latent_le(l) + rest;
    match l {
        SavedLatent::Continue => lemma_u8_roundtrip(0u8, rest),
        SavedLatent::Stop => lemma_u8_roundtrip(1u8, rest),
        SavedLatent::Sleep(b) => {
            assert(s =~= seq![2u8] + (u32_le(b) + rest));
            lemma_u8_roundtrip(2u8, u32_le(b) + rest);
            lemma_f32_roundtrip(b, rest);
        },
        _ => {
            let a = latent_actor(l)->0;
            let tag = s[0];
            assert(s =~= seq![tag] + (u32_le(a as u32) + rest));
            lemma_u8_roundtrip(tag, u32_le(a as u32) + rest);
            lemma_u32_roundtrip(a as u32, rest);
        },
    }
}

// ---------------------------------------------------------------------------
// Frames

/// A frame local: its property index, then its value.
pub open spec fn local_le() -> spec_fn((i32, ValueModel)) -> Seq<u8> {
    |p: (i32, ValueModel)| i32_le(p.0) + value_bytes(p.1)
}

pub open spec fn parse_local() -> spec_fn(Seq<u8>) -> Option<((i32, ValueModel), Seq<u8>)> {
    |s: Seq<u8>|
        match parse_i32(s) {
            Some((k, r)) => match read_top_value(r) {
                Some((v, after)) => Some(((k, v), after)),
                None => None,
            },
            None => None,
        }
}

#[verifier::opaque]
pub open spec fn frame_le(f: FrameModel) -> Seq<u8> {
    object_le(f.state) + u32_le(f.instruction_pointer) + counted_le(f.locals, local_le()) + latent_le(
        f.latent,
    )
}

pub open spec fn frame_writable(f: FrameModel) -> bool {
    &&& object_writable(f.state)
    &&& f.locals.len() <= MAX_ITEMS
    &&& forall|i: int| 0 <= i < f.locals.len() ==> top_value_ok(#[trigger] f.locals[i].1)
    &&& latent_writable(f.latent)
}

pub open spec fn frame_canonical(f: FrameModel) -> bool {
    &&& object_canonical(f.state)
    &&& forall|i: int| 0 <= i < f.locals.len() ==> top_value_canonical(#[trigger] f.locals[i].1)
}

#[verifier::opaque]
pub open spec fn parse_frame(s: Seq<u8>) -> Option<(FrameModel, Seq<u8>)> {
    match parse_object(s) {
        Some((state, r1)) => match parse_u32(r1) {
            Some((ip, r2)) => match parse_counted(r2, parse_local()) {
                Some((locals, r3)) => match parse_latent(r3) {
                    Some((latent, after)) => Some(
                        (FrameModel { state, instruction_pointer: ip, locals, latent }, after),
                    ),
                    None => None,
                },
                None => None,
            },
            None => None,
        },
        None => None,
    }
}

pub proof fn lemma_frame_roundtrip(f: FrameModel, rest: Seq<u8>)
    requires
        frame_writable(f),
        frame_canonical(f),
    ensures
        parse_frame(frame_le(f) + rest) == Some((f, rest)),
{
    reveal(parse_frame);
    reveal(frame_le);
    let r3 = latent_le(f.latent) + rest;
    let r2 = counted_le(f.locals, local_le()) + r3;
    let r1 = u32_le(f.instruction_pointer) + r2;
    assert(frame_le(f) + rest =~= object_le(f.state) + r1);
    lemma_object_roundtrip(f.state, r1);
    lemma_u32_roundtrip(f.instruction_pointer, r2);
    assert forall|i: int, r: Seq<u8>| 0 <= i < f.locals.len() implies #[trigger] (parse_local())(
        (local_le())(f.locals[i]) + r,
    ) == Some((f.locals[i], r)) by {
        let p = f.locals[i];
        assert((local_le())(p) + r =~= i32_le(p.0) + (value_bytes(p.1) + r));
        lemma_i32_roundtrip(p.0, value_bytes(p.1) + r);
        lemma_top_value_roundtrip(p.1, r);
    }
    lemma_counted_roundtrip(f.locals, local_le(), parse_local(), r3);
    lemma_latent_roundtrip(f.latent, rest);
}

// ---------------------------------------------------------------------------
// Actors

/// An instance field: the property object, then its value.
pub open spec fn pair_le() -> spec_fn((ObjectModel, ValueModel)) -> Seq<u8> {
    |p: (ObjectModel, ValueModel)| object_le(p.0) + value_bytes(p.1)
}

pub open spec fn parse_pair() -> spec_fn(Seq<u8>) -> Option<((ObjectModel, ValueModel), Seq<u8>)> {
    |s: Seq<u8>|
        match parse_object(s) {
            Some((o, r)) => match read_top_value(r) {
                Some((v, after)) => Some(((o, v), after)),
                None => None,
            },
            None => None,
        }
}

pub open spec fn pairs_writable(pairs: Seq<(ObjectModel, ValueModel)>) -> bool {
    &&& pairs.len() <= MAX_ITEMS
    &&& forall|i: int|
        #![trigger pairs[i]]
        0 <= i < pairs.len() ==> object_writable(pairs[i].0) && top_value_ok(pairs[i].1)
}

pub open spec fn pairs_canonical(pairs: Seq<(ObjectModel, ValueModel)>) -> bool {
    forall|i: int|
        #![trigger pairs[i]]
        0 <= i < pairs.len() ==> object_canonical(pairs[i].0) && top_value_canonical(pairs[i].1)
}

pub proof fn lemma_pairs_roundtrip(pairs: Seq<(ObjectModel, ValueModel)>, rest: Seq<u8>)
    requires
        pairs_writable(pairs),
        pairs_canonical(pairs),
    ensures
        parse_counted(counted_le(pairs, pair_le()) + rest, parse_pair()) == Some((pairs, rest)),
{
    assert forall|i: int, r: Seq<u8>| 0 <= i < pairs.len() implies #[trigger] (parse_pair())(
        (pair_le())(pairs[i]) + r,
    ) == Some((pairs[i], r)) by {
        let p = pairs[i];
        assert((pair_le())(p) + r =~= object_le(p.0) + (value_bytes(p.1) + r));
        lemma_object_roundtrip(p.0, value_bytes(p.1) + r);
        lemma_top_value_roundtrip(p.1, r);
    }
    lemma_counted_roundtrip(pairs, pair_le(), parse_pair(), rest);
}

/// A disabled event: the state it is scoped to, if any, then its name.
pub open spec fn event_le() -> spec_fn((Option<Seq<char>>, Seq<char>)) -> Seq<u8> {
    |e: (Option<Seq<char>>, Seq<char>)| opt_string_le(e.0) + string_le(e.1)
}

pub open spec fn parse_event() -> spec_fn(Seq<u8>) -> Option<((Option<Seq<char>>, Seq<char>), Seq<u8>)> {
    |s: Seq<u8>|
        match parse_opt_string(s) {
            Some((state, r)) => match parse_string(r) {
                Some((name, after)) => Some(((state, name), after)),
                None => None,
            },
            None => None,
        }
}

pub open spec fn opt_frame_le(f: Option<FrameModel>) -> Seq<u8> {
    match f {
        Some(f) => bool_le(true) + frame_le(f),
        None => bool_le(false),
    }
}

pub open spec fn parse_opt_frame(s: Seq<u8>) -> Option<(Option<FrameModel>, Seq<u8>)> {
    match parse_bool(s) {
        Some((present, r)) => if present {
            match parse_frame(r) {
                Some((f, after)) => Some((Some(f), after)),
                None => None,
            }
        } else {
            Some((None, r))
        },
        None => None,
    }
}

pub open spec fn opt_timer_le(t: Option<SavedTimer>) -> Seq<u8> {
    match t {
        Some(t) => bool_le(true) + u32_le(t.remaining) + u32_le(t.rate) + bool_le(t.looping),
        None => bool_le(false),
    }
}

pub open spec fn parse_opt_timer(s: Seq<u8>) -> Option<(Option<SavedTimer>, Seq<u8>)> {
    match parse_bool(s) {
        Some((present, r)) => if present {
            match parse_f32(r) {
                Some((remaining, r2)) => match parse_f32(r2) {
                    Some((rate, r3)) => match parse_bool(r3) {
                        Some((looping, after)) => Some(
                            (Some(SavedTimer { remaining, rate, looping }), after),
                        ),
                        None => None,
                    },
                    None => None,
                },
                None => None,
            }
        } else {
            Some((None, r))
        },
        None => None,
    }
}

#[verifier::opaque]
pub open spec fn actor_le(a: ActorModel) -> Seq<u8> {
    u32_le(a.actor as u32) + (object_le(a.object) + (object_le(a.class) + (counted_le(
        a.instance,
        pair_le(),
    ) + (opt_string_le(a.state) + (u64_le(a.state_revision) + (opt_frame_le(a.frame) + (
    opt_timer_le(a.timer) + (bool_le(a.destroyed) + counted_le(a.disabled_events, event_le())))))))))
}

pub open spec fn actor_writable(a: ActorModel) -> bool {
    &&& a.actor <= u32::MAX
    &&& object_writable(a.object)
    &&& object_writable(a.class)
    &&& pairs_writable(a.instance)
    &&& opt_string_fits(a.state)
    &&& (a.frame matches Some(f) ==> frame_writable(f))
    &&& (a.timer matches Some(t) ==> finite_bits(t.remaining) && finite_bits(t.rate))
    &&& a.disabled_events.len() <= MAX_ITEMS
    &&& forall|i: int|
        #![trigger a.disabled_events[i]]
        0 <= i < a.disabled_events.len() ==> opt_string_fits(a.disabled_events[i].0)
            && string_fits(a.disabled_events[i].1)
}

pub open spec fn actor_canonical(a: ActorModel) -> bool {
    &&& object_canonical(a.object)
    &&& object_canonical(a.class)
    &&& pairs_canonical(a.instance)
    &&& (a.frame matches Some(f) ==> frame_canonical(f))
}

#[verifier::opaque]
pub open spec fn parse_actor(s: Seq<u8>) -> Option<(ActorModel, Seq<u8>)> {
    match parse_u32(s) {
        Some((actor, r1)) => match parse_object(r1) {
            Some((object, r2)) => match parse_object(r2) {
                Some((class, r3)) => match parse_counted(r3, parse_pair()) {
                    Some((instance, r4)) => match parse_opt_string(r4) {
                        Some((state, r5)) => match parse_u64(r5) {
                            Some((state_revision, r6)) => match parse_opt_frame(r6) {
                                Some((frame, r7)) => match parse_opt_timer(r7) {
                                    Some((timer, r8)) => match parse_bool(r8) {
                                        Some((destroyed, r9)) => match parse_counted(r9, parse_event()) {
                                            Some((disabled_events, after)) => Some(
                                                (
                                                    ActorModel {
                                                        actor: actor as usize,
                                                        object,
                                                        class,
                                                        instance,
                                                        state,
                                                        state_revision,
                                                        frame,
                                                        timer,
                                                        destroyed,
                                                        disabled_events,
                                                    },
                                                    after,
                                                ),
                                            ),
                                            None => None,
                                        },
                                        None => None,
                                    },
                                    None => None,
                                },
                                None => None,
                            },
                            None => None,
                        },
                        None => None,
                    },
                    None => None,
                },
                None => None,
            },
            None => None,
        },
        None => None,
    }
}

pub proof fn lemma_opt_frame_roundtrip(f: Option<FrameModel>, rest: Seq<u8>)
    requires
        f matches Some(x) ==> frame_writable(x) && frame_canonical(x),
    ensures
        parse_opt_frame(opt_frame_le(f) + rest) == Some((f, rest)),
{
    match f {
        Some(x) => {
            assert(opt_frame_le(f) + rest =~= bool_le(true) + (frame_le(x) + rest));
            lemma_bool_roundtrip(true, frame_le(x) + rest);
            lemma_frame_roundtrip(x, rest);
        },
        None => lemma_bool_roundtrip(false, rest),
    }
}

pub proof fn lemma_opt_timer_roundtrip(t: Option<SavedTimer>, rest: Seq<u8>)
    requires
        t matches Some(x) ==> finite_bits(x.remaining) && finite_bits(x.rate),
    ensures
        parse_opt_timer(opt_timer_le(t) + rest) == Some((t, rest)),
{
    match t {
        Some(x) => {
            let r2 = bool_le(x.looping) + rest;
            let r1 = u32_le(x.rate) + r2;
            assert(opt_timer_le(t) + rest =~= bool_le(true) + (u32_le(x.remaining) + r1));
            lemma_bool_roundtrip(true, u32_le(x.remaining) + r1);
            lemma_f32_roundtrip(x.remaining, r1);
            lemma_f32_roundtrip(x.rate, r2);
            lemma_bool_roundtrip(x.looping, rest);
        },
        None => lemma_bool_roundtrip(false, rest),
    }
}

pub proof fn lemma_events_roundtrip(events: Seq<(Option<Seq<char>>, Seq<char>)>, rest: Seq<u8>)
    requires
        events.len() <= MAX_ITEMS,
        forall|i: int|
            #![trigger events[i]]
            0 <= i < events.len() ==> opt_string_fits(events[i].0) && string_fits(events[i].1),
    ensures
        parse_counted(counted_le(events, event_le()) + rest, parse_event()) == Some((events, rest)),
{
    assert forall|i: int, r: Seq<u8>| 0 <= i < events.len() implies #[trigger] (parse_event())(
        (event_le())(events[i]) + r,
    ) == Some((events[i], r)) by {
        let e = events[i];
        assert((event_le())(e) + r =~= opt_string_le(e.0) + (string_le(e.1) + r));
        lemma_opt_string_roundtrip(e.0, string_le(e.1) + r);
        lemma_string_roundtrip(e.1, r);
    }
    lemma_counted_roundtrip(events, event_le(), parse_event(), rest);
}

proof fn lemma_actor_bytes(a: ActorModel, rest: Seq<u8>)
    ensures
        actor_le(a) + rest == u32_le(a.actor as u32) + (object_le(a.object) + (object_le(a.class) + (
        counted_le(a.instance, pair_le()) + (opt_string_le(a.state) + (u64_le(a.state_revision) + (
        opt_frame_le(a.frame) + (opt_timer_le(a.timer) + (bool_le(a.destroyed) + (counted_le(
            a.disabled_events,
            event_le(),
        ) + rest))))))))),
{
    reveal(actor_le);
    let e9 = counted_le(a.disabled_events, event_le());
    let e8 = bool_le(a.destroyed);
    let e7 = opt_timer_le(a.timer);
    let e6 = opt_frame_le(a.frame);
    let e5 = u64_le(a.state_revision);
    let e4 = opt_string_le(a.state);
    let e3 = counted_le(a.instance, pair_le());
    let e2 = object_le(a.class);
    let e1 = object_le(a.object);
    let e0 = u32_le(a.actor as u32);
    let t8 = e8 + e9;
    let t7 = e7 + t8;
    let t6 = e6 + t7;
    let t5 = e5 + t6;
    let t4 = e4 + t5;
    let t3 = e3 + t4;
    let t2 = e2 + t3;
    let t1 = e1 + t2;
    vstd::seq_lib::lemma_concat_associative(e0, t1, rest);
    vstd::seq_lib::lemma_concat_associative(e1, t2, rest);
    vstd::seq_lib::lemma_concat_associative(e2, t3, rest);
    vstd::seq_lib::lemma_concat_associative(e3, t4, rest);
    vstd::seq_lib::lemma_concat_associative(e4, t5, rest);
    vstd::seq_lib::lemma_concat_associative(e5, t6, rest);
    vstd::seq_lib::lemma_concat_associative(e6, t7, rest);
    vstd::seq_lib::lemma_concat_associative(e7, t8, rest);
    vstd::seq_lib::lemma_concat_associative(e8, e9, rest);
}

pub proof fn lemma_actor_roundtrip(a: ActorModel, rest: Seq<u8>)
    requires
        actor_writable(a),
        actor_canonical(a),
    ensures
        parse_actor(actor_le(a) + rest) == Some((a, rest)),
{
    reveal(parse_actor);
    reveal(actor_le);
    let r9 = counted_le(a.disabled_events, event_le()) + rest;
    let r8 = bool_le(a.destroyed) + r9;
    let r7 = opt_timer_le(a.timer) + r8;
    let r6 = opt_frame_le(a.frame) + r7;
    let r5 = u64_le(a.state_revision) + r6;
    let r4 = opt_string_le(a.state) + r5;
    let r3 = counted_le(a.instance, pair_le()) + r4;
    let r2 = object_le(a.class) + r3;
    let r1 = object_le(a.object) + r2;
    lemma_actor_bytes(a, rest);
    lemma_u32_roundtrip(a.actor as u32, r1);
    lemma_object_roundtrip(a.object, r2);
    lemma_object_roundtrip(a.class, r3);
    lemma_pairs_roundtrip(a.instance, r4);
    lemma_opt_string_roundtrip(a.state, r5);
    lemma_u64_roundtrip(a.state_revision, r6);
    lemma_opt_frame_roundtrip(a.frame, r7);
    lemma_opt_timer_roundtrip(a.timer, r8);
    lemma_bool_roundtrip(a.destroyed, r9);
    lemma_events_roundtrip(a.disabled_events, rest);
}

// ---------------------------------------------------------------------------
// Object instances, animation state

#[verifier::opaque]
pub open spec fn instance_le(i: InstanceModel) -> Seq<u8> {
    object_le(i.object) + object_le(i.class) + counted_le(i.instance, pair_le())
}

pub open spec fn instance_writable(i: InstanceModel) -> bool {
    object_writable(i.object) && object_writable(i.class) && pairs_writable(i.instance)
}

pub open spec fn instance_canonical(i: InstanceModel) -> bool {
    object_canonical(i.object) && object_canonical(i.class) && pairs_canonical(i.instance)
}

#[verifier::opaque]
pub open spec fn parse_instance(s: Seq<u8>) -> Option<(InstanceModel, Seq<u8>)> {
    match parse_object(s) {
        Some((object, r1)) => match parse_object(r1) {
            Some((class, r2)) => match parse_counted(r2, parse_pair()) {
                Some((instance, after)) => Some((InstanceModel { object, class, instance }, after)),
                None => None,
            },
            None => None,
        },
        None => None,
    }
}

pub proof fn lemma_instance_roundtrip(i: InstanceModel, rest: Seq<u8>)
    requires
        instance_writable(i),
        instance_canonical(i),
    ensures
        parse_instance(instance_le(i) + rest) == Some((i, rest)),
{
    reveal(parse_instance);
    reveal(instance_le);
    let r2 = counted_le(i.instance, pair_le()) + rest;
    let r1 = object_le(i.class) + r2;
    assert(instance_le(i) + rest =~= object_le(i.object) + r1);
    lemma_object_roundtrip(i.object, r1);
    lemma_object_roundtrip(i.class, r2);
    lemma_pairs_roundtrip(i.instance, rest);
}

#[verifier::opaque]
pub open spec fn command_le(c: CommandModel) -> Seq<u8> {
    u32_le(c.actor as u32) + string_le(c.sequence) + u32_le(c.relative_rate) + u32_le(c.tween_time)
        + bool_le(c.looping) + bool_le(c.tween_only) + bool_le(c.root_motion)
}

pub open spec fn command_writable(c: CommandModel) -> bool {
    c.actor <= u32::MAX && string_fits(c.sequence) && finite_bits(c.relative_rate) && finite_bits(
        c.tween_time,
    )
}

#[verifier::opaque]
pub open spec fn parse_command(s: Seq<u8>) -> Option<(CommandModel, Seq<u8>)> {
    match parse_u32(s) {
        Some((actor, r1)) => match parse_string(r1) {
            Some((sequence, r2)) => match parse_f32(r2) {
                Some((relative_rate, r3)) => match parse_f32(r3) {
                    Some((tween_time, r4)) => match parse_bool(r4) {
                        Some((looping, r5)) => match parse_bool(r5) {
                            Some((tween_only, r6)) => match parse_bool(r6) {
                                Some((root_motion, after)) => Some(
                                    (
                                        CommandModel {
                                            actor: actor as usize,
                                            sequence,
                                            relative_rate,
                                            tween_time,
                                            looping,
                                            tween_only,
                                            root_motion,
                                        },
                                        after,
                                    ),
                                ),
                                None => None,
                            },
                            None => None,
                        },
                        None => None,
                    },
                    None => None,
                },
                None => None,
            },
            None => None,
        },
        None => None,
    }
}

pub proof fn lemma_command_roundtrip(c: CommandModel, rest: Seq<u8>)
    requires
        command_writable(c),
    ensures
        parse_command(command_le(c) + rest) == Some((c, rest)),
{
    reveal(parse_command);
    reveal(command_le);
    let r6 = bool_le(c.root_motion) + rest;
    let r5 = bool_le(c.tween_only) + r6;
    let r4 = bool_le(c.looping) + r5;
    let r3 = u32_le(c.tween_time) + r4;
    let r2 = u32_le(c.relative_rate) + r3;
    let r1 = string_le(c.sequence) + r2;
    assert(command_le(c) + rest =~= u32_le(c.actor as u32) + r1);
    lemma_u32_roundtrip(c.actor as u32, r1);
    lemma_string_roundtrip(c.sequence, r2);
    lemma_f32_roundtrip(c.relative_rate, r3);
    lemma_f32_roundtrip(c.tween_time, r4);
    lemma_bool_roundtrip(c.looping, r5);
    lemma_bool_roundtrip(c.tween_only, r6);
    lemma_bool_roundtrip(c.root_motion, rest);
}

pub open spec fn channel_le() -> spec_fn(SavedAnimationChannel) -> Seq<u8> {
    |c: SavedAnimationChannel|
        u32_le(c.actor as u32) + u32_le(c.root_bone as u32) + u32_le(c.target as u32)
}

pub open spec fn parse_channel() -> spec_fn(Seq<u8>) -> Option<(SavedAnimationChannel, Seq<u8>)> {
    |s: Seq<u8>|
        match parse_u32(s) {
            Some((actor, r1)) => match parse_u32(r1) {
                Some((root_bone, r2)) => match parse_u32(r2) {
                    Some((target, after)) => Some(
                        (
                            SavedAnimationChannel {
                                actor: actor as usize,
                                root_bone: root_bone as usize,
                                target: target as usize,
                            },
                            after,
                        ),
                    ),
                    None => None,
                },
                None => None,
            },
            None => None,
        }
}

pub open spec fn channel_writable(c: SavedAnimationChannel) -> bool {
    c.actor <= u32::MAX && c.root_bone <= u32::MAX && c.target <= u32::MAX
}

/// An actor index in a list.
pub open spec fn index_le() -> spec_fn(usize) -> Seq<u8> {
    |a: usize| u32_le(a as u32)
}

pub open spec fn parse_index() -> spec_fn(Seq<u8>) -> Option<(usize, Seq<u8>)> {
    |s: Seq<u8>|
        match parse_u32(s) {
            Some((a, after)) => Some((a as usize, after)),
            None => None,
        }
}

pub open spec fn indices_writable(xs: Seq<usize>) -> bool {
    xs.len() <= MAX_ITEMS && forall|i: int| 0 <= i < xs.len() ==> #[trigger] xs[i] <= u32::MAX
}

pub proof fn lemma_indices_roundtrip(xs: Seq<usize>, rest: Seq<u8>)
    requires
        indices_writable(xs),
    ensures
        parse_counted(counted_le(xs, index_le()) + rest, parse_index()) == Some((xs, rest)),
{
    assert forall|i: int, r: Seq<u8>| 0 <= i < xs.len() implies #[trigger] (parse_index())(
        (index_le())(xs[i]) + r,
    ) == Some((xs[i], r)) by {
        lemma_u32_roundtrip(xs[i] as u32, r);
    }
    lemma_counted_roundtrip(xs, index_le(), parse_index(), rest);
}

// ---------------------------------------------------------------------------
// The whole snapshot

pub open spec fn actor_encoder() -> spec_fn(ActorModel) -> Seq<u8> {
    |a: ActorModel| actor_le(a)
}

pub open spec fn actor_parser() -> spec_fn(Seq<u8>) -> Option<(ActorModel, Seq<u8>)> {
    |s: Seq<u8>| parse_actor(s)
}

pub open spec fn instance_encoder() -> spec_fn(InstanceModel) -> Seq<u8> {
    |i: InstanceModel| instance_le(i)
}

pub open spec fn instance_parser() -> spec_fn(Seq<u8>) -> Option<(InstanceModel, Seq<u8>)> {
    |s: Seq<u8>| parse_instance(s)
}

pub open spec fn command_encoder() -> spec_fn(CommandModel) -> Seq<u8> {
    |c: CommandModel| command_le(c)
}

pub open spec fn command_parser() -> spec_fn(Seq<u8>) -> Option<(CommandModel, Seq<u8>)> {
    |s: Seq<u8>| parse_command(s)
}

/// The bytes of a whole snapshot.
#[verifier::opaque]
pub open spec fn runtime_le(m: RuntimeModel) -> Seq<u8> {
    magic() + (u16_le(VERSION) + (string_le(m.map) + (u32_le(m.random_state) + (bool_le(
        m.player_alt_fire_pressed,
    ) + (counted_le(m.actors, actor_encoder()) + (counted_le(m.object_instances, instance_encoder())
        + (counted_le(m.animation_commands, command_encoder()) + (counted_le(
        m.animation_channels,
        channel_le(),
    ) + (counted_le(m.animating, index_le()) + counted_le(m.player_probe_touching, index_le()))))))))))
}

/// Whether every part of a snapshot is within the format's limits.
pub open spec fn runtime_writable(m: RuntimeModel) -> bool {
    &&& string_fits(m.map)
    &&& m.actors.len() <= MAX_ITEMS
    &&& forall|i: int| 0 <= i < m.actors.len() ==> actor_writable(#[trigger] m.actors[i])
    &&& m.object_instances.len() <= MAX_ITEMS
    &&& forall|i: int|
        0 <= i < m.object_instances.len() ==> instance_writable(#[trigger] m.object_instances[i])
    &&& m.animation_commands.len() <= MAX_ITEMS
    &&& forall|i: int|
        0 <= i < m.animation_commands.len() ==> command_writable(#[trigger] m.animation_commands[i])
    &&& m.animation_channels.len() <= MAX_ITEMS
    &&& forall|i: int|
        0 <= i < m.animation_channels.len() ==> channel_writable(#[trigger] m.animation_channels[i])
    &&& indices_writable(m.animating)
    &&& indices_writable(m.player_probe_touching)
}

/// Whether every object of a snapshot is in the form the reader gives back.
pub open spec fn runtime_canonical(m: RuntimeModel) -> bool {
    &&& forall|i: int| 0 <= i < m.actors.len() ==> actor_canonical(#[trigger] m.actors[i])
    &&& forall|i: int|
        0 <= i < m.object_instances.len() ==> instance_canonical(#[trigger] m.object_instances[i])
}

/// A whole snapshot: magic, version, the map, the runtime's scalars and its
/// collections, with nothing after them.
pub open spec fn parse_runtime(s: Seq<u8>) -> Option<RuntimeModel> {
    match parse_bytes(s, 4) {
        Some((head, r0)) => if head != magic() {
            None
        } else {
            match parse_u16(r0) {
                Some((version, r1)) => if version != VERSION {
                    None
                } else {
                    parse_runtime_body(r1)
                },
                None => None,
            }
        },
        None => None,
    }
}

pub open spec fn parse_runtime_body(s: Seq<u8>) -> Option<RuntimeModel> {
    match parse_string(s) {
        Some((map, r1)) => match parse_u32(r1) {
            Some((random_state, r2)) => match parse_bool(r2) {
                Some((player_alt_fire_pressed, r3)) => match parse_counted(r3, actor_parser()) {
                    Some((actors, r4)) => match parse_counted(r4, instance_parser()) {
                        Some((object_instances, r5)) => match parse_counted(r5, command_parser()) {
                            Some((animation_commands, r6)) => match parse_counted(
                                r6,
                                parse_channel(),
                            ) {
                                Some((animation_channels, r7)) => match parse_counted(
                                    r7,
                                    parse_index(),
                                ) {
                                    Some((animating, r8)) => match parse_counted(r8, parse_index()) {
                                        Some((player_probe_touching, r9)) => if r9.len() == 0 {
                                            Some(
                                                RuntimeModel {
                                                    map,
                                                    random_state,
                                                    player_alt_fire_pressed,
                                                    actors,
                                                    object_instances,
                                                    animation_commands,
                                                    animation_channels,
                                                    animating,
                                                    player_probe_touching,
                                                },
                                            )
                                        } else {
                                            None
                                        },
                                        None => None,
                                    },
                                    None => None,
                                },
                                None => None,
                            },
                            None => None,
                        },
                        None => None,
                    },
                    None => None,
                },
                None => None,
            },
            None => None,
        },
        None => None,
    }
}

proof fn lemma_actors_roundtrip(xs: Seq<ActorModel>, rest: Seq<u8>)
    requires
        xs.len() <= MAX_ITEMS,
        forall|i: int| 0 <= i < xs.len() ==> actor_writable(#[trigger] xs[i]),
        forall|i: int| 0 <= i < xs.len() ==> actor_canonical(#[trigger] xs[i]),
    ensures
        parse_counted(counted_le(xs, actor_encoder()) + rest, actor_parser()) == Some((xs, rest)),
{
    assert forall|i: int, r: Seq<u8>| 0 <= i < xs.len() implies #[trigger] (actor_parser())(
        (actor_encoder())(xs[i]) + r,
    ) == Some((xs[i], r)) by {
        lemma_actor_roundtrip(xs[i], r);
    }
    lemma_counted_roundtrip(xs, actor_encoder(), actor_parser(), rest);
}

proof fn lemma_instances_roundtrip(xs: Seq<InstanceModel>, rest: Seq<u8>)
    requires
        xs.len() <= MAX_ITEMS,
        forall|i: int| 0 <= i < xs.len() ==> instance_writable(#[trigger] xs[i]),
        forall|i: int| 0 <= i < xs.len() ==> instance_canonical(#[trigger] xs[i]),
    ensures
        parse_counted(counted_le(xs, instance_encoder()) + rest, instance_parser()) == Some(
            (xs, rest),
        ),
{
    assert forall|i: int, r: Seq<u8>| 0 <= i < xs.len() implies #[trigger] (instance_parser())(
        (instance_encoder())(xs[i]) + r,
    ) == Some((xs[i], r)) by {
        lemma_instance_roundtrip(xs[i], r);
    }
    lemma_counted_roundtrip(xs, instance_encoder(), instance_parser(), rest);
}

proof fn lemma_commands_roundtrip(xs: Seq<CommandModel>, rest: Seq<u8>)
    requires
        xs.len() <= MAX_ITEMS,
        forall|i: int| 0 <= i < xs.len() ==> command_writable(#[trigger] xs[i]),
    ensures
        parse_counted(counted_le(xs, command_encoder()) + rest, command_parser()) == Some((xs, rest)),
{
    assert forall|i: int, r: Seq<u8>| 0 <= i < xs.len() implies #[trigger] (command_parser())(
        (command_encoder())(xs[i]) + r,
    ) == Some((xs[i], r)) by {
        lemma_command_roundtrip(xs[i], r);
    }
    lemma_counted_roundtrip(xs, command_encoder(), command_parser(), rest);
}

proof fn lemma_channels_roundtrip(xs: Seq<SavedAnimationChannel>, rest: Seq<u8>)
    requires
        xs.len() <= MAX_ITEMS,
        forall|i: int| 0 <= i < xs.len() ==> channel_writable(#[trigger] xs[i]),
    ensures
        parse_counted(counted_le(xs, channel_le()) + rest, parse_channel()) == Some((xs, rest)),
{
    assert forall|i: int, r: Seq<u8>| 0 <= i < xs.len() implies #[trigger] (parse_channel())(
        (channel_le())(xs[i]) + r,
    ) == Some((xs[i], r)) by {
        let c = xs[i];
        assert((channel_le())(c) + r =~= u32_le(c.actor as u32) + (u32_le(c.root_bone as u32) + (
        u32_le(c.target as u32) + r)));
        lemma_u32_roundtrip(c.actor as u32, u32_le(c.root_bone as u32) + (u32_le(c.target as u32)
            + r));
        lemma_u32_roundtrip(c.root_bone as u32, u32_le(c.target as u32) + r);
        lemma_u32_roundtrip(c.target as u32, r);
    }
    lemma_counted_roundtrip(xs, channel_le(), parse_channel(), rest);
}

/// Reading back a written snapshot gives the snapshot that was written.
pub proof fn lemma_runtime_roundtrip(m: RuntimeModel)
    requires
        runtime_writable(m),
        runtime_canonical(m),
    ensures
        parse_runtime(runtime_le(m)) == Some(m),
{
    reveal(runtime_le);
    let r8 = counted_le(m.player_probe_touching, index_le());
    let r7 = counted_le(m.animating, index_le()) + r8;
    let r6 = counted_le(m.animation_channels, channel_le()) + r7;
    let r5 = counted_le(m.animation_commands, command_encoder()) + r6;
    let r4 = counted_le(m.object_instances, instance_encoder()) + r5;
    let r3 = counted_le(m.actors, actor_encoder()) + r4;
    let r2 = bool_le(m.player_alt_fire_pressed) + r3;
    let r1 = u32_le(m.random_state) + r2;
    let body = string_le(m.map) + r1;
    let r0 = u16_le(VERSION) + body;
    assert(runtime_le(m) == magic() + r0);
    assert((magic() + r0).take(4) =~= magic());
    assert((magic() + r0).skip(4) =~= r0);
    lemma_u16_roundtrip(VERSION, body);
    lemma_string_roundtrip(m.map, r1);
    lemma_u32_roundtrip(m.random_state, r2);
    lemma_bool_roundtrip(m.player_alt_fire_pressed, r3);
    lemma_actors_roundtrip(m.actors, r4);
    lemma_instances_roundtrip(m.object_instances, r5);
    lemma_commands_roundtrip(m.animation_commands, r6);
    lemma_channels_roundtrip(m.animation_channels, r7);
    lemma_indices_roundtrip(m.animating, r8);
    assert(r8 =~= r8 + Seq::<u8>::empty());
    lemma_indices_roundtrip(m.player_probe_touching, Seq::<u8>::empty());
}

} // verus!
