//! Writing and reading whole snapshots.
use vstd::prelude::*;
use crate::error::{DispatchError, save_error};
use crate::save::format::{VERSION, counted_le, lemma_chain, nest, enc_seq, lemma_enc_seq_push, lemma_parse_seq_step, lemma_prepend_empty, magic, parse_counted, parse_seq, prepend};
use crate::save::io::{read_object, write_object};
use crate::save::layout::{actor_encoder, actor_parser, actor_writable, channel_le, channel_writable, command_encoder, command_le, command_parser, command_writable, index_le, instance_encoder, instance_le, instance_parser, instance_writable, parse_channel, parse_command, parse_instance, parse_runtime, runtime_le, runtime_writable};
use crate::save::model::{ActorModel, CommandModel, InstanceModel, SavedActor, SavedAnimationChannel, SavedAnimationCommand, SavedObjectInstance, SavedRuntime, actors_model, commands_model, instances_model};
use crate::save::records::{read_actor, read_actor_index, read_actor_list, read_instance_fields, write_actor, write_actor_list, write_instance_fields};
use crate::save::wire::{SaveReader, SaveWriter, MAX_ITEMS, MAX_SAVE_BYTES, bool_le, count_le, string_le, u16_le, u32_le};

verus! {

/// Writes the fields of a non-actor object.
pub fn write_object_instance(writer: &mut SaveWriter, instance: &SavedObjectInstance) -> (r: Result<
    (),
    DispatchError,
>)
    ensures
        r is Ok <==> instance_writable(instance@),
        r is Ok ==> final(writer).bytes@ == old(writer).bytes@ + instance_le(instance@),
        r matches Err(e) ==> e is SaveState,
{
    reveal(instance_le);
    write_object(writer, &instance.object)?;
    write_object(writer, &instance.class)?;
    write_instance_fields(writer, &instance.instance)?;
    assert(writer.bytes@ =~= old(writer).bytes@ + instance_le(instance@));
    Ok(())
}

/// Reads the fields of a non-actor object.
pub fn read_object_instance(reader: &mut SaveReader) -> (r: Result<SavedObjectInstance, DispatchError>)
    requires
        old(reader).wf(),
    ensures
        final(reader).wf(),
        final(reader).bytes@ == old(reader).bytes@,
        match r {
            Ok(i) => parse_instance(old(reader).rest()) == Some((i@, final(reader).rest())),
            Err(e) => parse_instance(old(reader).rest()) is None && e is SaveState,
        },
{
    reveal(parse_instance);
    let object = read_object(reader)?;
    let class = read_object(reader)?;
    let instance = read_instance_fields(reader)?;
    Ok(SavedObjectInstance { object, class, instance })
}

/// Writes the animation an actor plays.
pub fn write_animation_command(writer: &mut SaveWriter, command: &SavedAnimationCommand) -> (r:
    Result<(), DispatchError>)
    ensures
        r is Ok <==> command_writable(command@),
        r is Ok ==> final(writer).bytes@ == old(writer).bytes@ + command_le(command@),
        r matches Err(e) ==> e is SaveState,
{
    reveal(command_le);
    if command.actor > u32::MAX as usize {
        return Err(save_error("actor index is too large"));
    }
    writer.u32(command.actor as u32);
    writer.string(command.sequence.as_str())?;
    writer.float_bits(command.relative_rate)?;
    writer.float_bits(command.tween_time)?;
    writer.bool(command.looping);
    writer.bool(command.tween_only);
    writer.bool(command.root_motion);
    assert(writer.bytes@ =~= old(writer).bytes@ + command_le(command@));
    Ok(())
}

/// Reads the animation an actor plays.
pub fn read_animation_command(reader: &mut SaveReader) -> (r: Result<
    SavedAnimationCommand,
    DispatchError,
>)
    requires
        old(reader).wf(),
    ensures
        final(reader).wf(),
        final(reader).bytes@ == old(reader).bytes@,
        match r {
            Ok(c) => parse_command(old(reader).rest()) == Some((c@, final(reader).rest())),
            Err(e) => parse_command(old(reader).rest()) is None && e is SaveState,
        },
{
    reveal(parse_command);
    let actor = reader.u32()? as usize;
    let sequence = reader.string()?;
    let relative_rate = reader.float_bits()?;
    let tween_time = reader.float_bits()?;
    let looping = reader.bool()?;
    let tween_only = reader.bool()?;
    let root_motion = reader.bool()?;
    Ok(
        SavedAnimationCommand {
            actor,
            sequence,
            relative_rate,
            tween_time,
            looping,
            tween_only,
            root_motion,
        },
    )
}

fn write_actors(writer: &mut SaveWriter, actors: &Vec<SavedActor>) -> (r: Result<(), DispatchError>)
    ensures
        r is Ok <==> actors@.len() <= MAX_ITEMS && forall|i: int|
            0 <= i < actors@.len() ==> actor_writable(#[trigger] actors_model(actors@)[i]),
        r is Ok ==> final(writer).bytes@ == old(writer).bytes@ + counted_le(
            actors_model(actors@),
            actor_encoder(),
        ),
        r matches Err(e) ==> e is SaveState,
{
    writer.count(actors.len())?;
    let ghost base = writer.bytes@;
    let mut i: usize = 0;
    while i < actors.len()
        invariant
            0 <= i <= actors@.len(),
            actors@.len() <= MAX_ITEMS,
            base == old(writer).bytes@ + count_le(actors@.len()),
            writer.bytes@ == base + enc_seq(actors_model(actors@.take(i as int)), actor_encoder()),
            forall|j: int| 0 <= j < i ==> actor_writable(#[trigger] actors_model(actors@)[j]),
        decreases actors@.len() - i,
    {
        let written = write_actor(writer, &actors[i]);
        if written.is_err() {
            assert(actors_model(actors@)[i as int] == actors@[i as int]@);
            return written;
        }
        proof {
            assert(actors@.take(i + 1) =~= actors@.take(i as int).push(actors@[i as int]));
            assert(actors_model(actors@.take(i + 1)) =~= actors_model(actors@.take(i as int)).push(
                actors@[i as int]@,
            ));
            lemma_enc_seq_push(actors_model(actors@.take(i as int)), actors@[i as int]@, actor_encoder());
            assert(writer.bytes@ =~= base + enc_seq(actors_model(actors@.take(i + 1)), actor_encoder()));
            assert(actors_model(actors@)[i as int] == actors@[i as int]@);
        }
        i = i + 1;
    }
    assert(actors@.take(actors@.len() as int) =~= actors@);
    Ok(())
}

fn read_actors(reader: &mut SaveReader) -> (r: Result<Vec<SavedActor>, DispatchError>)
    requires
        old(reader).wf(),
    ensures
        final(reader).wf(),
        final(reader).bytes@ == old(reader).bytes@,
        match r {
            Ok(v) => parse_counted(old(reader).rest(), actor_parser()) == Some(
                (actors_model(v@), final(reader).rest()),
            ),
            Err(e) => parse_counted(old(reader).rest(), actor_parser()) is None && e is SaveState,
        },
{
    let n = reader.count()?;
    let ghost start = reader.rest();
    let mut out: Vec<SavedActor> = Vec::new();
    proof {
        lemma_prepend_empty(parse_seq(start, n as nat, actor_parser()));
        assert(actors_model(out@) =~= Seq::<ActorModel>::empty());
    }
    let mut i: usize = 0;
    while i < n
        invariant
            reader.wf(),
            reader.bytes@ == old(reader).bytes@,
            0 <= i <= n,
            out@.len() == i,
            parse_counted(old(reader).rest(), actor_parser()) == parse_seq(start, n as nat, actor_parser()),
            parse_seq(start, n as nat, actor_parser()) == prepend(
                actors_model(out@),
                parse_seq(reader.rest(), (n - i) as nat, actor_parser()),
            ),
        decreases n - i,
    {
        proof {
            lemma_parse_seq_step(reader.rest(), (n - i) as nat, actor_parser(), actors_model(out@));
        }
        let actor = read_actor(reader)?;
        proof {
            assert(actors_model(out@.push(actor)) =~= actors_model(out@).push(actor@));
        }
        out.push(actor);
        i = i + 1;
    }
    proof {
        assert(actors_model(out@) + Seq::<ActorModel>::empty() =~= actors_model(out@));
    }
    Ok(out)
}

fn write_object_instances(writer: &mut SaveWriter, instances: &Vec<SavedObjectInstance>) -> (r:
    Result<(), DispatchError>)
    ensures
        r is Ok <==> instances@.len() <= MAX_ITEMS && forall|i: int|
            0 <= i < instances@.len() ==> instance_writable(#[trigger] instances_model(instances@)[i]),
        r is Ok ==> final(writer).bytes@ == old(writer).bytes@ + counted_le(
            instances_model(instances@),
            instance_encoder(),
        ),
        r matches Err(e) ==> e is SaveState,
{
    writer.count(instances.len())?;
    let ghost base = writer.bytes@;
    let mut i: usize = 0;
    while i < instances.len()
        invariant
            0 <= i <= instances@.len(),
            instances@.len() <= MAX_ITEMS,
            base == old(writer).bytes@ + count_le(instances@.len()),
            writer.bytes@ == base + enc_seq(
                instances_model(instances@.take(i as int)),
                instance_encoder(),
            ),
            forall|j: int|
                0 <= j < i ==> instance_writable(#[trigger] instances_model(instances@)[j]),
        decreases instances@.len() - i,
    {
        let written = write_object_instance(writer, &instances[i]);
        if written.is_err() {
            assert(instances_model(instances@)[i as int] == instances@[i as int]@);
            return written;
        }
        proof {
            assert(instances@.take(i + 1) =~= instances@.take(i as int).push(instances@[i as int]));
            assert(instances_model(instances@.take(i + 1)) =~= instances_model(
                instances@.take(i as int),
            ).push(instances@[i as int]@));
            lemma_enc_seq_push(
                instances_model(instances@.take(i as int)),
                instances@[i as int]@,
                instance_encoder(),
            );
            assert(writer.bytes@ =~= base + enc_seq(
                instances_model(instances@.take(i + 1)),
                instance_encoder(),
            ));
            assert(instances_model(instances@)[i as int] == instances@[i as int]@);
        }
        i = i + 1;
    }
    assert(instances@.take(instances@.len() as int) =~= instances@);
    Ok(())
}

fn read_object_instances(reader: &mut SaveReader) -> (r: Result<
    Vec<SavedObjectInstance>,
    DispatchError,
>)
    requires
        old(reader).wf(),
    ensures
        final(reader).wf(),
        final(reader).bytes@ == old(reader).bytes@,
        match r {
            Ok(v) => parse_counted(old(reader).rest(), instance_parser()) == Some(
                (instances_model(v@), final(reader).rest()),
            ),
            Err(e) => parse_counted(old(reader).rest(), instance_parser()) is None && e is SaveState,
        },
{
    let n = reader.count()?;
    let ghost start = reader.rest();
    let mut out: Vec<SavedObjectInstance> = Vec::new();
    proof {
        lemma_prepend_empty(parse_seq(start, n as nat, instance_parser()));
        assert(instances_model(out@) =~= Seq::<InstanceModel>::empty());
    }
    let mut i: usize = 0;
    while i < n
        invariant
            reader.wf(),
            reader.bytes@ == old(reader).bytes@,
            0 <= i <= n,
            out@.len() == i,
            parse_counted(old(reader).rest(), instance_parser()) == parse_seq(
                start,
                n as nat,
                instance_parser(),
            ),
            parse_seq(start, n as nat, instance_parser()) == prepend(
                instances_model(out@),
                parse_seq(reader.rest(), (n - i) as nat, instance_parser()),
            ),
        decreases n - i,
    {
        proof {
            lemma_parse_seq_step(
                reader.rest(),
                (n - i) as nat,
                instance_parser(),
                instances_model(out@),
            );
        }
        let instance = read_object_instance(reader)?;
        proof {
            assert(instances_model(out@.push(instance)) =~= instances_model(out@).push(instance@));
        }
        out.push(instance);
        i = i + 1;
    }
    proof {
        assert(instances_model(out@) + Seq::<InstanceModel>::empty() =~= instances_model(out@));
    }
    Ok(out)
}

fn write_animation_commands(writer: &mut SaveWriter, commands: &Vec<SavedAnimationCommand>) -> (r:
    Result<(), DispatchError>)
    ensures
        r is Ok <==> commands@.len() <= MAX_ITEMS && forall|i: int|
            0 <= i < commands@.len() ==> command_writable(#[trigger] commands_model(commands@)[i]),
        r is Ok ==> final(writer).bytes@ == old(writer).bytes@ + counted_le(
            commands_model(commands@),
            command_encoder(),
        ),
        r matches Err(e) ==> e is SaveState,
{
    writer.count(commands.len())?;
    let ghost base = writer.bytes@;
    let mut i: usize = 0;
    while i < commands.len()
        invariant
            0 <= i <= commands@.len(),
            commands@.len() <= MAX_ITEMS,
            base == old(writer).bytes@ + count_le(commands@.len()),
            writer.bytes@ == base + enc_seq(
                commands_model(commands@.take(i as int)),
                command_encoder(),
            ),
            forall|j: int| 0 <= j < i ==> command_writable(#[trigger] commands_model(commands@)[j]),
        decreases commands@.len() - i,
    {
        let written = write_animation_command(writer, &commands[i]);
        if written.is_err() {
            assert(commands_model(commands@)[i as int] == commands@[i as int]@);
            return written;
        }
        proof {
            assert(commands@.take(i + 1) =~= commands@.take(i as int).push(commands@[i as int]));
            assert(commands_model(commands@.take(i + 1)) =~= commands_model(
                commands@.take(i as int),
            ).push(commands@[i as int]@));
            lemma_enc_seq_push(
                commands_model(commands@.take(i as int)),
                commands@[i as int]@,
                command_encoder(),
            );
            assert(writer.bytes@ =~= base + enc_seq(
                commands_model(commands@.take(i + 1)),
                command_encoder(),
            ));
            assert(commands_model(commands@)[i as int] == commands@[i as int]@);
        }
        i = i + 1;
    }
    assert(commands@.take(commands@.len() as int) =~= commands@);
    Ok(())
}

fn read_animation_commands(reader: &mut SaveReader) -> (r: Result<
    Vec<SavedAnimationCommand>,
    DispatchError,
>)
    requires
        old(reader).wf(),
    ensures
        final(reader).wf(),
        final(reader).bytes@ == old(reader).bytes@,
        match r {
            Ok(v) => parse_counted(old(reader).rest(), command_parser()) == Some(
                (commands_model(v@), final(reader).rest()),
            ),
            Err(e) => parse_counted(old(reader).rest(), command_parser()) is None && e is SaveState,
        },
{
    let n = reader.count()?;
    let ghost start = reader.rest();
    let mut out: Vec<SavedAnimationCommand> = Vec::new();
    proof {
        lemma_prepend_empty(parse_seq(start, n as nat, command_parser()));
        assert(commands_model(out@) =~= Seq::<CommandModel>::empty());
    }
    let mut i: usize = 0;
    while i < n
        invariant
            reader.wf(),
            reader.bytes@ == old(reader).bytes@,
            0 <= i <= n,
            out@.len() == i,
            parse_counted(old(reader).rest(), command_parser()) == parse_seq(
                start,
                n as nat,
                command_parser(),
            ),
            parse_seq(start, n as nat, command_parser()) == prepend(
                commands_model(out@),
                parse_seq(reader.rest(), (n - i) as nat, command_parser()),
            ),
        decreases n - i,
    {
        proof {
            lemma_parse_seq_step(reader.rest(), (n - i) as nat, command_parser(), commands_model(out@));
        }
        let command = read_animation_command(reader)?;
        proof {
            assert(commands_model(out@.push(command)) =~= commands_model(out@).push(command@));
        }
        out.push(command);
        i = i + 1;
    }
    proof {
        assert(commands_model(out@) + Seq::<CommandModel>::empty() =~= commands_model(out@));
    }
    Ok(out)
}

fn write_animation_channels(writer: &mut SaveWriter, channels: &Vec<SavedAnimationChannel>) -> (r:
    Result<(), DispatchError>)
    ensures
        r is Ok <==> channels@.len() <= MAX_ITEMS && forall|i: int|
            0 <= i < channels@.len() ==> channel_writable(#[trigger] channels@[i]),
        r is Ok ==> final(writer).bytes@ == old(writer).bytes@ + counted_le(channels@, channel_le()),
        r matches Err(e) ==> e is SaveState,
{
    writer.count(channels.len())?;
    let ghost base = writer.bytes@;
    let mut i: usize = 0;
    while i < channels.len()
        invariant
            0 <= i <= channels@.len(),
            channels@.len() <= MAX_ITEMS,
            base == old(writer).bytes@ + count_le(channels@.len()),
            writer.bytes@ == base + enc_seq(channels@.take(i as int), channel_le()),
            forall|j: int| 0 <= j < i ==> channel_writable(#[trigger] channels@[j]),
        decreases channels@.len() - i,
    {
        let channel = channels[i];
        if channel.actor > u32::MAX as usize {
            return Err(save_error("actor index is too large"));
        }
        writer.u32(channel.actor as u32);
        if channel.root_bone > u32::MAX as usize {
            return Err(save_error("bone index is too large"));
        }
        writer.u32(channel.root_bone as u32);
        if channel.target > u32::MAX as usize {
            return Err(save_error("actor index is too large"));
        }
        writer.u32(channel.target as u32);
        proof {
            assert(channels@.take(i + 1) =~= channels@.take(i as int).push(channel));
            lemma_enc_seq_push(channels@.take(i as int), channel, channel_le());
            assert(writer.bytes@ =~= base + enc_seq(channels@.take(i + 1), channel_le()));
        }
        i = i + 1;
    }
    assert(channels@.take(channels@.len() as int) =~= channels@);
    Ok(())
}

fn read_animation_channels(reader: &mut SaveReader) -> (r: Result<
    Vec<SavedAnimationChannel>,
    DispatchError,
>)
    requires
        old(reader).wf(),
    ensures
        final(reader).wf(),
        final(reader).bytes@ == old(reader).bytes@,
        match r {
            Ok(v) => parse_counted(old(reader).rest(), parse_channel()) == Some(
                (v@, final(reader).rest()),
            ),
            Err(e) => parse_counted(old(reader).rest(), parse_channel()) is None && e is SaveState,
        },
{
    let n = reader.count()?;
    let ghost start = reader.rest();
    let mut out: Vec<SavedAnimationChannel> = Vec::new();
    proof {
        lemma_prepend_empty(parse_seq(start, n as nat, parse_channel()));
    }
    let mut i: usize = 0;
    while i < n
        invariant
            reader.wf(),
            reader.bytes@ == old(reader).bytes@,
            0 <= i <= n,
            out@.len() == i,
            parse_counted(old(reader).rest(), parse_channel()) == parse_seq(
                start,
                n as nat,
                parse_channel(),
            ),
            parse_seq(start, n as nat, parse_channel()) == prepend(
                out@,
                parse_seq(reader.rest(), (n - i) as nat, parse_channel()),
            ),
        decreases n - i,
    {
        proof {
            lemma_parse_seq_step(reader.rest(), (n - i) as nat, parse_channel(), out@);
        }
        let actor = read_actor_index(reader)?;
        let root_bone = read_actor_index(reader)?;
        let target = read_actor_index(reader)?;
        out.push(SavedAnimationChannel { actor, root_bone, target });
        i = i + 1;
    }
    proof {
        assert(out@ + Seq::<SavedAnimationChannel>::empty() =~= out@);
    }
    Ok(out)
}

/// The magic bytes `OHPS` that open every snapshot.
pub const MAGIC: [u8; 4] = [0x4f, 0x48, 0x50, 0x53];

/// Writes a whole snapshot.
pub fn write_runtime(writer: &mut SaveWriter, snapshot: &SavedRuntime) -> (r: Result<
    (),
    DispatchError,
>)
    ensures
        r is Ok <==> runtime_writable(snapshot@),
        r is Ok ==> final(writer).bytes@ == old(writer).bytes@ + runtime_le(snapshot@),
        r matches Err(e) ==> e is SaveState,
{
    let ghost b0 = writer.bytes@;
    writer.u8(MAGIC[0]);
    writer.u8(MAGIC[1]);
    writer.u8(MAGIC[2]);
    writer.u8(MAGIC[3]);
    let ghost b1 = writer.bytes@;
    writer.u16(VERSION);
    let ghost b2 = writer.bytes@;
    writer.string(snapshot.map.as_str())?;
    let ghost b3 = writer.bytes@;
    writer.u32(snapshot.random_state);
    let ghost b4 = writer.bytes@;
    writer.bool(snapshot.player_alt_fire_pressed);
    let ghost b5 = writer.bytes@;
    write_actors(writer, &snapshot.actors)?;
    let ghost b6 = writer.bytes@;
    write_object_instances(writer, &snapshot.object_instances)?;
    let ghost b7 = writer.bytes@;
    write_animation_commands(writer, &snapshot.animation_commands)?;
    let ghost b8 = writer.bytes@;
    write_animation_channels(writer, &snapshot.animation_channels)?;
    let ghost b9 = writer.bytes@;
    write_actor_list(writer, &snapshot.animating)?;
    let ghost b10 = writer.bytes@;
    write_actor_list(writer, &snapshot.player_probe_touching)?;
    proof {
        let m = snapshot@;
        let parts = seq![
            magic(),
            u16_le(VERSION),
            string_le(m.map),
            u32_le(m.random_state),
            bool_le(m.player_alt_fire_pressed),
            counted_le(m.actors, actor_encoder()),
            counted_le(m.object_instances, instance_encoder()),
            counted_le(m.animation_commands, command_encoder()),
            counted_le(m.animation_channels, channel_le()),
            counted_le(m.animating, index_le()),
            counted_le(m.player_probe_touching, index_le()),
        ];
        let states = seq![b0, b1, b2, b3, b4, b5, b6, b7, b8, b9, b10, writer.bytes@];
        assert(b1 =~= b0 + magic());
        lemma_chain(parts, states, 0);
        assert(parts.skip(0) =~= parts);
        reveal_with_fuel(nest, 12);
        reveal(runtime_le);
        assert(nest(parts) == runtime_le(m));
    }
    Ok(())
}

/// Reads a whole snapshot: refuses one over `MAX_SAVE_BYTES`, a wrong magic
/// or version, any malformed part, and trailing bytes.
#[verifier::rlimit(50)]
pub fn read_runtime(bytes: &[u8]) -> (r: Result<SavedRuntime, DispatchError>)
    ensures
        r is Ok <==> bytes@.len() <= MAX_SAVE_BYTES && parse_runtime(bytes@) is Some,
        r matches Ok(s) ==> parse_runtime(bytes@) == Some(s@),
        r matches Err(e) ==> e is SaveState,
{
    let mut reader = SaveReader::new(bytes)?;
    let head = reader.take(4)?;
    if head[0] != MAGIC[0] || head[1] != MAGIC[1] || head[2] != MAGIC[2] || head[3] != MAGIC[3] {
        proof {
            assert(head@ != magic());
        }
        return Err(save_error("save file magic does not identify OpenHP1 state"));
    }
    proof {
        assert(head@ =~= magic());
    }
    let version = reader.u16()?;
    if version != VERSION {
        return Err(save_error("save file version is unsupported"));
    }
    let ghost body = reader.rest();
    let map = reader.string()?;
    let random_state = reader.u32()?;
    let player_alt_fire_pressed = reader.bool()?;
    let actors = read_actors(&mut reader)?;
    let object_instances = read_object_instances(&mut reader)?;
    let animation_commands = read_animation_commands(&mut reader)?;
    let animation_channels = read_animation_channels(&mut reader)?;
    let animating = read_actor_list(&mut reader)?;
    let player_probe_touching = read_actor_list(&mut reader)?;
    if !reader.finished() {
        return Err(save_error("save file has trailing bytes"));
    }
    Ok(
        SavedRuntime {
            map,
            random_state,
            player_alt_fire_pressed,
            actors,
            object_instances,
            animation_commands,
            animation_channels,
            animating,
            player_probe_touching,
        },
    )
}

} // verus!
