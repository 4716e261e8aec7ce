//! Writing and reading the records of a snapshot.
use vstd::prelude::*;
use crate::error::{DispatchError, save_error};
use crate::save::format::{counted_le, enc_seq, lemma_enc_seq_push, lemma_parse_seq_step, lemma_prepend_empty, opt_string_fits, opt_string_le, parse_counted, parse_opt_string, parse_seq, prepend, read_top_value, top_value_ok, value_bytes};
use crate::save::io::{read_object, read_value, write_object, write_value};
use crate::save::layout::{actor_le, actor_writable, parse_actor, opt_frame_le, opt_timer_le, event_le, frame_le, frame_writable, index_le, latent_le, latent_writable, local_le, pair_le, pairs_writable, parse_event, parse_frame, parse_index, parse_latent, parse_local, parse_pair};
use crate::save::model::{SavedActor, SavedTimer, option_frame_model, ObjectModel, SavedFrame, SavedLatent, SavedObject, SavedValue, ValueModel, events_model, locals_model, option_string_model, pairs_model, value_model};
use crate::save::wire::{SaveReader, SaveWriter, MAX_ITEMS, bool_le, count_le, finite_bits, string_fits, u32_le, u64_le};
use crate::save::format::{object_le, object_writable};

verus! {

/// Writes a tagged latent action that waits on an actor.
pub fn write_latent_actor(writer: &mut SaveWriter, tag: u8, actor: usize) -> (r: Result<
    (),
    DispatchError,
>)
    ensures
        r is Ok <==> actor <= u32::MAX,
        r is Ok ==> final(writer).bytes@ == old(writer).bytes@ + seq![tag] + u32_le(actor as u32),
        r matches Err(e) ==> e is SaveState,
{
    writer.u8(tag);
    if actor > u32::MAX as usize {
        return Err(save_error("latent actor is too large"));
    }
    writer.u32(actor as u32);
    Ok(())
}

/// Writes the latent action of a suspended frame.
pub fn write_latent(writer: &mut SaveWriter, latent: SavedLatent) -> (r: Result<(), DispatchError>)
    ensures
        r is Ok <==> latent_writable(latent),
        r is Ok ==> final(writer).bytes@ == old(writer).bytes@ + latent_le(latent),
        r matches Err(e) ==> e is SaveState,
{
    match latent {
        SavedLatent::Continue => writer.u8(0),
        SavedLatent::Stop => writer.u8(1),
        SavedLatent::Sleep(value) => {
            writer.u8(2);
            writer.float_bits(value)?;
        },
        SavedLatent::FinishAnimation(actor) => write_latent_actor(writer, 3, actor)?,
        SavedLatent::FinishInterpolation(actor) => write_latent_actor(writer, 4, actor)?,
        SavedLatent::MoveTo(actor) => write_latent_actor(writer, 5, actor)?,
        SavedLatent::MoveToward(actor) => write_latent_actor(writer, 6, actor)?,
        SavedLatent::TurnTo(actor) => write_latent_actor(writer, 7, actor)?,
        SavedLatent::TurnToward(actor) => write_latent_actor(writer, 8, actor)?,
    }
    assert(writer.bytes@ =~= old(writer).bytes@ + latent_le(latent));
    Ok(())
}

/// Reads the latent action of a suspended frame.
pub fn read_latent(reader: &mut SaveReader) -> (r: Result<SavedLatent, DispatchError>)
    requires
        old(reader).wf(),
    ensures
        final(reader).wf(),
        final(reader).bytes@ == old(reader).bytes@,
        match r {
            Ok(l) => parse_latent(old(reader).rest()) == Some((l, final(reader).rest())),
            Err(e) => parse_latent(old(reader).rest()) is None && e is SaveState,
        },
{
    let tag = reader.u8()?;
    if tag == 0 {
        Ok(SavedLatent::Continue)
    } else if tag == 1 {
        Ok(SavedLatent::Stop)
    } else if tag == 2 {
        Ok(SavedLatent::Sleep(reader.float_bits()?))
    } else if 3 <= tag && tag <= 8 {
        let actor = reader.u32()? as usize;
        Ok(
            if tag == 3 {
                SavedLatent::FinishAnimation(actor)
            } else if tag == 4 {
                SavedLatent::FinishInterpolation(actor)
            } else if tag == 5 {
                SavedLatent::MoveTo(actor)
            } else if tag == 6 {
                SavedLatent::MoveToward(actor)
            } else if tag == 7 {
                SavedLatent::TurnTo(actor)
            } else {
                SavedLatent::TurnToward(actor)
            },
        )
    } else {
        Err(save_error("latent action has an invalid tag"))
    }
}

/// Writes an optional string as a presence flag and the string.
pub fn write_option_string(writer: &mut SaveWriter, value: &Option<String>) -> (r: Result<
    (),
    DispatchError,
>)
    ensures
        r is Ok <==> opt_string_fits(option_string_model(*value)),
        r is Ok ==> final(writer).bytes@ == old(writer).bytes@ + opt_string_le(
            option_string_model(*value),
        ),
        r matches Err(e) ==> e is SaveState,
{
    match value {
        Some(s) => {
            writer.bool(true);
            writer.string(s.as_str())?;
        },
        None => {
            writer.bool(false);
        },
    }
    assert(writer.bytes@ =~= old(writer).bytes@ + opt_string_le(option_string_model(*value)));
    Ok(())
}

/// Reads an optional string.
pub fn read_option_string(reader: &mut SaveReader) -> (r: Result<Option<String>, DispatchError>)
    requires
        old(reader).wf(),
    ensures
        final(reader).wf(),
        final(reader).bytes@ == old(reader).bytes@,
        match r {
            Ok(v) => parse_opt_string(old(reader).rest()) == Some(
                (option_string_model(v), final(reader).rest()),
            ),
            Err(e) => parse_opt_string(old(reader).rest()) is None && e is SaveState,
        },
{
    if reader.bool()? {
        Ok(Some(reader.string()?))
    } else {
        Ok(None)
    }
}

/// Writes a count and the fields of an instance, each as its property
/// object and value.
pub fn write_instance_fields(writer: &mut SaveWriter, fields: &Vec<(SavedObject, SavedValue)>) -> (r:
    Result<(), DispatchError>)
    ensures
        r is Ok <==> pairs_writable(pairs_model(fields@)),
        r is Ok ==> final(writer).bytes@ == old(writer).bytes@ + counted_le(
            pairs_model(fields@),
            pair_le(),
        ),
        r matches Err(e) ==> e is SaveState,
{
    reveal(value_bytes);
    reveal(top_value_ok);
    writer.count(fields.len())?;
    let ghost base = writer.bytes@;
    let mut i: usize = 0;
    while i < fields.len()
        invariant
            0 <= i <= fields@.len(),
            fields@.len() <= MAX_ITEMS,
            base == old(writer).bytes@ + count_le(fields@.len()),
            writer.bytes@ == base + enc_seq(pairs_model(fields@.take(i as int)), pair_le()),
            pairs_writable(pairs_model(fields@.take(i as int))),
        decreases fields@.len() - i,
    {
        reveal(value_bytes);
        reveal(top_value_ok);
        let written = write_object(writer, &fields[i].0);
        if written.is_err() {
            assert(!pairs_writable(pairs_model(fields@)) || pairs_model(fields@)[i as int].0
                == fields@[i as int].0@);
            return written;
        }
        let written = write_value(writer, &fields[i].1, 0);
        if written.is_err() {
            assert(pairs_model(fields@)[i as int].1 == value_model(fields@[i as int].1));
            return written;
        }
        proof {
            assert(fields@.take(i + 1) =~= fields@.take(i as int).push(fields@[i as int]));
            assert(pairs_model(fields@.take(i + 1)) =~= pairs_model(fields@.take(i as int)).push(
                (fields@[i as int].0@, value_model(fields@[i as int].1)),
            ));
            lemma_enc_seq_push(
                pairs_model(fields@.take(i as int)),
                (fields@[i as int].0@, value_model(fields@[i as int].1)),
                pair_le(),
            );
            assert(writer.bytes@ =~= base + enc_seq(pairs_model(fields@.take(i + 1)), pair_le()));
            assert forall|j: int|
                #![trigger pairs_model(fields@.take(i + 1))[j]]
                0 <= j < i + 1 implies {
                let p = pairs_model(fields@.take(i + 1))[j];
                crate::save::format::object_writable(p.0) && top_value_ok(p.1)
            } by {
                if j < i {
                    assert(pairs_model(fields@.take(i + 1))[j] == pairs_model(
                        fields@.take(i as int),
                    )[j]);
                }
            }
        }
        i = i + 1;
    }
    assert(fields@.take(fields@.len() as int) =~= fields@);
    Ok(())
}

/// Reads a count and that many instance fields.
pub fn read_instance_fields(reader: &mut SaveReader) -> (r: Result<
    Vec<(SavedObject, SavedValue)>,
    DispatchError,
>)
    requires
        old(reader).wf(),
    ensures
        final(reader).wf(),
        final(reader).bytes@ == old(reader).bytes@,
        match r {
            Ok(v) => parse_counted(old(reader).rest(), parse_pair()) == Some(
                (pairs_model(v@), final(reader).rest()),
            ),
            Err(e) => parse_counted(old(reader).rest(), parse_pair()) is None && e is SaveState,
        },
{
    let n = reader.count()?;
    let ghost start = reader.rest();
    let mut out: Vec<(SavedObject, SavedValue)> = Vec::new();
    proof {
        lemma_prepend_empty(parse_seq(start, n as nat, parse_pair()));
        assert(pairs_model(out@) =~= Seq::<(ObjectModel, ValueModel)>::empty());
    }
    let mut i: usize = 0;
    while i < n
        invariant
            reader.wf(),
            reader.bytes@ == old(reader).bytes@,
            0 <= i <= n,
            out@.len() == i,
            parse_counted(old(reader).rest(), parse_pair()) == parse_seq(start, n as nat, parse_pair()),
            parse_seq(start, n as nat, parse_pair()) == prepend(
                pairs_model(out@),
                parse_seq(reader.rest(), (n - i) as nat, parse_pair()),
            ),
        decreases n - i,
    {
        let ghost before = reader.rest();
        proof {
            lemma_parse_seq_step(before, (n - i) as nat, parse_pair(), pairs_model(out@));
            reveal(read_top_value);
        }
        let field = read_object(reader)?;
        let value = read_value(reader, 0)?;
        proof {
            assert((parse_pair())(before) == Some(((field@, value_model(value)), reader.rest())));
            assert(pairs_model(out@.push((field, value))) =~= pairs_model(out@).push(
                (field@, value_model(value)),
            ));
        }
        out.push((field, value));
        i = i + 1;
    }
    proof {
        assert(pairs_model(out@) + Seq::<(ObjectModel, ValueModel)>::empty() =~= pairs_model(out@));
    }
    Ok(out)
}

/// Writes a suspended state frame: its state, instruction pointer, locals
/// and latent action.
pub fn write_frame(writer: &mut SaveWriter, frame: &SavedFrame) -> (r: Result<(), DispatchError>)
    ensures
        r is Ok <==> frame_writable(frame@),
        r is Ok ==> final(writer).bytes@ == old(writer).bytes@ + frame_le(frame@),
        r matches Err(e) ==> e is SaveState,
{
    reveal(frame_le);
    write_object(writer, &frame.state)?;
    writer.u32(frame.instruction_pointer);
    writer.count(frame.locals.len())?;
    let ghost base = writer.bytes@;
    let locals = &frame.locals;
    let mut i: usize = 0;
    while i < locals.len()
        invariant
            0 <= i <= locals@.len(),
            locals@.len() <= MAX_ITEMS,
            locals@ == frame.locals@,
            writer.bytes@ == base + enc_seq(locals_model(locals@.take(i as int)), local_le()),
            forall|j: int|
                0 <= j < i ==> top_value_ok(#[trigger] locals_model(locals@.take(i as int))[j].1),
        decreases locals@.len() - i,
    {
        reveal(value_bytes);
        reveal(top_value_ok);
        writer.i32(locals[i].0);
        let written = write_value(writer, &locals[i].1, 0);
        if written.is_err() {
            assert(locals_model(locals@)[i as int].1 == value_model(locals@[i as int].1));
            return written;
        }
        proof {
            assert(locals@.take(i + 1) =~= locals@.take(i as int).push(locals@[i as int]));
            assert(locals_model(locals@.take(i + 1)) =~= locals_model(locals@.take(i as int)).push(
                (locals@[i as int].0, value_model(locals@[i as int].1)),
            ));
            lemma_enc_seq_push(
                locals_model(locals@.take(i as int)),
                (locals@[i as int].0, value_model(locals@[i as int].1)),
                local_le(),
            );
            assert(writer.bytes@ =~= base + enc_seq(locals_model(locals@.take(i + 1)), local_le()));
            assert forall|j: int| 0 <= j < i + 1 implies top_value_ok(
                #[trigger] locals_model(locals@.take(i + 1))[j].1,
            ) by {
                if j < i {
                    assert(locals_model(locals@.take(i + 1))[j] == locals_model(
                        locals@.take(i as int),
                    )[j]);
                }
            }
        }
        i = i + 1;
    }
    assert(locals@.take(locals@.len() as int) =~= locals@);
    write_latent(writer, frame.latent)?;
    assert(writer.bytes@ =~= old(writer).bytes@ + frame_le(frame@));
    Ok(())
}

/// Reads a suspended state frame.
pub fn read_frame(reader: &mut SaveReader) -> (r: Result<SavedFrame, DispatchError>)
    requires
        old(reader).wf(),
    ensures
        final(reader).wf(),
        final(reader).bytes@ == old(reader).bytes@,
        match r {
            Ok(f) => parse_frame(old(reader).rest()) == Some((f@, final(reader).rest())),
            Err(e) => parse_frame(old(reader).rest()) is None && e is SaveState,
        },
{
    reveal(parse_frame);
    let state = read_object(reader)?;
    let instruction_pointer = reader.u32()?;
    let ghost counted_from = reader.rest();
    let n = reader.count()?;
    let ghost start = reader.rest();
    let mut locals: Vec<(i32, SavedValue)> = Vec::new();
    proof {
        lemma_prepend_empty(parse_seq(start, n as nat, parse_local()));
        assert(locals_model(locals@) =~= Seq::<(i32, ValueModel)>::empty());
    }
    let mut i: usize = 0;
    while i < n
        invariant
            reader.wf(),
            reader.bytes@ == old(reader).bytes@,
            0 <= i <= n,
            locals@.len() == i,
            parse_frame(old(reader).rest()) == (match parse_counted(counted_from, parse_local()) {
                Some((ls, r3)) => match parse_latent(r3) {
                    Some((l, after)) => Some(
                        (
                            crate::save::model::FrameModel {
                                state: state@,
                                instruction_pointer,
                                locals: ls,
                                latent: l,
                            },
                            after,
                        ),
                    ),
                    None => None,
                },
                None => None,
            }),
            parse_counted(counted_from, parse_local()) == parse_seq(start, n as nat, parse_local()),
            parse_seq(start, n as nat, parse_local()) == prepend(
                locals_model(locals@),
                parse_seq(reader.rest(), (n - i) as nat, parse_local()),
            ),
        decreases n - i,
    {
        let ghost before = reader.rest();
        proof {
            lemma_parse_seq_step(before, (n - i) as nat, parse_local(), locals_model(locals@));
            reveal(read_top_value);
        }
        let field = reader.i32()?;
        let value = read_value(reader, 0)?;
        proof {
            assert((parse_local())(before) == Some(((field, value_model(value)), reader.rest())));
            assert(locals_model(locals@.push((field, value))) =~= locals_model(locals@).push(
                (field, value_model(value)),
            ));
        }
        locals.push((field, value));
        i = i + 1;
    }
    proof {
        assert(locals_model(locals@) + Seq::<(i32, ValueModel)>::empty() =~= locals_model(locals@));
    }
    let latent = read_latent(reader)?;
    Ok(SavedFrame { state, instruction_pointer, locals, latent })
}

/// Writes a list of actor indices.
pub fn write_actor_list(writer: &mut SaveWriter, actors: &Vec<usize>) -> (r: Result<
    (),
    DispatchError,
>)
    ensures
        r is Ok <==> crate::save::layout::indices_writable(actors@),
        r is Ok ==> final(writer).bytes@ == old(writer).bytes@ + counted_le(actors@, index_le()),
        r matches Err(e) ==> e is SaveState,
{
    writer.count(actors.len())?;
    let ghost base = writer.bytes@;
    let mut i: usize = 0;
    while i < actors.len()
        invariant
            0 <= i <= actors@.len(),
            actors@.len() <= MAX_ITEMS,
            writer.bytes@ == base + enc_seq(actors@.take(i as int), index_le()),
            forall|j: int| 0 <= j < i ==> #[trigger] actors@[j] <= u32::MAX,
        decreases actors@.len() - i,
    {
        if actors[i] > u32::MAX as usize {
            return Err(save_error("actor index is too large"));
        }
        writer.u32(actors[i] as u32);
        proof {
            assert(actors@.take(i + 1) =~= actors@.take(i as int).push(actors@[i as int]));
            lemma_enc_seq_push(actors@.take(i as int), actors@[i as int], index_le());
            assert(writer.bytes@ =~= base + enc_seq(actors@.take(i + 1), index_le()));
        }
        i = i + 1;
    }
    assert(actors@.take(actors@.len() as int) =~= actors@);
    assert(writer.bytes@ =~= old(writer).bytes@ + counted_le(actors@, index_le()));
    Ok(())
}

/// Reads an actor index.
pub fn read_actor_index(reader: &mut SaveReader) -> (r: Result<usize, DispatchError>)
    requires
        old(reader).wf(),
    ensures
        final(reader).wf(),
        final(reader).bytes@ == old(reader).bytes@,
        match r {
            Ok(a) => (parse_index())(old(reader).rest()) == Some((a, final(reader).rest())),
            Err(e) => (parse_index())(old(reader).rest()) is None && e is SaveState,
        },
{
    Ok(reader.u32()? as usize)
}

/// Reads a list of actor indices.
pub fn read_actor_list(reader: &mut SaveReader) -> (r: Result<Vec<usize>, DispatchError>)
    requires
        old(reader).wf(),
    ensures
        final(reader).wf(),
        final(reader).bytes@ == old(reader).bytes@,
        match r {
            Ok(v) => parse_counted(old(reader).rest(), parse_index()) == Some(
                (v@, final(reader).rest()),
            ),
            Err(e) => parse_counted(old(reader).rest(), parse_index()) is None && e is SaveState,
        },
{
    let n = reader.count()?;
    let ghost start = reader.rest();
    let mut out: Vec<usize> = Vec::new();
    proof {
        lemma_prepend_empty(parse_seq(start, n as nat, parse_index()));
    }
    let mut i: usize = 0;
    while i < n
        invariant
            reader.wf(),
            reader.bytes@ == old(reader).bytes@,
            0 <= i <= n,
            out@.len() == i,
            parse_counted(old(reader).rest(), parse_index()) == parse_seq(start, n as nat, parse_index()),
            parse_seq(start, n as nat, parse_index()) == prepend(
                out@,
                parse_seq(reader.rest(), (n - i) as nat, parse_index()),
            ),
        decreases n - i,
    {
        proof {
            lemma_parse_seq_step(reader.rest(), (n - i) as nat, parse_index(), out@);
        }
        let actor = read_actor_index(reader)?;
        out.push(actor);
        i = i + 1;
    }
    proof {
        assert(out@ + Seq::<usize>::empty() =~= out@);
    }
    Ok(out)
}

/// Writes the events disabled on an actor, each as its optional state scope
/// and name.
pub fn write_disabled_events(writer: &mut SaveWriter, events: &Vec<(Option<String>, String)>) -> (r:
    Result<(), DispatchError>)
    ensures
        r is Ok <==> {
            &&& events@.len() <= MAX_ITEMS
            &&& forall|i: int|
                #![trigger events_model(events@)[i]]
                0 <= i < events@.len() ==> opt_string_fits(events_model(events@)[i].0) && string_fits(
                    events_model(events@)[i].1,
                )
        },
        r is Ok ==> final(writer).bytes@ == old(writer).bytes@ + counted_le(
            events_model(events@),
            event_le(),
        ),
        r matches Err(e) ==> e is SaveState,
{
    writer.count(events.len())?;
    let ghost base = writer.bytes@;
    let mut i: usize = 0;
    while i < events.len()
        invariant
            0 <= i <= events@.len(),
            events@.len() <= MAX_ITEMS,
            base == old(writer).bytes@ + count_le(events@.len()),
            writer.bytes@ == base + enc_seq(events_model(events@.take(i as int)), event_le()),
            forall|j: int|
                #![trigger events_model(events@)[j]]
                0 <= j < i ==> opt_string_fits(events_model(events@)[j].0) && string_fits(
                    events_model(events@)[j].1,
                ),
        decreases events@.len() - i,
    {
        let written = write_option_string(writer, &events[i].0);
        if written.is_err() {
            assert(events_model(events@)[i as int].0 == option_string_model(events@[i as int].0));
            return written;
        }
        let written = writer.string(events[i].1.as_str());
        if written.is_err() {
            assert(events_model(events@)[i as int].1 == events@[i as int].1@);
            return written;
        }
        proof {
            let e = (option_string_model(events@[i as int].0), events@[i as int].1@);
            assert(events@.take(i + 1) =~= events@.take(i as int).push(events@[i as int]));
            assert(events_model(events@.take(i + 1)) =~= events_model(events@.take(i as int)).push(e));
            lemma_enc_seq_push(events_model(events@.take(i as int)), e, event_le());
            assert(writer.bytes@ =~= base + enc_seq(events_model(events@.take(i + 1)), event_le()));
            assert(events_model(events@)[i as int] == e);
        }
        i = i + 1;
    }
    assert(events@.take(events@.len() as int) =~= events@);
    Ok(())
}

/// Reads the events disabled on an actor.
pub fn read_disabled_events(reader: &mut SaveReader) -> (r: Result<
    Vec<(Option<String>, String)>,
    DispatchError,
>)
    requires
        old(reader).wf(),
    ensures
        final(reader).wf(),
        final(reader).bytes@ == old(reader).bytes@,
        match r {
            Ok(v) => parse_counted(old(reader).rest(), parse_event()) == Some(
                (events_model(v@), final(reader).rest()),
            ),
            Err(e) => parse_counted(old(reader).rest(), parse_event()) is None && e is SaveState,
        },
{
    let n = reader.count()?;
    let ghost start = reader.rest();
    let mut out: Vec<(Option<String>, String)> = Vec::new();
    proof {
        lemma_prepend_empty(parse_seq(start, n as nat, parse_event()));
        assert(events_model(out@) =~= Seq::<(Option<Seq<char>>, Seq<char>)>::empty());
    }
    let mut i: usize = 0;
    while i < n
        invariant
            reader.wf(),
            reader.bytes@ == old(reader).bytes@,
            0 <= i <= n,
            out@.len() == i,
            parse_counted(old(reader).rest(), parse_event()) == parse_seq(start, n as nat, parse_event()),
            parse_seq(start, n as nat, parse_event()) == prepend(
                events_model(out@),
                parse_seq(reader.rest(), (n - i) as nat, parse_event()),
            ),
        decreases n - i,
    {
        let ghost before = reader.rest();
        proof {
            lemma_parse_seq_step(before, (n - i) as nat, parse_event(), events_model(out@));
        }
        let state = read_option_string(reader)?;
        let event = reader.string()?;
        proof {
            assert((parse_event())(before) == Some(
                ((option_string_model(state), event@), reader.rest()),
            ));
            assert(events_model(out@.push((state, event))) =~= events_model(out@).push(
                (option_string_model(state), event@),
            ));
        }
        out.push((state, event));
        i = i + 1;
    }
    proof {
        assert(events_model(out@) + Seq::<(Option<Seq<char>>, Seq<char>)>::empty() =~= events_model(
            out@,
        ));
    }
    Ok(out)
}

/// Writes an optional frame as a presence flag and the frame.
fn write_option_frame(writer: &mut SaveWriter, frame: &Option<SavedFrame>) -> (r: Result<
    (),
    DispatchError,
>)
    ensures
        r is Ok <==> (option_frame_model(*frame) matches Some(f) ==> frame_writable(f)),
        r is Ok ==> final(writer).bytes@ == old(writer).bytes@ + opt_frame_le(
            option_frame_model(*frame),
        ),
        r matches Err(e) ==> e is SaveState,
{
    match frame {
        Some(f) => {
            writer.bool(true);
            write_frame(writer, f)?;
        },
        None => {
            writer.bool(false);
        },
    }
    assert(writer.bytes@ =~= old(writer).bytes@ + opt_frame_le(option_frame_model(*frame)));
    Ok(())
}

/// Writes an optional timer as a presence flag, its remaining time, rate and
/// looping flag.
fn write_option_timer(writer: &mut SaveWriter, timer: &Option<SavedTimer>) -> (r: Result<
    (),
    DispatchError,
>)
    ensures
        r is Ok <==> (*timer matches Some(t) ==> finite_bits(t.remaining) && finite_bits(t.rate)),
        r is Ok ==> final(writer).bytes@ == old(writer).bytes@ + opt_timer_le(*timer),
        r matches Err(e) ==> e is SaveState,
{
    match timer {
        Some(t) => {
            writer.bool(true);
            writer.float_bits(t.remaining)?;
            writer.float_bits(t.rate)?;
            writer.bool(t.looping);
        },
        None => {
            writer.bool(false);
        },
    }
    assert(writer.bytes@ =~= old(writer).bytes@ + opt_timer_le(*timer));
    Ok(())
}

/// Bytes appended part after part are the first bytes followed by the parts
/// nested to the right.
proof fn lemma_chain10(start: Seq<u8>, parts: Seq<Seq<u8>>, states: Seq<Seq<u8>>)
    requires
        parts.len() == 10,
        states.len() == 11,
        states[0] == start,
        forall|i: int| 1 <= i <= 10 ==> #[trigger] states[i] == states[i - 1] + parts[i - 1],
    ensures
        states[10] == start + (parts[0] + (parts[1] + (parts[2] + (parts[3] + (parts[4] + (parts[5]
            + (parts[6] + (parts[7] + (parts[8] + parts[9]))))))))),
{
    let t8 = parts[8] + parts[9];
    let t7 = parts[7] + t8;
    let t6 = parts[6] + t7;
    let t5 = parts[5] + t6;
    let t4 = parts[4] + t5;
    let t3 = parts[3] + t4;
    let t2 = parts[2] + t3;
    let t1 = parts[1] + t2;
    let t0 = parts[0] + t1;
    assert(states[1] == states[0] + parts[0]);
    assert(states[2] == states[1] + parts[1]);
    assert(states[3] == states[2] + parts[2]);
    assert(states[4] == states[3] + parts[3]);
    assert(states[5] == states[4] + parts[4]);
    assert(states[6] == states[5] + parts[5]);
    assert(states[7] == states[6] + parts[6]);
    assert(states[8] == states[7] + parts[7]);
    assert(states[9] == states[8] + parts[8]);
    assert(states[10] == states[9] + parts[9]);
    vstd::seq_lib::lemma_concat_associative(states[8], parts[8], parts[9]);
    vstd::seq_lib::lemma_concat_associative(states[7], parts[7], t8);
    vstd::seq_lib::lemma_concat_associative(states[6], parts[6], t7);
    vstd::seq_lib::lemma_concat_associative(states[5], parts[5], t6);
    vstd::seq_lib::lemma_concat_associative(states[4], parts[4], t5);
    vstd::seq_lib::lemma_concat_associative(states[3], parts[3], t4);
    vstd::seq_lib::lemma_concat_associative(states[2], parts[2], t3);
    vstd::seq_lib::lemma_concat_associative(states[1], parts[1], t2);
    vstd::seq_lib::lemma_concat_associative(states[0], parts[0], t1);
}

/// Writes the saved state of one actor.
pub fn write_actor(writer: &mut SaveWriter, actor: &SavedActor) -> (r: Result<(), DispatchError>)
    ensures
        r is Ok <==> actor_writable(actor@),
        r is Ok ==> final(writer).bytes@ == old(writer).bytes@ + actor_le(actor@),
        r matches Err(e) ==> e is SaveState,
{
    if actor.actor > u32::MAX as usize {
        return Err(save_error("actor index is too large"));
    }
    let ghost b0 = writer.bytes@;
    writer.u32(actor.actor as u32);
    let ghost b1 = writer.bytes@;
    write_object(writer, &actor.object)?;
    let ghost b2 = writer.bytes@;
    write_object(writer, &actor.class)?;
    let ghost b3 = writer.bytes@;
    write_instance_fields(writer, &actor.instance)?;
    let ghost b4 = writer.bytes@;
    write_option_string(writer, &actor.state)?;
    let ghost b5 = writer.bytes@;
    writer.u64(actor.state_revision);
    let ghost b6 = writer.bytes@;
    write_option_frame(writer, &actor.frame)?;
    let ghost b7 = writer.bytes@;
    write_option_timer(writer, &actor.timer)?;
    let ghost b8 = writer.bytes@;
    writer.bool(actor.destroyed);
    let ghost b9 = writer.bytes@;
    write_disabled_events(writer, &actor.disabled_events)?;
    proof {
        lemma_chain10(
            b0,
            seq![
                u32_le(actor.actor as u32),
                object_le(actor@.object),
                object_le(actor@.class),
                counted_le(actor@.instance, pair_le()),
                opt_string_le(actor@.state),
                u64_le(actor@.state_revision),
                opt_frame_le(actor@.frame),
                opt_timer_le(actor@.timer),
                bool_le(actor@.destroyed),
                counted_le(actor@.disabled_events, event_le()),
            ],
            seq![b0, b1, b2, b3, b4, b5, b6, b7, b8, b9, writer.bytes@],
        );
        reveal(actor_le);
    }
    Ok(())
}

/// Reads the saved state of one actor.
pub fn read_actor(reader: &mut SaveReader) -> (r: Result<SavedActor, DispatchError>)
    requires
        old(reader).wf(),
    ensures
        final(reader).wf(),
        final(reader).bytes@ == old(reader).bytes@,
        match r {
            Ok(a) => parse_actor(old(reader).rest()) == Some((a@, final(reader).rest())),
            Err(e) => parse_actor(old(reader).rest()) is None && e is SaveState,
        },
{
    reveal(parse_actor);
    let actor = reader.u32()? as usize;
    let object = read_object(reader)?;
    let class = read_object(reader)?;
    let instance = read_instance_fields(reader)?;
    let state = read_option_string(reader)?;
    let state_revision = reader.u64()?;
    let frame = if reader.bool()? {
        Some(read_frame(reader)?)
    } else {
        None
    };
    let timer = if reader.bool()? {
        let remaining = reader.float_bits()?;
        let rate = reader.float_bits()?;
        let looping = reader.bool()?;
        Some(SavedTimer { remaining, rate, looping })
    } else {
        None
    };
    let destroyed = reader.bool()?;
    let disabled_events = read_disabled_events(reader)?;
    Ok(
        SavedActor {
            actor,
            object,
            class,
            instance,
            state,
            state_revision,
            frame,
            timer,
            destroyed,
            disabled_events,
        },
    )
}

} // verus!
