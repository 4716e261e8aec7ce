//! Writing and reading objects and script values.
use vstd::prelude::*;
use crate::error::{DispatchError, save_error};
use crate::save::format::{MAX_DEPTH, fields_le, fields_writable, lemma_fields_each, lemma_parse_fields_step, lemma_parse_values_step, lemma_prepend_empty, lemma_values_each, object_le, object_writable, package_ok, parse_fields, parse_object, parse_value, parse_values, prepend, value_le, value_writable, values_le, values_writable};
use crate::save::model::{ValueModel, SavedObject, SavedValue, fields_model, lemma_fields_model_index, lemma_fields_model_push, lemma_values_model_index, lemma_values_model_push, value_model, values_model};
use crate::save::wire::{SaveReader, SaveWriter, MAX_ITEMS, count_le};
use crate::text::{contains_either, lower, str_equal, to_ascii_lowercase};

verus! {

/// Writes an object as its package name and export index.
pub fn write_object(writer: &mut SaveWriter, object: &SavedObject) -> (r: Result<(), DispatchError>)
    ensures
        r is Ok <==> object_writable(object@),
        r is Ok ==> final(writer).bytes@ == old(writer).bytes@ + object_le(object@),
        r matches Err(e) ==> e is SaveState,
{
    writer.string(object.package.as_str())?;
    writer.u32(object.export_index);
    assert(writer.bytes@ =~= old(writer).bytes@ + object_le(object@));
    Ok(())
}

/// Reads an object; its package name is folded to lower case and must not be
/// empty, hold a path separator, or be `.` or `..`.
pub fn read_object(reader: &mut SaveReader) -> (r: Result<SavedObject, DispatchError>)
    requires
        old(reader).wf(),
    ensures
        final(reader).wf(),
        final(reader).bytes@ == old(reader).bytes@,
        match r {
            Ok(o) => parse_object(old(reader).rest()) == Some((o@, final(reader).rest())),
            Err(e) => parse_object(old(reader).rest()) is None && e is SaveState,
        },
{
    let name = reader.string()?;
    let package = to_ascii_lowercase(name.as_str());
    proof {
        reveal_strlit(".");
        reveal_strlit("..");
        assert("."@ =~= seq!['.']);
        assert(".."@ =~= seq!['.', '.']);
    }
    if package.as_str().is_empty() || contains_either(package.as_str(), '/', '\\') || str_equal(
        package.as_str(),
        ".",
    ) || str_equal(package.as_str(), "..") {
        return Err(save_error("object package name is invalid"));
    }
    assert(package@ == lower(name@));
    assert(package@.len() > 0);
    assert(!package@.contains('/'));
    assert(!package@.contains('\\'));
    assert(package@ != seq!['.']);
    assert(package@ != seq!['.', '.']);
    assert(package_ok(lower(name@)));
    let export_index = reader.u32()?;
    Ok(SavedObject { package, export_index })
}

/// Writes a script value at nesting `depth`: a tag byte, then its payload.
pub fn write_value(writer: &mut SaveWriter, value: &SavedValue, depth: usize) -> (r: Result<
    (),
    DispatchError,
>)
    ensures
        r is Ok <==> value_writable(value_model(*value), depth as nat),
        r is Ok ==> final(writer).bytes@ == old(writer).bytes@ + value_le(value_model(*value)),
        r matches Err(e) ==> e is SaveState,
    decreases MAX_DEPTH - depth,
{
    if depth >= MAX_DEPTH {
        return Err(save_error("snapshot value nesting exceeds its limit"));
    }
    let ghost start = writer.bytes@;
    match value {
        SavedValue::Null => {
            writer.u8(0);
        },
        SavedValue::Byte(v) => {
            writer.u8(1);
            writer.u8(*v);
        },
        SavedValue::Int(v) => {
            writer.u8(2);
            writer.i32(*v);
        },
        SavedValue::Float(v) => {
            writer.u8(3);
            writer.float_bits(*v)?;
        },
        SavedValue::Bool(v) => {
            writer.u8(4);
            writer.bool(*v);
        },
        SavedValue::String(v) => {
            writer.u8(5);
            writer.string(v.as_str())?;
        },
        SavedValue::Name(v) => {
            writer.u8(6);
            writer.string(v.as_str())?;
        },
        SavedValue::NameIndex(v) => {
            writer.u8(7);
            writer.i32(*v);
        },
        SavedValue::Object(v) => {
            writer.u8(8);
            match v {
                Some(o) => {
                    writer.bool(true);
                    write_object(writer, o)?;
                },
                None => {
                    writer.bool(false);
                },
            }
        },
        SavedValue::SelfObject => {
            writer.u8(9);
        },
        SavedValue::Vector(v) => {
            writer.u8(10);
            writer.float_bits(v[0])?;
            writer.float_bits(v[1])?;
            writer.float_bits(v[2])?;
        },
        SavedValue::Rotator(v) => {
            writer.u8(11);
            writer.i32(v[0]);
            writer.i32(v[1]);
            writer.i32(v[2]);
        },
        SavedValue::Struct(fields) => {
            writer.u8(12);
            proof {
                lemma_fields_model_index(fields@);
                assert(value_model(*value) == ValueModel::Struct(fields_model(fields@)));
            }
            writer.count(fields.len())?;
            let ghost base = writer.bytes@;
            let mut i: usize = 0;
            while i < fields.len()
                invariant
                    0 <= i <= fields@.len(),
                    depth < MAX_DEPTH,
                    fields@.len() <= MAX_ITEMS,
                    writer.bytes@ == base + fields_le(fields_model(fields@.take(i as int))),
                    fields_writable(fields_model(fields@.take(i as int)), (depth + 1) as nat),
                    base == start + seq![12u8] + count_le(fields@.len()),
                    value_model(*value) == ValueModel::Struct(fields_model(fields@)),
                decreases fields@.len() - i,
            {
                let ghost before = writer.bytes@;
                proof {
                    lemma_fields_model_index(fields@);
                    lemma_fields_each(fields_model(fields@), (depth + 1) as nat);
                    lemma_fields_model_push(fields@.take(i as int), fields@[i as int]);
                    assert(fields@.take(i + 1) =~= fields@.take(i as int).push(fields@[i as int]));
                    assert(fields_model(fields@)[i as int] == (
                        fields@[i as int].0@,
                        value_model(fields@[i as int].1),
                    ));
                }
                let named = writer.string(fields[i].0.as_str());
                if named.is_err() {
                    proof {
                        assert(!fields_writable(fields_model(fields@), (depth + 1) as nat));
                        assert(value_model(*value) == ValueModel::Struct(fields_model(fields@)));
                    }
                    return named;
                }
                let written = write_value(writer, &fields[i].1, depth + 1);
                if written.is_err() {
                    proof {
                        assert(!fields_writable(fields_model(fields@), (depth + 1) as nat));
                    }
                    return written;
                }
                proof {
                    let m = fields_model(fields@.take(i + 1));
                    assert(m.subrange(0, m.len() - 1) =~= fields_model(fields@.take(i as int)));
                    assert(writer.bytes@ =~= base + fields_le(m));
                }
                i = i + 1;
            }
            proof {
                assert(fields@.take(fields@.len() as int) =~= fields@);
            }
        },
        SavedValue::Array(values) => {
            writer.u8(13);
            proof {
                lemma_values_model_index(values@);
                assert(value_model(*value) == ValueModel::Array(values_model(values@)));
            }
            writer.count(values.len())?;
            let ghost base = writer.bytes@;
            let mut i: usize = 0;
            while i < values.len()
                invariant
                    0 <= i <= values@.len(),
                    depth < MAX_DEPTH,
                    values@.len() <= MAX_ITEMS,
                    writer.bytes@ == base + values_le(values_model(values@.take(i as int))),
                    values_writable(values_model(values@.take(i as int)), (depth + 1) as nat),
                    base == start + seq![13u8] + count_le(values@.len()),
                    value_model(*value) == ValueModel::Array(values_model(values@)),
                decreases values@.len() - i,
            {
                proof {
                    lemma_values_model_index(values@);
                    lemma_values_each(values_model(values@), (depth + 1) as nat);
                    lemma_values_model_push(values@.take(i as int), values@[i as int]);
                    assert(values@.take(i + 1) =~= values@.take(i as int).push(values@[i as int]));
                }
                let written = write_value(writer, &values[i], depth + 1);
                if written.is_err() {
                    proof {
                        assert(values_model(values@)[i as int] == value_model(values@[i as int]));
                        assert(!values_writable(values_model(values@), (depth + 1) as nat));
                    }
                    return written;
                }
                proof {
                    let m = values_model(values@.take(i + 1));
                    assert(m.subrange(0, m.len() - 1) =~= values_model(values@.take(i as int)));
                    assert(writer.bytes@ =~= base + values_le(m));
                }
                i = i + 1;
            }
            proof {
                assert(values@.take(values@.len() as int) =~= values@);
            }
        },
        SavedValue::UnresolvedObject(v) => {
            writer.u8(14);
            writer.string(v.as_str())?;
        },
    }
    assert(writer.bytes@ =~= start + value_le(value_model(*value)));
    Ok(())
}

/// Reads a script value at nesting `depth`; refuses `MAX_DEPTH` or deeper,
/// an unknown tag, and any payload the format does not allow.
pub fn read_value(reader: &mut SaveReader, depth: usize) -> (r: Result<SavedValue, DispatchError>)
    requires
        old(reader).wf(),
    ensures
        final(reader).wf(),
        final(reader).bytes@ == old(reader).bytes@,
        match r {
            Ok(v) => parse_value(old(reader).rest(), depth as nat) == Some(
                (value_model(v), final(reader).rest()),
            ),
            Err(e) => parse_value(old(reader).rest(), depth as nat) is None && e is SaveState,
        },
    decreases MAX_DEPTH - depth,
{
    if depth >= MAX_DEPTH {
        return Err(save_error("save value nesting exceeds its limit"));
    }
    let tag = reader.u8()?;
    if tag == 0 {
        Ok(SavedValue::Null)
    } else if tag == 1 {
        Ok(SavedValue::Byte(reader.u8()?))
    } else if tag == 2 {
        Ok(SavedValue::Int(reader.i32()?))
    } else if tag == 3 {
        Ok(SavedValue::Float(reader.float_bits()?))
    } else if tag == 4 {
        Ok(SavedValue::Bool(reader.bool()?))
    } else if tag == 5 {
        Ok(SavedValue::String(reader.string()?))
    } else if tag == 6 {
        Ok(SavedValue::Name(reader.string()?))
    } else if tag == 7 {
        Ok(SavedValue::NameIndex(reader.i32()?))
    } else if tag == 8 {
        if reader.bool()? {
            Ok(SavedValue::Object(Some(read_object(reader)?)))
        } else {
            Ok(SavedValue::Object(None))
        }
    } else if tag == 9 {
        Ok(SavedValue::SelfObject)
    } else if tag == 10 {
        let x = reader.float_bits()?;
        let y = reader.float_bits()?;
        let z = reader.float_bits()?;
        Ok(SavedValue::Vector([x, y, z]))
    } else if tag == 11 {
        let x = reader.i32()?;
        let y = reader.i32()?;
        let z = reader.i32()?;
        Ok(SavedValue::Rotator([x, y, z]))
    } else if tag == 12 {
        let n = reader.count()?;
        let ghost start = reader.rest();
        let mut fields: Vec<(String, SavedValue)> = Vec::new();
        let mut i: usize = 0;
        proof {
            lemma_prepend_empty(parse_fields(start, (depth + 1) as nat, n as nat));
            assert(fields_model(fields@) =~= Seq::<(Seq<char>, ValueModel)>::empty());
        }
        while i < n
            invariant
                reader.wf(),
                reader.bytes@ == old(reader).bytes@,
                0 <= i <= n,
                depth < MAX_DEPTH,
                fields@.len() == i,
                parse_value(old(reader).rest(), depth as nat) == (match parse_fields(
                    start,
                    (depth + 1) as nat,
                    n as nat,
                ) {
                    Some((fs, after)) => Some((ValueModel::Struct(fs), after)),
                    None => None,
                }),
                parse_fields(start, (depth + 1) as nat, n as nat) == prepend(
                    fields_model(fields@),
                    parse_fields(reader.rest(), (depth + 1) as nat, (n - i) as nat),
                ),
            decreases n - i,
        {
            let ghost before = reader.rest();
            proof {
                lemma_parse_fields_step(
                    before,
                    (depth + 1) as nat,
                    (n - i) as nat,
                    fields_model(fields@),
                );
            }
            let name = reader.string()?;
            let value = read_value(reader, depth + 1)?;
            proof {
                lemma_fields_model_push(fields@, (name, value));
            }
            fields.push((name, value));
            i = i + 1;
        }
        proof {
            lemma_fields_model_index(fields@);
        }
        Ok(SavedValue::Struct(fields))
    } else if tag == 13 {
        let n = reader.count()?;
        let ghost start = reader.rest();
        let mut values: Vec<SavedValue> = Vec::new();
        let mut i: usize = 0;
        proof {
            lemma_prepend_empty(parse_values(start, (depth + 1) as nat, n as nat));
            assert(values_model(values@) =~= Seq::<ValueModel>::empty());
        }
        while i < n
            invariant
                reader.wf(),
                reader.bytes@ == old(reader).bytes@,
                0 <= i <= n,
                depth < MAX_DEPTH,
                values@.len() == i,
                parse_value(old(reader).rest(), depth as nat) == (match parse_values(
                    start,
                    (depth + 1) as nat,
                    n as nat,
                ) {
                    Some((vs, after)) => Some((ValueModel::Array(vs), after)),
                    None => None,
                }),
                parse_values(start, (depth + 1) as nat, n as nat) == prepend(
                    values_model(values@),
                    parse_values(reader.rest(), (depth + 1) as nat, (n - i) as nat),
                ),
            decreases n - i,
        {
            let ghost before = reader.rest();
            proof {
                lemma_parse_values_step(
                    before,
                    (depth + 1) as nat,
                    (n - i) as nat,
                    values_model(values@),
                );
            }
            let value = read_value(reader, depth + 1)?;
            proof {
                lemma_values_model_push(values@, value);
            }
            values.push(value);
            i = i + 1;
        }
        proof {
            lemma_values_model_index(values@);
        }
        Ok(SavedValue::Array(values))
    } else if tag == 14 {
        Ok(SavedValue::UnresolvedObject(reader.string()?))
    } else {
        Err(save_error("save value has an invalid tag"))
    }
}

} // verus!
