//! How runtime objects and values become snapshot objects and values.
use vstd::prelude::*;
use crate::error::{DispatchError, save_error};
use crate::save::model::{ObjectModel, SavedObject, SavedValue, ValueModel, value_model, values_model, fields_model, lemma_values_model_push, lemma_fields_model_push};
use crate::save::wire::finite_bits;
use crate::order::{sorted, sorted_seq, views};
use crate::save::model::{lemma_fields_model_index, SavedLatent};
use crate::world::runtime::LatentAction;
use crate::text::{contains_either, lower, starts_with_char, str_equal, to_ascii_lowercase};
use crate::world::capture::table_get;
use crate::value::{ObjectId, ObjectIdModel, StoredValue, Value};
use crate::world::runtime::ScriptRuntime;

verus! {

/// The package that actors spawned at run time belong to.
pub open spec fn runtime_package() -> Seq<char> {
    "<runtime>"@
}

/// Whether a path reads the same way on every platform: it holds no
/// backslash and no colon and does not start with two slashes, so `/` is
/// its only separator and it has no prefix.
pub open spec fn portable_path(path: Seq<char>) -> bool {
    &&& !path.contains('\\')
    &&& !path.contains(':')
    &&& !(path.len() >= 2 && path[0] == '/' && path[1] == '/')
}

/// The text of a path after its last `/`; all of it when it has none.
pub open spec fn last_segment(path: Seq<char>) -> Seq<char>
    decreases path.len(),
{
    if path.len() == 0 {
        path
    } else if path.last() == '/' {
        Seq::empty()
    } else {
        last_segment(path.drop_last()).push(path.last())
    }
}

/// The final component of a `/`-separated path: its last segment that is
/// neither empty nor `.`; nothing when there is none or when it is `..`.
pub open spec fn final_component(path: Seq<char>) -> Option<Seq<char>>
    decreases path.len(),
{
    let segment = last_segment(path);
    if segment.len() == 0 || segment == seq!['.'] {
        if segment.len() >= path.len() {
            None
        } else {
            final_component(path.subrange(0, path.len() - segment.len() - 1))
        }
    } else if segment == seq!['.', '.'] {
        None
    } else {
        Some(segment)
    }
}

/// The last position of a character in a text.
pub open spec fn last_index(text: Seq<char>, c: char) -> Option<int>
    decreases text.len(),
{
    if text.len() == 0 {
        None
    } else if text.last() == c {
        Some(text.len() - 1)
    } else {
        last_index(text.drop_last(), c)
    }
}

/// A file name without its extension: the text before its last `.`, or
/// the whole name when it has no `.` but a leading one.
pub open spec fn name_stem(name: Seq<char>) -> Seq<char> {
    match last_index(name, '.') {
        Some(i) => if i > 0 {
            name.subrange(0, i)
        } else {
            name
        },
        None => name,
    }
}

/// The file stem of a path whose only separator is `/`: the stem of its
/// final component.
pub open spec fn path_stem(path: Seq<char>) -> Option<Seq<char>> {
    match final_component(path) {
        Some(name) => Some(name_stem(name)),
        None => None,
    }
}

/// `std::path::Path::file_stem` on a path given as a string, then
/// `OsStr::to_str`. For a path that reads the same way on every platform
/// the result is `path_stem` of it. Of other paths nothing is stated: a
/// backslash, a colon or a leading `//` is a separator or a prefix on
/// Windows and an ordinary character elsewhere, so their stem depends on
/// the platform.
#[verifier::external_body]
fn file_stem(path: &str) -> (r: Option<String>)
    ensures
        portable_path(path@) ==> (match r {
            Some(s) => path_stem(path@) == Some(s@),
            None => path_stem(path@) is None,
        }),
{
    match std::path::Path::new(path).file_stem() {
        Some(stem) => match stem.to_str() {
            Some(s) => Some(s.to_owned()),
            None => None,
        },
        None => None,
    }
}

/// Whether a package is special: its name starts with `<`.
pub open spec fn special_package(package: Seq<char>) -> bool {
    package.len() > 0 && package[0] == '<'
}

/// Whether the name a snapshot records for a package is the same on every
/// platform: a special package, or a path that reads the same way on every
/// platform.
pub open spec fn known_package(package: Seq<char>) -> bool {
    special_package(package) || portable_path(package)
}

/// The package name a snapshot records: special packages (starting with
/// `<`) as they are, any other the file stem of its path, in lower case.
/// The stem of a path that reads the same way on every platform is
/// `path_stem`; that of another path is the one `st` records for it, and
/// there is none when `st` records none.
pub open spec fn saved_package(st: Stems, package: Seq<char>) -> Option<Seq<char>> {
    if special_package(package) {
        Some(package)
    } else if portable_path(package) {
        match path_stem(package) {
            Some(stem) => Some(lower(stem)),
            None => None,
        }
    } else {
        match table_get(st, package) {
            Some(stem) => Some(lower(stem)),
            None => None,
        }
    }
}

/// The snapshot form of an object, when its package has a name and its
/// index fits 32 bits.
pub open spec fn saved_object_of(st: Stems, o: ObjectIdModel) -> Option<ObjectModel> {
    match saved_package(st, o.package) {
        Some(p) => if o.export_index <= u32::MAX {
            Some(ObjectModel { package: p, export_index: o.export_index as u32 })
        } else {
            None
        },
        None => None,
    }
}

/// A reference as a snapshot records it: nothing for a run-time actor.
pub open spec fn saved_reference_of(st: Stems, o: ObjectIdModel) -> Option<Option<ObjectModel>> {
    if o.package == runtime_package() {
        Some(None)
    } else {
        match saved_object_of(st, o) {
            Some(s) => Some(Some(s)),
            None => None,
        }
    }
}

/// The file stems found for package paths whose stem depends on the
/// platform, each path with the stem `Path::file_stem` gave for it.
pub type Stems = Seq<(Seq<char>, Seq<char>)>;

/// The file stems a save or a restore found for the package paths it met
/// whose stem depends on the platform.
pub struct StemTable {
    pub entries: Vec<(String, String)>,
}

impl View for StemTable {
    type V = Stems;

    open spec fn view(&self) -> Stems {
        self.entries@.map_values(|e: (String, String)| (e.0@, e.1@))
    }
}

/// Whether a path reads the same way on every platform.
pub fn is_portable_path(path: &str) -> (r: bool)
    ensures
        r == portable_path(path@),
{
    if contains_either(path, '\\', ':') {
        return false;
    }
    let n = path.unicode_len();
    !(n >= 2 && path.get_char(0) == '/' && path.get_char(1) == '/')
}

/// The stem a table records for a path.
pub fn find_stem(stems: &StemTable, path: &str) -> (r: Option<String>)
    ensures
        match r {
            Some(s) => table_get(stems@, path@) == Some(s@),
            None => table_get(stems@, path@) is None,
        },
{
    let ghost all = stems@;
    let mut i: usize = 0;
    assert(all.subrange(0, all.len() as int) =~= all);
    while i < stems.entries.len()
        invariant
            0 <= i <= all.len(),
            all == stems@,
            all.len() == stems.entries@.len(),
            table_get(all, path@) == table_get(all.subrange(i as int, all.len() as int), path@),
        decreases all.len() - i,
    {
        let ghost rest = all.subrange(i as int, all.len() as int);
        assert(rest[0] == all[i as int]);
        assert(rest.subrange(1, rest.len() as int) =~= all.subrange(i + 1, all.len() as int));
        assert(all[i as int] == (stems.entries@[i as int].0@, stems.entries@[i as int].1@));
        if str_equal(stems.entries[i].0.as_str(), path) {
            return Some(stems.entries[i].1.clone());
        }
        i = i + 1;
    }
    None
}

/// Finds the stems of the paths among `paths` whose stem depends on the
/// platform, calling `Path::file_stem` once for each; a path without a
/// stem is left out. What the calls give back depends on the platform, so
/// only which paths the table can hold is stated.
pub fn stem_table(paths: &Vec<String>) -> (r: StemTable)
    ensures
        forall|k: int|
            0 <= k < r@.len() ==> !portable_path(#[trigger] r@[k].0) && exists|j: int|
                0 <= j < paths@.len() && paths@[j]@ == r@[k].0,
{
    let mut entries: Vec<(String, String)> = Vec::new();
    let mut i: usize = 0;
    while i < paths.len()
        invariant
            0 <= i <= paths@.len(),
            forall|k: int|
                0 <= k < entries@.len() ==> !portable_path(#[trigger] entries@[k].0@) && exists|j: int|
                    0 <= j < i && paths@[j]@ == entries@[k].0@,
        decreases paths@.len() - i,
    {
        if !is_portable_path(paths[i].as_str()) {
            if let Some(stem) = file_stem(paths[i].as_str()) {
                let path = paths[i].clone();
                entries.push((path, stem));
            }
        }
        i = i + 1;
    }
    let r = StemTable { entries };
    assert forall|k: int| 0 <= k < r@.len() implies !portable_path(#[trigger] r@[k].0) && exists|j: int|
        0 <= j < paths@.len() && paths@[j]@ == r@[k].0 by {
        assert(r@[k].0 == r.entries@[k].0@);
    }
    r
}

/// Converts an object to its snapshot form, taking the stem of a path whose
/// stem depends on the platform from `stems`.
pub fn saved_object_with(object: &ObjectId, stems: &StemTable) -> (r: Result<SavedObject, DispatchError>)
    ensures
        match r {
            Ok(s) => saved_object_of(stems@, object@) == Some(s@),
            Err(e) => saved_object_of(stems@, object@) is None && e is SaveState,
        },
{
    let package = if starts_with_char(object.package.as_str(), '<') {
        object.package.clone()
    } else if is_portable_path(object.package.as_str()) {
        match file_stem(object.package.as_str()) {
            Some(stem) => to_ascii_lowercase(stem.as_str()),
            None => {
                return Err(save_error("object package has no package name"));
            },
        }
    } else {
        match find_stem(stems, object.package.as_str()) {
            Some(stem) => to_ascii_lowercase(stem.as_str()),
            None => {
                return Err(save_error("object package has no package name"));
            },
        }
    };
    if object.export_index > u32::MAX as usize {
        return Err(save_error("object export index exceeds save format"));
    }
    Ok(SavedObject { package, export_index: object.export_index as u32 })
}

/// What converting an object answers, the stems of platform-dependent
/// package paths being `st`.
pub open spec fn object_outcome(st: Stems, object: ObjectId, r: Result<SavedObject, DispatchError>) -> bool {
    match r {
        Ok(s) => saved_object_of(st, object@) == Some(s@),
        Err(e) => saved_object_of(st, object@) is None && e is SaveState,
    }
}

/// Converts an object to its snapshot form: the stem of its package path
/// is the one `Path::file_stem` gives, found first for a path whose stem
/// depends on the platform.
pub fn saved_object(object: &ObjectId) -> (r: Result<SavedObject, DispatchError>)
    ensures
        exists|st: Stems| #[trigger] object_outcome(st, *object, r),
        known_package(object@.package) ==> match r {
            Ok(s) => saved_object_of(Seq::empty(), object@) == Some(s@),
            Err(e) => saved_object_of(Seq::empty(), object@) is None,
        },
{
    let paths = vec![object.package.clone()];
    let stems = stem_table(&paths);
    let r = saved_object_with(object, &stems);
    assert(object_outcome(stems@, *object, r));
    proof {
        if known_package(object@.package) {
            assert(saved_package(stems@, object@.package) == saved_package(Seq::empty(), object@.package));
        }
    }
    r
}

/// Whether an object is an actor spawned at run time.
pub fn is_runtime_object(object: &ObjectId) -> (r: bool)
    ensures
        r == (object@.package == runtime_package()),
{
    str_equal(object.package.as_str(), "<runtime>")
}

/// Converts a reference: nothing for a run-time actor.
pub fn saved_object_reference(object: &ObjectId, stems: &StemTable) -> (r: Result<Option<SavedObject>, DispatchError>)
    ensures
        match r {
            Ok(s) => saved_reference_of(stems@, object@) == Some(
                match s {
                    Some(o) => Some(o@),
                    None => None::<ObjectModel>,
                },
            ),
            Err(e) => saved_reference_of(stems@, object@) is None && e is SaveState,
        },
{
    if is_runtime_object(object) {
        Ok(None)
    } else {
        let saved = saved_object_with(object, stems)?;
        Ok(Some(saved))
    }
}

/// The object an object handle names: handle `h > 0` is entry `h - 1`.
pub open spec fn handle_object(handles: Seq<ObjectId>, h: i32) -> Option<ObjectIdModel> {
    if 0 < h && h - 1 < handles.len() {
        Some(handles[h - 1]@)
    } else {
        None
    }
}

/// Whether a script value refers to a run-time actor, looking at struct
/// fields and array items in order and stopping at the first that does;
/// nothing when an object handle on the way names no object.
pub open spec fn plain_ref(handles: Seq<ObjectId>, v: Value) -> Option<bool>
    decreases v,
{
    match v {
        Value::Object(h) => if h > 0 {
            match handle_object(handles, h) {
                Some(o) => Some(o.package == runtime_package()),
                None => None,
            }
        } else {
            Some(false)
        },
        Value::Struct(fields) => fields_ref(handles, fields@),
        Value::Array(values) => values_ref(handles, values@),
        _ => Some(false),
    }
}

pub open spec fn values_ref(handles: Seq<ObjectId>, values: Seq<Value>) -> Option<bool>
    decreases values,
{
    if values.len() == 0 {
        Some(false)
    } else {
        match plain_ref(handles, values[0]) {
            Some(true) => Some(true),
            Some(false) => values_ref(handles, values.subrange(1, values.len() as int)),
            None => None,
        }
    }
}

pub open spec fn fields_ref(handles: Seq<ObjectId>, fields: Seq<(String, Value)>) -> Option<bool>
    decreases fields,
{
    if fields.len() == 0 {
        Some(false)
    } else {
        match plain_ref(handles, fields[0].1) {
            Some(true) => Some(true),
            Some(false) => fields_ref(handles, fields.subrange(1, fields.len() as int)),
            None => None,
        }
    }
}

/// Whether a stored value refers to a run-time actor.
pub open spec fn stored_ref(handles: Seq<ObjectId>, v: StoredValue) -> Option<bool>
    decreases v,
{
    match v {
        StoredValue::Object(Some(o)) => Some(o@.package == runtime_package()),
        StoredValue::Array(values) => stored_values_ref(handles, values@),
        StoredValue::Value(x) => plain_ref(handles, x),
        _ => Some(false),
    }
}

pub open spec fn stored_values_ref(handles: Seq<ObjectId>, values: Seq<StoredValue>) -> Option<bool>
    decreases values,
{
    if values.len() == 0 {
        Some(false)
    } else {
        match stored_ref(handles, values[0]) {
            Some(true) => Some(true),
            Some(false) => stored_values_ref(handles, values.subrange(1, values.len() as int)),
            None => None,
        }
    }
}

/// The snapshot form of a script value, when every float in it is finite and
/// every object handle names an object that has one.
pub open spec fn saved_value_of(st: Stems, handles: Seq<ObjectId>, v: Value) -> Option<ValueModel>
    decreases v,
{
    match v {
        Value::Null => Some(ValueModel::Null),
        Value::Byte(b) => Some(ValueModel::Byte(b)),
        Value::Int(i) => Some(ValueModel::Int(i)),
        Value::Float(f) => if finite_bits(f) {
            Some(ValueModel::Float(f))
        } else {
            None
        },
        Value::Bool(b) => Some(ValueModel::Bool(b)),
        Value::String(s) => Some(ValueModel::String(s@)),
        Value::Name(i) => Some(ValueModel::NameIndex(i)),
        Value::NameText(s) => Some(ValueModel::Name(s@)),
        Value::Object(h) => if h == 0 {
            Some(ValueModel::Object(None))
        } else if h == -1 {
            Some(ValueModel::SelfObject)
        } else {
            match handle_object(handles, h) {
                Some(o) => match saved_reference_of(st, o) {
                    Some(r) => Some(ValueModel::Object(r)),
                    None => None,
                },
                None => None,
            }
        },
        Value::Vector(x) => if finite_bits(x[0]) && finite_bits(x[1]) && finite_bits(x[2]) {
            Some(ValueModel::Vector(x))
        } else {
            None
        },
        Value::Rotator(r) => Some(ValueModel::Rotator(r)),
        Value::Struct(fields) => match saved_fields_of(st, handles, fields@) {
            Some(fs) => Some(ValueModel::Struct(sorted_seq::<(String, SavedValue)>(fs))),
            None => None,
        },
        Value::Array(values) => match saved_values_of(st, handles, values@) {
            Some(vs) => Some(ValueModel::Array(vs)),
            None => None,
        },
    }
}

pub open spec fn saved_values_of(st: Stems, handles: Seq<ObjectId>, values: Seq<Value>) -> Option<Seq<ValueModel>>
    decreases values,
{
    if values.len() == 0 {
        Some(Seq::empty())
    } else {
        match saved_value_of(st, handles, values[0]) {
            Some(v) => match saved_values_of(st, handles, values.subrange(1, values.len() as int)) {
                Some(vs) => Some(seq![v] + vs),
                None => None,
            },
            None => None,
        }
    }
}

pub open spec fn saved_fields_of(st: Stems, handles: Seq<ObjectId>, fields: Seq<(String, Value)>) -> Option<
    Seq<(Seq<char>, ValueModel)>,
>
    decreases fields,
{
    if fields.len() == 0 {
        Some(Seq::empty())
    } else {
        match saved_value_of(st, handles, fields[0].1) {
            Some(v) => match saved_fields_of(st, handles, fields.subrange(1, fields.len() as int)) {
                Some(fs) => Some(seq![(fields[0].0@, v)] + fs),
                None => None,
            },
            None => None,
        }
    }
}

/// The snapshot form of a stored property value.
pub open spec fn saved_stored_of(st: Stems, handles: Seq<ObjectId>, v: StoredValue) -> Option<ValueModel>
    decreases v,
{
    match v {
        StoredValue::Value(x) => saved_value_of(st, handles, x),
        StoredValue::Array(values) => match saved_stored_values_of(st, handles, values@) {
            Some(vs) => Some(ValueModel::Array(vs)),
            None => None,
        },
        StoredValue::Name(s) => Some(ValueModel::Name(s@)),
        StoredValue::Object(None) => Some(ValueModel::Object(None)),
        StoredValue::Object(Some(o)) => match saved_reference_of(st, o@) {
            Some(r) => Some(ValueModel::Object(r)),
            None => None,
        },
        StoredValue::UnresolvedObject(s) => Some(ValueModel::UnresolvedObject(s@)),
        StoredValue::SelfObject => Some(ValueModel::SelfObject),
    }
}

pub open spec fn saved_stored_values_of(st: Stems, handles: Seq<ObjectId>, values: Seq<StoredValue>) -> Option<
    Seq<ValueModel>,
>
    decreases values,
{
    if values.len() == 0 {
        Some(Seq::empty())
    } else {
        match saved_stored_of(st, handles, values[0]) {
            Some(v) => match saved_stored_values_of(st, handles, values.subrange(1, values.len() as int)) {
                Some(vs) => Some(seq![v] + vs),
                None => None,
            },
            None => None,
        }
    }
}

/// Prefixes converted items to the conversion of the rest.
pub open spec fn then_rest<T>(done: Seq<T>, rest: Option<Seq<T>>) -> Option<Seq<T>> {
    match rest {
        Some(r) => Some(done + r),
        None => None,
    }
}

/// Whether a script value refers to a run-time actor.
pub fn plain_value_has_runtime_reference(runtime: &ScriptRuntime, value: &Value) -> (r: Result<
    bool,
    DispatchError,
>)
    ensures
        match r {
            Ok(b) => plain_ref(runtime.handle_objects@, *value) == Some(b),
            Err(e) => plain_ref(runtime.handle_objects@, *value) is None && e is InvalidObjectHandle,
        },
    decreases value,
{
    let handles = &runtime.handle_objects;
    match value {
        Value::Object(handle) => {
            if *handle > 0 {
                let index = (*handle - 1) as usize;
                if index >= handles.len() {
                    return Err(DispatchError::InvalidObjectHandle { handle: *handle });
                }
                Ok(is_runtime_object(&handles[index]))
            } else {
                Ok(false)
            }
        },
        Value::Struct(fields) => {
            let mut i: usize = 0;
            assert(fields@.subrange(0, fields@.len() as int) =~= fields@);
            while i < fields.len()
                invariant
                    0 <= i <= fields@.len(),
                    *value == Value::Struct(*fields),
                    handles == &runtime.handle_objects,
                    plain_ref(runtime.handle_objects@, *value) == fields_ref(
                        runtime.handle_objects@,
                        fields@.subrange(i as int, fields@.len() as int),
                    ),
                decreases fields@.len() - i,
            {
                let ghost rest = fields@.subrange(i as int, fields@.len() as int);
                assert(rest.subrange(1, rest.len() as int) =~= fields@.subrange(
                    i + 1,
                    fields@.len() as int,
                ));
                assert(rest[0] == fields@[i as int]);
                assert(decreases_to!(*value => fields@[i as int].1));
                if plain_value_has_runtime_reference(runtime, &fields[i].1)? {
                    return Ok(true);
                }
                i = i + 1;
            }
            Ok(false)
        },
        Value::Array(values) => {
            let mut i: usize = 0;
            assert(values@.subrange(0, values@.len() as int) =~= values@);
            while i < values.len()
                invariant
                    0 <= i <= values@.len(),
                    *value == Value::Array(*values),
                    plain_ref(runtime.handle_objects@, *value) == values_ref(
                        runtime.handle_objects@,
                        values@.subrange(i as int, values@.len() as int),
                    ),
                decreases values@.len() - i,
            {
                let ghost rest = values@.subrange(i as int, values@.len() as int);
                assert(rest.subrange(1, rest.len() as int) =~= values@.subrange(
                    i + 1,
                    values@.len() as int,
                ));
                assert(rest[0] == values@[i as int]);
                assert(decreases_to!(*value => values@[i as int]));
                if plain_value_has_runtime_reference(runtime, &values[i])? {
                    return Ok(true);
                }
                i = i + 1;
            }
            Ok(false)
        },
        _ => Ok(false),
    }
}

/// Whether a stored property value refers to a run-time actor.
pub fn stored_value_has_runtime_reference(runtime: &ScriptRuntime, value: &StoredValue) -> (r: Result<
    bool,
    DispatchError,
>)
    ensures
        match r {
            Ok(b) => stored_ref(runtime.handle_objects@, *value) == Some(b),
            Err(e) => stored_ref(runtime.handle_objects@, *value) is None && e is InvalidObjectHandle,
        },
    decreases value,
{
    match value {
        StoredValue::Object(Some(object)) => Ok(is_runtime_object(object)),
        StoredValue::Array(values) => {
            let mut i: usize = 0;
            assert(values@.subrange(0, values@.len() as int) =~= values@);
            while i < values.len()
                invariant
                    0 <= i <= values@.len(),
                    *value == StoredValue::Array(*values),
                    stored_ref(runtime.handle_objects@, *value) == stored_values_ref(
                        runtime.handle_objects@,
                        values@.subrange(i as int, values@.len() as int),
                    ),
                decreases values@.len() - i,
            {
                let ghost rest = values@.subrange(i as int, values@.len() as int);
                assert(rest.subrange(1, rest.len() as int) =~= values@.subrange(
                    i + 1,
                    values@.len() as int,
                ));
                assert(rest[0] == values@[i as int]);
                assert(decreases_to!(*value => values@[i as int]));
                if stored_value_has_runtime_reference(runtime, &values[i])? {
                    return Ok(true);
                }
                i = i + 1;
            }
            Ok(false)
        },
        StoredValue::Value(inner) => plain_value_has_runtime_reference(runtime, inner),
        _ => Ok(false),
    }
}

/// The package paths of the objects a stored value holds.
pub(crate) fn stored_paths(value: &StoredValue) -> (r: Vec<String>)
    decreases value,
{
    match value {
        StoredValue::Object(Some(object)) => vec![object.package.clone()],
        StoredValue::Array(values) => {
            let mut paths: Vec<String> = Vec::new();
            let mut i: usize = 0;
            assert forall|k: int| 0 <= k < values@.len() implies decreases_to!(*value => values@[k]) by {
                assert(decreases_to!(*value => values@[k]));
            }
            while i < values.len()
                invariant
                    0 <= i <= values@.len(),
                    forall|k: int| 0 <= k < values@.len() ==> decreases_to!(*value => values@[k]),
                decreases values@.len() - i,
            {
                assert(decreases_to!(*value => values@[i as int]));
                let mut inner = stored_paths(&values[i]);
                paths.append(&mut inner);
                i = i + 1;
            }
            paths
        },
        _ => Vec::new(),
    }
}

/// Converts a script value to its snapshot form.
pub fn saved_plain_value(runtime: &ScriptRuntime, value: &Value, stems: &StemTable) -> (r: Result<
    SavedValue,
    DispatchError,
>)
    ensures
        match r {
            Ok(s) => saved_value_of(stems@, 
                runtime.handle_objects@,
                *value,
            ) == Some(value_model(s)),
            Err(e) => saved_value_of(stems@, runtime.handle_objects@, *value) is None,
        },
    decreases value,
{
    let ghost st = stems@;
    let handles = &runtime.handle_objects;
    match value {
        Value::Null => Ok(SavedValue::Null),
        Value::Byte(b) => Ok(SavedValue::Byte(*b)),
        Value::Int(i) => Ok(SavedValue::Int(*i)),
        Value::Float(f) => {
            if *f & 0x7f80_0000 == 0x7f80_0000 {
                return Err(save_error("snapshot contains a non-finite float"));
            }
            Ok(SavedValue::Float(*f))
        },
        Value::Bool(b) => Ok(SavedValue::Bool(*b)),
        Value::String(s) => Ok(SavedValue::String(s.clone())),
        Value::Name(i) => Ok(SavedValue::NameIndex(*i)),
        Value::NameText(s) => Ok(SavedValue::Name(s.clone())),
        Value::Object(handle) => {
            if *handle == 0 {
                Ok(SavedValue::Object(None))
            } else if *handle == -1 {
                Ok(SavedValue::SelfObject)
            } else if *handle > 0 {
                let index = (*handle - 1) as usize;
                if index >= handles.len() {
                    return Err(DispatchError::InvalidObjectHandle { handle: *handle });
                }
                Ok(SavedValue::Object(saved_object_reference(&handles[index], stems)?))
            } else {
                Err(DispatchError::InvalidObjectHandle { handle: *handle })
            }
        },
        Value::Vector(x) => {
            if x[0] & 0x7f80_0000 == 0x7f80_0000 || x[1] & 0x7f80_0000 == 0x7f80_0000 || x[2]
                & 0x7f80_0000 == 0x7f80_0000 {
                return Err(save_error("snapshot contains a non-finite vector"));
            }
            Ok(SavedValue::Vector(*x))
        },
        Value::Rotator(x) => Ok(SavedValue::Rotator(*x)),
        Value::Struct(fields) => {
            let mut out: Vec<(String, SavedValue)> = Vec::new();
            let mut i: usize = 0;
            assert(fields@.subrange(0, fields@.len() as int) =~= fields@);
            assert(fields_model(out@) =~= Seq::<(Seq<char>, ValueModel)>::empty());
            while i < fields.len()
                invariant
                    st == stems@,
                    0 <= i <= fields@.len(),
                    *value == Value::Struct(*fields),
                    saved_fields_of(st, runtime.handle_objects@, fields@) == then_rest(
                        fields_model(out@),
                        saved_fields_of(st, 
                            runtime.handle_objects@,
                            fields@.subrange(i as int, fields@.len() as int),
                        ),
                    ),
                decreases fields@.len() - i,
            {
                let ghost rest = fields@.subrange(i as int, fields@.len() as int);
                assert(rest.subrange(1, rest.len() as int) =~= fields@.subrange(
                    i + 1,
                    fields@.len() as int,
                ));
                assert(rest[0] == fields@[i as int]);
                assert(decreases_to!(*value => fields@[i as int].1));
                let converted = saved_plain_value(runtime, &fields[i].1, stems)?;
                let name = fields[i].0.clone();
                proof {
                    lemma_fields_model_push(out@, (name, converted));
                    if let Some(tail) = saved_fields_of(st, 
                        runtime.handle_objects@,
                        fields@.subrange(i + 1, fields@.len() as int),
                    ) {
                        assert(fields_model(out@) + (seq![(name@, value_model(converted))] + tail)
                            =~= fields_model(out@).push((name@, value_model(converted))) + tail);
                    }
                }
                out.push((name, converted));
                i = i + 1;
            }
            assert(fields_model(out@) + Seq::<(Seq<char>, ValueModel)>::empty() =~= fields_model(
                out@,
            ));
            proof {
                lemma_fields_views(out@);
            }
            let ordered = sorted(out);
            proof {
                lemma_fields_views(ordered@);
            }
            Ok(SavedValue::Struct(ordered))
        },
        Value::Array(values) => {
            let mut out: Vec<SavedValue> = Vec::new();
            let mut i: usize = 0;
            assert(values@.subrange(0, values@.len() as int) =~= values@);
            assert(values_model(out@) =~= Seq::<ValueModel>::empty());
            while i < values.len()
                invariant
                    st == stems@,
                    0 <= i <= values@.len(),
                    *value == Value::Array(*values),
                    saved_values_of(st, runtime.handle_objects@, values@) == then_rest(
                        values_model(out@),
                        saved_values_of(st, 
                            runtime.handle_objects@,
                            values@.subrange(i as int, values@.len() as int),
                        ),
                    ),
                decreases values@.len() - i,
            {
                let ghost rest = values@.subrange(i as int, values@.len() as int);
                assert(rest.subrange(1, rest.len() as int) =~= values@.subrange(
                    i + 1,
                    values@.len() as int,
                ));
                assert(rest[0] == values@[i as int]);
                assert(decreases_to!(*value => values@[i as int]));
                let converted = saved_plain_value(runtime, &values[i], stems)?;
                proof {
                    lemma_values_model_push(out@, converted);
                    if let Some(tail) = saved_values_of(st, 
                        runtime.handle_objects@,
                        values@.subrange(i + 1, values@.len() as int),
                    ) {
                        assert(values_model(out@) + (seq![value_model(converted)] + tail)
                            =~= values_model(out@).push(value_model(converted)) + tail);
                    }
                }
                out.push(converted);
                i = i + 1;
            }
            assert(values_model(out@) + Seq::<ValueModel>::empty() =~= values_model(out@));
            Ok(SavedValue::Array(out))
        },
    }
}

/// The fields of a struct value, as a snapshot holds them, are their views.
pub proof fn lemma_fields_views(fields: Seq<(String, SavedValue)>)
    ensures
        fields_model(fields) == views(fields),
{
    lemma_fields_model_index(fields);
    assert(fields_model(fields) =~= views(fields));
}

/// Converts a stored property value to its snapshot form.
pub fn saved_stored_value(runtime: &ScriptRuntime, value: &StoredValue, stems: &StemTable) -> (r: Result<
    SavedValue,
    DispatchError,
>)
    ensures
        match r {
            Ok(s) => saved_stored_of(stems@, 
                runtime.handle_objects@,
                *value,
            ) == Some(value_model(s)),
            Err(e) => saved_stored_of(stems@, runtime.handle_objects@, *value) is None,
        },
    decreases value,
{
    let ghost st = stems@;
    match value {
        StoredValue::Value(inner) => saved_plain_value(runtime, inner, stems),
        StoredValue::Array(values) => {
            let mut out: Vec<SavedValue> = Vec::new();
            let mut i: usize = 0;
            assert(values@.subrange(0, values@.len() as int) =~= values@);
            assert(values_model(out@) =~= Seq::<ValueModel>::empty());
            while i < values.len()
                invariant
                    st == stems@,
                    0 <= i <= values@.len(),
                    *value == StoredValue::Array(*values),
                    saved_stored_values_of(st, runtime.handle_objects@, values@) == then_rest(
                        values_model(out@),
                        saved_stored_values_of(st, 
                            runtime.handle_objects@,
                            values@.subrange(i as int, values@.len() as int),
                        ),
                    ),
                decreases values@.len() - i,
            {
                let ghost rest = values@.subrange(i as int, values@.len() as int);
                assert(rest.subrange(1, rest.len() as int) =~= values@.subrange(
                    i + 1,
                    values@.len() as int,
                ));
                assert(rest[0] == values@[i as int]);
                assert(decreases_to!(*value => values@[i as int]));
                let converted = saved_stored_value(runtime, &values[i], stems)?;
                proof {
                    lemma_values_model_push(out@, converted);
                    if let Some(tail) = saved_stored_values_of(st, 
                        runtime.handle_objects@,
                        values@.subrange(i + 1, values@.len() as int),
                    ) {
                        assert(values_model(out@) + (seq![value_model(converted)] + tail)
                            =~= values_model(out@).push(value_model(converted)) + tail);
                    }
                }
                out.push(converted);
                i = i + 1;
            }
            assert(values_model(out@) + Seq::<ValueModel>::empty() =~= values_model(out@));
            Ok(SavedValue::Array(out))
        },
        StoredValue::Name(name) => Ok(SavedValue::Name(name.clone())),
        StoredValue::Object(None) => Ok(SavedValue::Object(None)),
        StoredValue::Object(Some(object)) => Ok(SavedValue::Object(saved_object_reference(object, stems)?)),
        StoredValue::UnresolvedObject(name) => Ok(SavedValue::UnresolvedObject(name.clone())),
        StoredValue::SelfObject => Ok(SavedValue::SelfObject),
    }
}

/// Converts a local of a suspended frame: frame locals convert as script
/// values do.
pub fn saved_frame_value(runtime: &ScriptRuntime, value: &Value, stems: &StemTable) -> (r: Result<
    SavedValue,
    DispatchError,
>)
    ensures
        match r {
            Ok(s) => saved_value_of(stems@, 
                runtime.handle_objects@,
                *value,
            ) == Some(value_model(s)),
            Err(e) => saved_value_of(stems@, runtime.handle_objects@, *value) is None,
        },
{
    let ghost st = stems@;
    saved_plain_value(runtime, value, stems)
}

/// The snapshot form of a latent action: the same action.
pub open spec fn latent_of(latent: LatentAction) -> SavedLatent {
    match latent {
        LatentAction::Continue => SavedLatent::Continue,
        LatentAction::Stop => SavedLatent::Stop,
        LatentAction::Sleep(d) => SavedLatent::Sleep(d),
        LatentAction::FinishAnimation(a) => SavedLatent::FinishAnimation(a),
        LatentAction::FinishInterpolation(a) => SavedLatent::FinishInterpolation(a),
        LatentAction::MoveTo(a) => SavedLatent::MoveTo(a),
        LatentAction::MoveToward(a) => SavedLatent::MoveToward(a),
        LatentAction::TurnTo(a) => SavedLatent::TurnTo(a),
        LatentAction::TurnToward(a) => SavedLatent::TurnToward(a),
    }
}

/// Converts a latent action to its snapshot form.
pub fn saved_latent(latent: LatentAction) -> (r: SavedLatent)
    ensures
        r == latent_of(latent),
{
    match latent {
        LatentAction::Continue => SavedLatent::Continue,
        LatentAction::Stop => SavedLatent::Stop,
        LatentAction::Sleep(d) => SavedLatent::Sleep(d),
        LatentAction::FinishAnimation(a) => SavedLatent::FinishAnimation(a),
        LatentAction::FinishInterpolation(a) => SavedLatent::FinishInterpolation(a),
        LatentAction::MoveTo(a) => SavedLatent::MoveTo(a),
        LatentAction::MoveToward(a) => SavedLatent::MoveToward(a),
        LatentAction::TurnTo(a) => SavedLatent::TurnTo(a),
        LatentAction::TurnToward(a) => SavedLatent::TurnToward(a),
    }
}

} // verus!
