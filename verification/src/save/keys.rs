//! The orders in which a snapshot lists its records, as the derived orders
//! of their keys give them.
use vstd::prelude::*;
use vstd::utf8::encode_utf8;
use crate::order::{Ordered, lemma_bytes_le_total, lemma_bytes_le_trans, lemma_str_le_antisym, str_le, string_le};
use crate::save::model::{ActorModel, CommandModel, InstanceModel, ObjectModel, SavedActor, SavedAnimationChannel, SavedAnimationCommand, SavedObject, SavedObjectInstance, SavedValue, ValueModel};

verus! {

pub proof fn lemma_str_le_total(a: Seq<char>, b: Seq<char>)
    ensures
        str_le(a, b) || str_le(b, a),
{
    lemma_bytes_le_total(encode_utf8(a), encode_utf8(b));
}

pub proof fn lemma_str_le_trans(a: Seq<char>, b: Seq<char>, c: Seq<char>)
    requires
        str_le(a, b),
        str_le(b, c),
    ensures
        str_le(a, c),
{
    lemma_bytes_le_trans(encode_utf8(a), encode_utf8(b), encode_utf8(c));
}

/// The order of objects: by package name, then by export index.
pub open spec fn object_le(a: ObjectModel, b: ObjectModel) -> bool {
    if a.package == b.package {
        a.export_index <= b.export_index
    } else {
        str_le(a.package, b.package)
    }
}

pub proof fn lemma_object_le_total(a: ObjectModel, b: ObjectModel)
    ensures
        object_le(a, b) || object_le(b, a),
{
    lemma_str_le_total(a.package, b.package);
}

pub proof fn lemma_object_le_trans(a: ObjectModel, b: ObjectModel, c: ObjectModel)
    requires
        object_le(a, b),
        object_le(b, c),
    ensures
        object_le(a, c),
{
    if a.package != b.package && b.package != c.package {
        lemma_str_le_trans(a.package, b.package, c.package);
        if a.package == c.package {
            lemma_str_le_antisym(a.package, b.package);
        }
    }
}

/// Compares two objects in object order.
pub fn saved_object_le(a: &SavedObject, b: &SavedObject) -> (r: bool)
    ensures
        r == object_le(a@, b@),
{
    if a.package == b.package {
        a.export_index <= b.export_index
    } else {
        string_le(a.package.as_str(), b.package.as_str())
    }
}

impl Ordered for SavedObjectInstance {
    open spec fn ord_le(a: InstanceModel, b: InstanceModel) -> bool {
        object_le(a.object, b.object)
    }

    proof fn lemma_ord_total(a: InstanceModel, b: InstanceModel) {
        lemma_object_le_total(a.object, b.object);
    }

    proof fn lemma_ord_trans(a: InstanceModel, b: InstanceModel, c: InstanceModel) {
        lemma_object_le_trans(a.object, b.object, c.object);
    }

    fn ord_le_exec(&self, other: &SavedObjectInstance) -> (r: bool) {
        saved_object_le(&self.object, &other.object)
    }
}

impl Ordered for (SavedObject, SavedValue) {
    open spec fn ord_le(a: (ObjectModel, ValueModel), b: (ObjectModel, ValueModel)) -> bool {
        object_le(a.0, b.0)
    }

    proof fn lemma_ord_total(a: (ObjectModel, ValueModel), b: (ObjectModel, ValueModel)) {
        lemma_object_le_total(a.0, b.0);
    }

    proof fn lemma_ord_trans(
        a: (ObjectModel, ValueModel),
        b: (ObjectModel, ValueModel),
        c: (ObjectModel, ValueModel),
    ) {
        lemma_object_le_trans(a.0, b.0, c.0);
    }

    fn ord_le_exec(&self, other: &(SavedObject, SavedValue)) -> (r: bool) {
        saved_object_le(&self.0, &other.0)
    }
}

impl Ordered for (String, SavedValue) {
    open spec fn ord_le(a: (Seq<char>, ValueModel), b: (Seq<char>, ValueModel)) -> bool {
        str_le(a.0, b.0)
    }

    proof fn lemma_ord_total(a: (Seq<char>, ValueModel), b: (Seq<char>, ValueModel)) {
        lemma_str_le_total(a.0, b.0);
    }

    proof fn lemma_ord_trans(
        a: (Seq<char>, ValueModel),
        b: (Seq<char>, ValueModel),
        c: (Seq<char>, ValueModel),
    ) {
        lemma_str_le_trans(a.0, b.0, c.0);
    }

    fn ord_le_exec(&self, other: &(String, SavedValue)) -> (r: bool) {
        string_le(self.0.as_str(), other.0.as_str())
    }
}

impl Ordered for (i32, SavedValue) {
    open spec fn ord_le(a: (i32, ValueModel), b: (i32, ValueModel)) -> bool {
        a.0 <= b.0
    }

    proof fn lemma_ord_total(a: (i32, ValueModel), b: (i32, ValueModel)) {
    }

    proof fn lemma_ord_trans(a: (i32, ValueModel), b: (i32, ValueModel), c: (i32, ValueModel)) {
    }

    fn ord_le_exec(&self, other: &(i32, SavedValue)) -> (r: bool) {
        self.0 <= other.0
    }
}

impl Ordered for SavedActor {
    open spec fn ord_le(a: ActorModel, b: ActorModel) -> bool {
        a.actor <= b.actor
    }

    proof fn lemma_ord_total(a: ActorModel, b: ActorModel) {
    }

    proof fn lemma_ord_trans(a: ActorModel, b: ActorModel, c: ActorModel) {
    }

    fn ord_le_exec(&self, other: &SavedActor) -> (r: bool) {
        self.actor <= other.actor
    }
}

impl Ordered for SavedAnimationCommand {
    open spec fn ord_le(a: CommandModel, b: CommandModel) -> bool {
        a.actor <= b.actor
    }

    proof fn lemma_ord_total(a: CommandModel, b: CommandModel) {
    }

    proof fn lemma_ord_trans(a: CommandModel, b: CommandModel, c: CommandModel) {
    }

    fn ord_le_exec(&self, other: &SavedAnimationCommand) -> (r: bool) {
        self.actor <= other.actor
    }
}

/// The order of animation channels: by actor, root bone, then target.
pub open spec fn channel_le(a: SavedAnimationChannel, b: SavedAnimationChannel) -> bool {
    if a.actor != b.actor {
        a.actor < b.actor
    } else if a.root_bone != b.root_bone {
        a.root_bone < b.root_bone
    } else {
        a.target <= b.target
    }
}

impl Ordered for SavedAnimationChannel {
    open spec fn ord_le(a: SavedAnimationChannel, b: SavedAnimationChannel) -> bool {
        channel_le(a, b)
    }

    proof fn lemma_ord_total(a: SavedAnimationChannel, b: SavedAnimationChannel) {
    }

    proof fn lemma_ord_trans(
        a: SavedAnimationChannel,
        b: SavedAnimationChannel,
        c: SavedAnimationChannel,
    ) {
    }

    fn ord_le_exec(&self, other: &SavedAnimationChannel) -> (r: bool) {
        if self.actor != other.actor {
            self.actor < other.actor
        } else if self.root_bone != other.root_bone {
            self.root_bone < other.root_bone
        } else {
            self.target <= other.target
        }
    }
}

/// An event an actor disabled, with the state it is scoped to, if any.
pub struct DisabledEntry {
    pub state: Option<String>,
    pub event: String,
}

impl View for DisabledEntry {
    type V = (Option<Seq<char>>, Seq<char>);

    open spec fn view(&self) -> (Option<Seq<char>>, Seq<char>) {
        (
            match self.state {
                Some(s) => Some(s@),
                None => None,
            },
            self.event@,
        )
    }
}

/// The order of optional names: none first, then by name.
pub open spec fn option_str_le(a: Option<Seq<char>>, b: Option<Seq<char>>) -> bool {
    match (a, b) {
        (None, _) => true,
        (Some(_), None) => false,
        (Some(x), Some(y)) => str_le(x, y),
    }
}

/// The order of disabled events: by state, then by event.
pub open spec fn entry_le(a: (Option<Seq<char>>, Seq<char>), b: (Option<Seq<char>>, Seq<char>)) -> bool {
    if a.0 == b.0 {
        str_le(a.1, b.1)
    } else {
        option_str_le(a.0, b.0)
    }
}

proof fn lemma_option_str_le_antisym(a: Option<Seq<char>>, b: Option<Seq<char>>)
    requires
        option_str_le(a, b),
        option_str_le(b, a),
    ensures
        a == b,
{
    if let (Some(x), Some(y)) = (a, b) {
        lemma_str_le_antisym(x, y);
    }
}

impl Ordered for DisabledEntry {
    open spec fn ord_le(a: (Option<Seq<char>>, Seq<char>), b: (Option<Seq<char>>, Seq<char>)) -> bool {
        entry_le(a, b)
    }

    proof fn lemma_ord_total(a: (Option<Seq<char>>, Seq<char>), b: (Option<Seq<char>>, Seq<char>)) {
        lemma_str_le_total(a.1, b.1);
        if let (Some(x), Some(y)) = (a.0, b.0) {
            lemma_str_le_total(x, y);
        }
    }

    proof fn lemma_ord_trans(
        a: (Option<Seq<char>>, Seq<char>),
        b: (Option<Seq<char>>, Seq<char>),
        c: (Option<Seq<char>>, Seq<char>),
    ) {
        if a.0 == b.0 && b.0 == c.0 {
            lemma_str_le_trans(a.1, b.1, c.1);
        } else if a.0 != b.0 && b.0 != c.0 {
            if let (Some(x), Some(y), Some(z)) = (a.0, b.0, c.0) {
                lemma_str_le_trans(x, y, z);
            }
            if a.0 == c.0 {
                lemma_option_str_le_antisym(a.0, b.0);
            }
        }
    }

    fn ord_le_exec(&self, other: &DisabledEntry) -> (r: bool) {
        let same_state = match (&self.state, &other.state) {
            (None, None) => true,
            (Some(x), Some(y)) => *x == *y,
            _ => false,
        };
        if same_state {
            string_le(self.event.as_str(), other.event.as_str())
        } else {
            match (&self.state, &other.state) {
                (None, _) => true,
                (Some(_), None) => false,
                (Some(x), Some(y)) => string_le(x.as_str(), y.as_str()),
            }
        }
    }
}

} // verus!
