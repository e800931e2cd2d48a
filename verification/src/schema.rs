//! The schema document: messages with their fields and enums with their
//! values, each kept in insertion order with names unique within their own
//! kind.

use vstd::prelude::*;

verus! {

/// One member of a message: its name, its mapped TypeScript type, and the
/// modifier flags. At most one of `optional` and `repeated` is set.
#[derive(Debug)]
pub struct MessageField {
    pub name: String,
    pub field: String,
    pub optional: bool,
    pub repeated: bool,
}

/// The mathematical value of a [`MessageField`].
pub struct FieldV {
    pub name: Seq<char>,
    pub field: Seq<char>,
    pub optional: bool,
    pub repeated: bool,
}

impl View for MessageField {
    type V = FieldV;

    open spec fn view(&self) -> FieldV {
        FieldV { name: self.name@, field: self.field@, optional: self.optional, repeated: self.repeated }
    }
}

impl MessageField {
    /// Builds a field from its parts.
    pub fn new(name: String, field: String, optional: bool, repeated: bool) -> (r: MessageField)
        ensures
            r@ == (FieldV { name: name@, field: field@, optional, repeated }),
    {
        MessageField { name, field, optional, repeated }
    }
}

/// One member of an enum: its name and its non-negative numeric value.
#[derive(Debug)]
pub struct EnumField {
    pub name: String,
    pub value: u32,
}

/// The mathematical value of an [`EnumField`].
pub struct EnumV {
    pub name: Seq<char>,
    pub value: u32,
}

impl View for EnumField {
    type V = EnumV;

    open spec fn view(&self) -> EnumV {
        EnumV { name: self.name@, value: self.value }
    }
}

impl EnumField {
    /// Builds an enum value from its parts.
    pub fn new(name: String, value: u32) -> (r: EnumField)
        ensures
            r@ == (EnumV { name: name@, value }),
    {
        EnumField { name, value }
    }
}

/// The parse result: message and enum declarations, each in insertion
/// order.
#[derive(Debug)]
pub struct ProtoBuf {
    pub messages: Vec<(String, Vec<MessageField>)>,
    pub enums: Vec<(String, Vec<EnumField>)>,
}

/// The mathematical value of a [`ProtoBuf`]: named message and enum entries
/// in declaration order.
pub struct DocV {
    pub messages: Seq<(Seq<char>, Seq<FieldV>)>,
    pub enums: Seq<(Seq<char>, Seq<EnumV>)>,
}

impl View for ProtoBuf {
    type V = DocV;

    open spec fn view(&self) -> DocV {
        DocV {
            messages: self.messages@.map_values(
                |e: (String, Vec<MessageField>)| (e.0@, e.1@.map_values(|f: MessageField| f@)),
            ),
            enums: self.enums@.map_values(
                |e: (String, Vec<EnumField>)| (e.0@, e.1@.map_values(|v: EnumField| v@)),
            ),
        }
    }
}

/// Names are unique within messages and within enums.
pub open spec fn doc_wf(d: DocV) -> bool {
    (forall|i: int, j: int|
        0 <= i < j < d.messages.len() ==> (#[trigger] d.messages[i]).0 != (
        #[trigger] d.messages[j]).0) && (forall|i: int, j: int|
        0 <= i < j < d.enums.len() ==> (#[trigger] d.enums[i]).0 != (#[trigger] d.enums[j]).0)
}

impl ProtoBuf {
    /// Builds an empty document.
    pub fn new() -> (r: ProtoBuf)
        ensures
            r@.messages == Seq::<(Seq<char>, Seq<FieldV>)>::empty(),
            r@.enums == Seq::<(Seq<char>, Seq<EnumV>)>::empty(),
            doc_wf(r@),
    {
        let r = ProtoBuf { messages: Vec::new(), enums: Vec::new() };
        proof {
            assert(r@.messages =~= Seq::<(Seq<char>, Seq<FieldV>)>::empty());
            assert(r@.enums =~= Seq::<(Seq<char>, Seq<EnumV>)>::empty());
        }
        r
    }
}

} // verus!
