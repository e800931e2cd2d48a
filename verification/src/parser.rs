//! The schema parser: a single forward pass over the input lines, with a
//! stack of currently open blocks. Each line is trimmed and classified: a
//! `message`/`enum` header opens a block, a `}` line closes one, any other
//! non-empty line is a member of the innermost open block, and lines
//! outside every block are ignored.
//!
//! Two policy choices are deliberate: re-declaring a message or enum name
//! replaces the earlier entry in place (the later declaration wins), and
//! blocks left unclosed at end of input keep the members collected so far.

use vstd::prelude::*;
use crate::scalar::{get_ts_type, map_scalar};
use crate::schema::{DocV, EnumField, EnumV, FieldV, MessageField, ProtoBuf, doc_wf};
use crate::text::{
    begins_with, dec_value_of, header_ident, header_name, is_close_line, is_close_line_exec,
    parse_u32_semi, split_eq, split_on_eq, str_begins_with, str_eq, tokenize, tokens_of, trim_spec,
    trim_str, split_lines, lines_of, views_of,
};

verus! {

/// The reasons a schema fails to parse.
#[derive(Debug, Clone, Copy, PartialEq, Eq, Structural)]
pub enum ParseError {
    /// A field line has no name token after its type token.
    MalformedField,
    /// An enum value line has no `=`, or its value is not a non-negative
    /// integer that fits in 32 bits.
    MalformedEnumValue,
    /// A line begins with `message` or `enum` but is not a well-formed
    /// block header.
    MalformedBlockHeader,
}

/// The kind of an open block.
#[derive(Debug, Clone, Copy, PartialEq, Eq, Structural)]
pub enum BlockKind {
    Message,
    Enum,
}

/// The parser state: the stack of open blocks, each the index of its entry
/// in the document, and the document collected so far.
pub struct StateV {
    pub stack: Seq<(int, BlockKind)>,
    pub doc: DocV,
}

/// The position of the first entry named `name`, or `-1` when there is
/// none.
pub open spec fn find_name<T>(s: Seq<(Seq<char>, T)>, name: Seq<char>) -> int
    decreases s.len(),
{
    if s.len() == 0 {
        -1
    } else if s[0].0 == name {
        0
    } else {
        let r = find_name(s.drop_first(), name);
        if r < 0 {
            -1
        } else {
            r + 1
        }
    }
}

proof fn lemma_find_name_at<T>(s: Seq<(Seq<char>, T)>, name: Seq<char>, i: int)
    requires
        0 <= i < s.len(),
        s[i].0 == name,
        forall|j: int| 0 <= j < i ==> (#[trigger] s[j]).0 != name,
    ensures
        find_name(s, name) == i,
    decreases i,
{
    if i > 0 {
        lemma_find_name_at(s.drop_first(), name, i - 1);
    }
}

/// Without an entry of that name, the search yields `-1`.
pub proof fn lemma_find_name_none<T>(s: Seq<(Seq<char>, T)>, name: Seq<char>)
    requires
        forall|j: int| 0 <= j < s.len() ==> (#[trigger] s[j]).0 != name,
    ensures
        find_name(s, name) == -1,
    decreases s.len(),
{
    if s.len() > 0 {
        lemma_find_name_none(s.drop_first(), name);
    }
}

/// The field described by a member line of a message block, or `None` when
/// the line is malformed. The line's whitespace-separated tokens are read
/// as: an optional leading `repeated` or `optional` modifier, the raw type
/// token, the field name, and ignored trailing tokens. The raw type goes
/// through the scalar mapping.
pub open spec fn field_of_line(t: Seq<char>) -> Option<FieldV> {
    let toks = tokens_of(t);
    let rep = toks.len() > 0 && toks[0] == "repeated"@;
    let opt = toks.len() > 0 && toks[0] == "optional"@;
    let ti: int = if rep || opt {
        1
    } else {
        0
    };
    if toks.len() >= ti + 2 {
        Some(
            FieldV {
                name: toks[ti + 1],
                field: map_scalar(toks[ti]),
                optional: opt,
                repeated: rep,
            },
        )
    } else {
        None
    }
}

/// The value described by a member line of an enum block, or `None` when
/// the line is malformed. The line is split at its first `=`; the left
/// side, trimmed, is the name, and the right side, trimmed and with `;`
/// removed, must be a non-negative decimal integer.
pub open spec fn enum_value_of_line(t: Seq<char>) -> Option<EnumV> {
    match split_eq(t) {
        None => None,
        Some(p) => match dec_value_of(trim_spec(p.1)) {
            None => None,
            Some(v) => Some(EnumV { name: trim_spec(p.0), value: v }),
        },
    }
}

/// Parses one member line of a message block into a field.
pub fn parse_message(data: &str) -> (r: Result<MessageField, ParseError>)
    ensures
        match r {
            Ok(f) => field_of_line(data@) == Some(f@),
            Err(e) => field_of_line(data@) is None && e == ParseError::MalformedField,
        },
{
    let toks = tokenize(data);
    let mut repeated = false;
    let mut optional = false;
    if toks.len() > 0 {
        repeated = str_eq(toks[0].as_str(), "repeated");
        optional = str_eq(toks[0].as_str(), "optional");
    }
    let ti: usize = if repeated || optional {
        1
    } else {
        0
    };
    if toks.len() < ti + 2 {
        return Err(ParseError::MalformedField);
    }
    proof {
        assert(views_of(toks@)[ti as int] == toks@[ti as int]@);
        assert(views_of(toks@)[ti as int + 1] == toks@[ti as int + 1]@);
    }
    let raw = toks[ti].as_str();
    let mapped = match get_ts_type(raw) {
        Ok(m) => m,
        Err(_) => raw,
    };
    let name = toks[ti + 1].as_str().to_owned();
    Ok(MessageField::new(name, mapped.to_owned(), optional, repeated))
}

/// Parses one member line of an enum block into an enum value.
pub fn parse_enum(data: &str) -> (r: Result<EnumField, ParseError>)
    ensures
        match r {
            Ok(v) => enum_value_of_line(data@) == Some(v@),
            Err(e) => enum_value_of_line(data@) is None && e == ParseError::MalformedEnumValue,
        },
{
    match split_on_eq(data) {
        None => Err(ParseError::MalformedEnumValue),
        Some((left, right)) => {
            let vtext = trim_str(right);
            match parse_u32_semi(vtext) {
                None => Err(ParseError::MalformedEnumValue),
                Some(v) => {
                    let name = trim_str(left).to_owned();
                    Ok(EnumField::new(name, v))
                },
            }
        },
    }
}

/// The view of the executable block stack.
pub open spec fn stack_view(s: Seq<(usize, BlockKind)>) -> Seq<(int, BlockKind)> {
    s.map_values(|f: (usize, BlockKind)| (f.0 as int, f.1))
}

/// The parser state made of an executable stack and document.
pub open spec fn exec_state(stack: Seq<(usize, BlockKind)>, doc: DocV) -> StateV {
    StateV { stack: stack_view(stack), doc }
}

/// Every stack frame points at an entry of its kind in the document.
pub open spec fn stack_wf(st: StateV) -> bool {
    forall|k: int|
        0 <= k < st.stack.len() ==> {
            let f = #[trigger] st.stack[k];
            0 <= f.0 && (f.1 == BlockKind::Message ==> f.0 < st.doc.messages.len()) && (f.1
                == BlockKind::Enum ==> f.0 < st.doc.enums.len())
        }
}

/// Opens a message block named `name`: a new empty entry, or — when the
/// name was already declared — the old entry emptied in place, with the
/// entry's position pushed on the stack.
pub open spec fn open_message(st: StateV, name: Seq<char>) -> StateV {
    let i = find_name(st.doc.messages, name);
    if i >= 0 {
        StateV {
            stack: st.stack.push((i, BlockKind::Message)),
            doc: DocV {
                messages: st.doc.messages.update(i, (name, Seq::empty())),
                enums: st.doc.enums,
            },
        }
    } else {
        StateV {
            stack: st.stack.push((st.doc.messages.len() as int, BlockKind::Message)),
            doc: DocV {
                messages: st.doc.messages.push((name, Seq::empty())),
                enums: st.doc.enums,
            },
        }
    }
}

/// Opens an enum block named `name`, as [`open_message`] does.
pub open spec fn open_enum(st: StateV, name: Seq<char>) -> StateV {
    let i = find_name(st.doc.enums, name);
    if i >= 0 {
        StateV {
            stack: st.stack.push((i, BlockKind::Enum)),
            doc: DocV {
                messages: st.doc.messages,
                enums: st.doc.enums.update(i, (name, Seq::empty())),
            },
        }
    } else {
        StateV {
            stack: st.stack.push((st.doc.enums.len() as int, BlockKind::Enum)),
            doc: DocV {
                messages: st.doc.messages,
                enums: st.doc.enums.push((name, Seq::empty())),
            },
        }
    }
}

/// Closes the innermost open block; without one, the line has no effect.
pub open spec fn pop_block(st: StateV) -> StateV {
    if st.stack.len() == 0 {
        st
    } else {
        StateV { stack: st.stack.drop_last(), doc: st.doc }
    }
}

/// Appends a field to the message entry at `idx`.
pub open spec fn push_msg_field(st: StateV, idx: int, f: FieldV) -> StateV {
    StateV {
        stack: st.stack,
        doc: DocV {
            messages: st.doc.messages.update(
                idx,
                (st.doc.messages[idx].0, st.doc.messages[idx].1.push(f)),
            ),
            enums: st.doc.enums,
        },
    }
}

/// Appends a value to the enum entry at `idx`.
pub open spec fn push_enum_value(st: StateV, idx: int, v: EnumV) -> StateV {
    StateV {
        stack: st.stack,
        doc: DocV {
            messages: st.doc.messages,
            enums: st.doc.enums.update(idx, (st.doc.enums[idx].0, st.doc.enums[idx].1.push(v))),
        },
    }
}

/// One step of the parser: classifies a line and applies its effect.
pub open spec fn step_line(st: StateV, line: Seq<char>) -> Result<StateV, ParseError> {
    let t = trim_spec(line);
    if t.len() == 0 {
        Ok(st)
    } else if begins_with(t, "message"@) {
        match header_ident(t, "message"@.len() as int) {
            Some(name) => Ok(open_message(st, name)),
            None => Err(ParseError::MalformedBlockHeader),
        }
    } else if begins_with(t, "enum"@) {
        match header_ident(t, "enum"@.len() as int) {
            Some(name) => Ok(open_enum(st, name)),
            None => Err(ParseError::MalformedBlockHeader),
        }
    } else if is_close_line(t) {
        Ok(pop_block(st))
    } else if st.stack.len() > 0 {
        let top = st.stack.last();
        if top.1 == BlockKind::Message {
            match field_of_line(t) {
                Some(f) => Ok(push_msg_field(st, top.0, f)),
                None => Err(ParseError::MalformedField),
            }
        } else {
            match enum_value_of_line(t) {
                Some(v) => Ok(push_enum_value(st, top.0, v)),
                None => Err(ParseError::MalformedEnumValue),
            }
        }
    } else {
        Ok(st)
    }
}

/// Runs the parser over a sequence of lines, stopping at the first error.
pub open spec fn run_lines(st: StateV, lines: Seq<Seq<char>>) -> Result<StateV, ParseError>
    decreases lines.len(),
{
    if lines.len() == 0 {
        Ok(st)
    } else {
        match step_line(st, lines[0]) {
            Ok(st2) => run_lines(st2, lines.drop_first()),
            Err(e) => Err(e),
        }
    }
}

/// The parser's starting state: no open block, an empty document.
pub open spec fn init_state() -> StateV {
    StateV { stack: Seq::empty(), doc: DocV { messages: Seq::empty(), enums: Seq::empty() } }
}

/// The document described by a schema source text, or the first error.
pub open spec fn parse_spec(src: Seq<char>) -> Result<DocV, ParseError> {
    match run_lines(init_state(), lines_of(src)) {
        Ok(st) => Ok(st.doc),
        Err(e) => Err(e),
    }
}

/// Finds the first entry with the given name in a named-entry vector.
fn find_by_name<T>(v: &Vec<(String, T)>, name: &str) -> (r: Option<usize>)
    ensures
        match r {
            Some(i) => i < v@.len() && v@[i as int].0@ == name@ && (forall|j: int|
                0 <= j < i ==> (#[trigger] v@[j]).0@ != name@),
            None => forall|j: int| 0 <= j < v@.len() ==> (#[trigger] v@[j]).0@ != name@,
        },
{
    let mut i: usize = 0;
    while i < v.len()
        invariant
            i <= v@.len(),
            forall|j: int| 0 <= j < i ==> (#[trigger] v@[j]).0@ != name@,
        decreases v@.len() - i,
    {
        if str_eq(v[i].0.as_str(), name) {
            return Some(i);
        }
        i += 1;
    }
    None
}

/// Applies [`open_message`] to the executable state.
fn open_message_exec(pb: &mut ProtoBuf, stack: &mut Vec<(usize, BlockKind)>, name: String)
    requires
        stack_wf(exec_state(old(stack)@, old(pb)@)),
        doc_wf(old(pb)@),
    ensures
        exec_state(final(stack)@, final(pb)@) == open_message(
            exec_state(old(stack)@, old(pb)@),
            name@,
        ),
        stack_wf(exec_state(final(stack)@, final(pb)@)),
        doc_wf(final(pb)@),
{
    let ghost st0 = exec_state(stack@, pb@);
    proof {
        assert(forall|j: int|
            0 <= j < st0.doc.messages.len() ==> (#[trigger] st0.doc.messages[j]).0
                == pb.messages@[j].0@);
    }
    match find_by_name(&pb.messages, name.as_str()) {
        Some(i) => {
            proof {
                lemma_find_name_at(st0.doc.messages, name@, i as int);
            }
            let ghost raw0 = pb.messages@;
            let entry = pb.messages.remove(i);
            let fresh: Vec<MessageField> = Vec::new();
            pb.messages.insert(i, (entry.0, fresh));
            stack.push((i, BlockKind::Message));
            proof {
                let target = st0.doc.messages.update(i as int, (name@, Seq::<FieldV>::empty()));
                assert(stack_view(stack@) =~= st0.stack.push((i as int, BlockKind::Message)));
                assert(pb.messages@ =~= raw0.update(i as int, pb.messages@[i as int]));
                assert(pb.messages@[i as int].0@ == name@);
                assert(pb.messages@[i as int].1@.map_values(|f: MessageField| f@)
                    =~= Seq::<FieldV>::empty());
                assert forall|j: int| 0 <= j < pb@.messages.len() implies pb@.messages[j]
                    == target[j] by {
                    if j != i {
                        assert(pb.messages@[j] == raw0[j]);
                    }
                }
                assert(pb@.messages =~= target);
                assert(pb@.enums =~= st0.doc.enums);
                assert forall|a: int, b: int| 0 <= a < b < pb@.messages.len() implies (
                #[trigger] pb@.messages[a]).0 != (#[trigger] pb@.messages[b]).0 by {
                    assert(st0.doc.messages[i as int].0 == name@);
                    assert((pb@.messages[a]).0 == (st0.doc.messages[a]).0);
                    assert((pb@.messages[b]).0 == (st0.doc.messages[b]).0);
                }
                assert(exec_state(stack@, pb@) == open_message(st0, name@));
            }
        },
        None => {
            proof {
                lemma_find_name_none(st0.doc.messages, name@);
            }
            let ghost raw0 = pb.messages@;
            let ghost namev = name@;
            let idx = pb.messages.len();
            let fresh: Vec<MessageField> = Vec::new();
            pb.messages.push((name, fresh));
            stack.push((idx, BlockKind::Message));
            proof {
                let target = st0.doc.messages.push((namev, Seq::<FieldV>::empty()));
                assert(stack_view(stack@) =~= st0.stack.push(
                    (idx as int, BlockKind::Message),
                ));
                assert(pb.messages@[idx as int].0@ == namev);
                assert(pb.messages@[idx as int].1@.map_values(|f: MessageField| f@)
                    =~= Seq::<FieldV>::empty());
                assert forall|j: int| 0 <= j < pb@.messages.len() implies pb@.messages[j]
                    == target[j] by {
                    if j != idx {
                        assert(pb.messages@[j] == raw0[j]);
                    }
                }
                assert(pb@.messages =~= target);
                assert(pb@.enums =~= st0.doc.enums);
                assert forall|a: int, b: int| 0 <= a < b < pb@.messages.len() implies (
                #[trigger] pb@.messages[a]).0 != (#[trigger] pb@.messages[b]).0 by {
                    if b == idx as int {
                        assert((st0.doc.messages[a]).0 == raw0[a].0@);
                        assert(raw0[a].0@ != namev);
                    } else {
                        assert((pb@.messages[a]).0 == (st0.doc.messages[a]).0);
                        assert((pb@.messages[b]).0 == (st0.doc.messages[b]).0);
                    }
                }
                assert(exec_state(stack@, pb@) == open_message(st0, namev));
            }
        },
    }
}

/// Applies [`open_enum`] to the executable state.
fn open_enum_exec(pb: &mut ProtoBuf, stack: &mut Vec<(usize, BlockKind)>, name: String)
    requires
        stack_wf(exec_state(old(stack)@, old(pb)@)),
        doc_wf(old(pb)@),
    ensures
        exec_state(final(stack)@, final(pb)@) == open_enum(
            exec_state(old(stack)@, old(pb)@),
            name@,
        ),
        stack_wf(exec_state(final(stack)@, final(pb)@)),
        doc_wf(final(pb)@),
{
    let ghost st0 = exec_state(stack@, pb@);
    proof {
        assert(forall|j: int|
            0 <= j < st0.doc.enums.len() ==> (#[trigger] st0.doc.enums[j]).0 == pb.enums@[j].0@);
    }
    match find_by_name(&pb.enums, name.as_str()) {
        Some(i) => {
            proof {
                lemma_find_name_at(st0.doc.enums, name@, i as int);
            }
            let ghost raw0 = pb.enums@;
            let entry = pb.enums.remove(i);
            let fresh: Vec<EnumField> = Vec::new();
            pb.enums.insert(i, (entry.0, fresh));
            stack.push((i, BlockKind::Enum));
            proof {
                let target = st0.doc.enums.update(i as int, (name@, Seq::<EnumV>::empty()));
                assert(stack_view(stack@) =~= st0.stack.push((i as int, BlockKind::Enum)));
                assert(pb.enums@ =~= raw0.update(i as int, pb.enums@[i as int]));
                assert(pb.enums@[i as int].0@ == name@);
                assert(pb.enums@[i as int].1@.map_values(|v: EnumField| v@)
                    =~= Seq::<EnumV>::empty());
                assert forall|j: int| 0 <= j < pb@.enums.len() implies pb@.enums[j] == target[j]
                    by {
                    if j != i {
                        assert(pb.enums@[j] == raw0[j]);
                    }
                }
                assert(pb@.enums =~= target);
                assert(pb@.messages =~= st0.doc.messages);
                assert forall|a: int, b: int| 0 <= a < b < pb@.enums.len() implies (
                #[trigger] pb@.enums[a]).0 != (#[trigger] pb@.enums[b]).0 by {
                    assert(st0.doc.enums[i as int].0 == name@);
                    assert((pb@.enums[a]).0 == (st0.doc.enums[a]).0);
                    assert((pb@.enums[b]).0 == (st0.doc.enums[b]).0);
                }
                assert(exec_state(stack@, pb@) == open_enum(st0, name@));
            }
        },
        None => {
            proof {
                lemma_find_name_none(st0.doc.enums, name@);
            }
            let ghost raw0 = pb.enums@;
            let ghost namev = name@;
            let idx = pb.enums.len();
            let fresh: Vec<EnumField> = Vec::new();
            pb.enums.push((name, fresh));
            stack.push((idx, BlockKind::Enum));
            proof {
                let target = st0.doc.enums.push((namev, Seq::<EnumV>::empty()));
                assert(stack_view(stack@) =~= st0.stack.push((idx as int, BlockKind::Enum)));
                assert(pb.enums@[idx as int].0@ == namev);
                assert(pb.enums@[idx as int].1@.map_values(|v: EnumField| v@)
                    =~= Seq::<EnumV>::empty());
                assert forall|j: int| 0 <= j < pb@.enums.len() implies pb@.enums[j] == target[j]
                    by {
                    if j != idx {
                        assert(pb.enums@[j] == raw0[j]);
                    }
                }
                assert(pb@.enums =~= target);
                assert(pb@.messages =~= st0.doc.messages);
                assert forall|a: int, b: int| 0 <= a < b < pb@.enums.len() implies (
                #[trigger] pb@.enums[a]).0 != (#[trigger] pb@.enums[b]).0 by {
                    if b == idx as int {
                        assert((st0.doc.enums[a]).0 == raw0[a].0@);
                        assert(raw0[a].0@ != namev);
                    } else {
                        assert((pb@.enums[a]).0 == (st0.doc.enums[a]).0);
                        assert((pb@.enums[b]).0 == (st0.doc.enums[b]).0);
                    }
                }
                assert(exec_state(stack@, pb@) == open_enum(st0, namev));
            }
        },
    }
}

/// Applies [`push_msg_field`] to the executable document.
fn push_msg_field_exec(pb: &mut ProtoBuf, idx: usize, f: MessageField)
    requires
        idx < old(pb)@.messages.len(),
        doc_wf(old(pb)@),
    ensures
        final(pb)@ == push_msg_field(
            exec_state(Seq::empty(), old(pb)@),
            idx as int,
            f@,
        ).doc,
        doc_wf(final(pb)@),
        final(pb)@.messages.len() == old(pb)@.messages.len(),
        final(pb)@.enums == old(pb)@.enums,
{
    let ghost d0 = pb@;
    let mut entry = pb.messages.remove(idx);
    entry.1.push(f);
    pb.messages.insert(idx, entry);
    proof {
        let target = d0.messages.update(idx as int, (d0.messages[idx as int].0, d0.messages[idx as int].1.push(f@)));
        assert(pb@.messages =~= target) by {
            assert(forall|j: int|
                0 <= j < d0.messages.len() && j != idx ==> pb.messages@[j]
                    == #[trigger] old(pb).messages@[j]);
            assert(pb.messages@[idx as int].1@.map_values(|g: MessageField| g@) =~= d0.messages[idx as int].1.push(f@));
        }
        assert(pb@.enums =~= d0.enums);
    }
}

/// Applies [`push_enum_value`] to the executable document.
fn push_enum_value_exec(pb: &mut ProtoBuf, idx: usize, v: EnumField)
    requires
        idx < old(pb)@.enums.len(),
        doc_wf(old(pb)@),
    ensures
        final(pb)@ == push_enum_value(
            exec_state(Seq::empty(), old(pb)@),
            idx as int,
            v@,
        ).doc,
        doc_wf(final(pb)@),
        final(pb)@.enums.len() == old(pb)@.enums.len(),
        final(pb)@.messages == old(pb)@.messages,
{
    let ghost d0 = pb@;
    let mut entry = pb.enums.remove(idx);
    entry.1.push(v);
    pb.enums.insert(idx, entry);
    proof {
        let target = d0.enums.update(idx as int, (d0.enums[idx as int].0, d0.enums[idx as int].1.push(v@)));
        assert(pb@.enums =~= target) by {
            assert(forall|j: int|
                0 <= j < d0.enums.len() && j != idx ==> pb.enums@[j]
                    == #[trigger] old(pb).enums@[j]);
            assert(pb.enums@[idx as int].1@.map_values(|g: EnumField| g@) =~= d0.enums[idx as int].1.push(v@));
        }
        assert(pb@.messages =~= d0.messages);
    }
}

/// Parses a whole schema source text into a document. Succeeds exactly
/// when every member line of every open block is well formed and every
/// line beginning with `message` or `enum` is a well-formed block header;
/// the first offending line decides the error. In the result, names are
/// unique within messages and within enums.
pub fn parse_proto(source: &str) -> (r: Result<ProtoBuf, ParseError>)
    ensures
        match r {
            Ok(pb) => parse_spec(source@) == Ok::<DocV, ParseError>(pb@) && doc_wf(pb@),
            Err(e) => parse_spec(source@) == Err::<DocV, ParseError>(e),
        },
{
    let lines = split_lines(source);
    let mut pb = ProtoBuf::new();
    let mut stack: Vec<(usize, BlockKind)> = Vec::new();
    let ghost all = lines_of(source@);
    proof {
        assert(stack_view(stack@) =~= Seq::<(int, BlockKind)>::empty());
        assert(exec_state(stack@, pb@) == init_state());
        assert(all.skip(0) =~= all);
    }
    let mut li: usize = 0;
    while li < lines.len()
        invariant
            views_of(lines@) == all,
            all == lines_of(source@),
            li <= lines@.len(),
            stack_wf(exec_state(stack@, pb@)),
            doc_wf(pb@),
            run_lines(init_state(), all) == run_lines(exec_state(stack@, pb@), all.skip(li as int)),
        decreases lines@.len() - li,
    {
        let ghost st0 = exec_state(stack@, pb@);
        let ghost line = all[li as int];
        proof {
            assert(views_of(lines@)[li as int] == lines@[li as int]@);
            assert(all.skip(li as int)[0] == line);
            assert(all.skip(li as int).drop_first() =~= all.skip(li as int + 1));
        }
        let t = trim_str(lines[li].as_str());
        let tn = t.unicode_len();
        if tn == 0 {
            proof {
                assert(step_line(st0, line) == Ok::<StateV, ParseError>(st0));
            }
        } else if str_begins_with(t, "message") {
            proof {
                reveal_strlit("message");
            }
            match header_name(t, 7) {
                Some(name) => {
                    open_message_exec(&mut pb, &mut stack, name);
                    proof {
                        assert(step_line(st0, line) == Ok::<StateV, ParseError>(
                            exec_state(stack@, pb@),
                        ));
                    }
                },
                None => {
                    proof {
                        assert(step_line(st0, line) == Err::<StateV, ParseError>(
                            ParseError::MalformedBlockHeader,
                        ));
                    }
                    return Err(ParseError::MalformedBlockHeader);
                },
            }
        } else if str_begins_with(t, "enum") {
            proof {
                reveal_strlit("enum");
            }
            match header_name(t, 4) {
                Some(name) => {
                    open_enum_exec(&mut pb, &mut stack, name);
                    proof {
                        assert(step_line(st0, line) == Ok::<StateV, ParseError>(
                            exec_state(stack@, pb@),
                        ));
                    }
                },
                None => {
                    proof {
                        assert(step_line(st0, line) == Err::<StateV, ParseError>(
                            ParseError::MalformedBlockHeader,
                        ));
                    }
                    return Err(ParseError::MalformedBlockHeader);
                },
            }
        } else if is_close_line_exec(t) {
            if stack.len() > 0 {
                stack.pop();
                proof {
                    assert(stack_view(stack@) =~= st0.stack.drop_last());
                }
            }
            proof {
                assert(exec_state(stack@, pb@) == pop_block(st0));
                assert(step_line(st0, line) == Ok::<StateV, ParseError>(pop_block(st0)));
            }
        } else if stack.len() > 0 {
            let top = stack[stack.len() - 1];
            proof {
                assert(st0.stack.last() == (top.0 as int, top.1));
            }
            match top.1 {
                BlockKind::Message => {
                    match parse_message(t) {
                        Ok(f) => {
                            let ghost fv = f@;
                            push_msg_field_exec(&mut pb, top.0, f);
                            proof {
                                assert(exec_state(stack@, pb@) == push_msg_field(
                                    st0,
                                    top.0 as int,
                                    fv,
                                ));
                                assert(step_line(st0, line) == Ok::<StateV, ParseError>(
                                    push_msg_field(st0, top.0 as int, fv),
                                ));
                            }
                        },
                        Err(e) => {
                            proof {
                                assert(step_line(st0, line) == Err::<StateV, ParseError>(e));
                            }
                            return Err(e);
                        },
                    }
                },
                BlockKind::Enum => {
                    match parse_enum(t) {
                        Ok(v) => {
                            let ghost vv = v@;
                            push_enum_value_exec(&mut pb, top.0, v);
                            proof {
                                assert(exec_state(stack@, pb@) == push_enum_value(
                                    st0,
                                    top.0 as int,
                                    vv,
                                ));
                                assert(step_line(st0, line) == Ok::<StateV, ParseError>(
                                    push_enum_value(st0, top.0 as int, vv),
                                ));
                            }
                        },
                        Err(e) => {
                            proof {
                                assert(step_line(st0, line) == Err::<StateV, ParseError>(e));
                            }
                            return Err(e);
                        },
                    }
                },
            }
        } else {
            proof {
                assert(step_line(st0, line) == Ok::<StateV, ParseError>(st0));
            }
        }
        proof {
            assert(run_lines(st0, all.skip(li as int)) == run_lines(
                exec_state(stack@, pb@),
                all.skip(li as int + 1),
            ));
        }
        li += 1;
    }
    proof {
        assert(all.skip(li as int) =~= Seq::<Seq<char>>::empty());
    }
    Ok(pb)
}

} // verus!
