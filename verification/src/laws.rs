//! Document-level laws of the parser, stated over the specification
//! functions and proved once for all inputs.

use vstd::prelude::*;
use crate::parser::{
    enum_value_of_line, field_of_line, init_state, lemma_find_name_none, open_enum, open_message,
    pop_block, push_enum_value, push_msg_field, run_lines, step_line, BlockKind, ParseError,
    StateV,
};
use crate::schema::{EnumV, FieldV};
use crate::text::{begins_with, header_ident, is_close_line, trim_spec};

verus! {

/// A field's two modifiers are mutually exclusive: no parsed field line
/// yields a field that is both `optional` and `repeated`.
pub proof fn lemma_modifiers_exclusive(t: Seq<char>)
    ensures
        field_of_line(t) matches Some(f) ==> !(f.optional && f.repeated),
{
    reveal_strlit("repeated");
    reveal_strlit("optional");
    if field_of_line(t) is Some {
        assert("repeated"@[0] == 'r');
        assert("optional"@[0] == 'o');
    }
}

/// A member line of a message block: non-empty after trimming, neither a
/// block header nor a block-closing line, and a well-formed field line.
pub open spec fn is_field_member_line(l: Seq<char>) -> bool {
    let t = trim_spec(l);
    t.len() > 0 && !begins_with(t, "message"@) && !begins_with(t, "enum"@) && !is_close_line(t)
        && field_of_line(t) is Some
}

/// A member line of an enum block, as [`is_field_member_line`].
pub open spec fn is_enum_member_line(l: Seq<char>) -> bool {
    let t = trim_spec(l);
    t.len() > 0 && !begins_with(t, "message"@) && !begins_with(t, "enum"@) && !is_close_line(t)
        && enum_value_of_line(t) is Some
}

/// Running the parser over a concatenation of line sequences is running it
/// over the first, then — unless it failed — over the second from where the
/// first left off.
pub proof fn lemma_run_lines_concat(st: StateV, a: Seq<Seq<char>>, b: Seq<Seq<char>>)
    ensures
        run_lines(st, a) is Ok ==> run_lines(st, a + b) == run_lines(run_lines(st, a)->Ok_0, b),
        run_lines(st, a) is Err ==> run_lines(st, a + b) == run_lines(st, a),
    decreases a.len(),
{
    if a.len() == 0 {
        assert(a + b =~= b);
    } else {
        assert((a + b)[0] == a[0]);
        assert((a + b).drop_first() =~= a.drop_first() + b);
        match step_line(st, a[0]) {
            Ok(st2) => {
                lemma_run_lines_concat(st2, a.drop_first(), b);
            },
            Err(e) => {},
        }
    }
}

/// With a message block open, a sequence of well-formed field lines always
/// parses, and appends exactly those fields, in input order, to that block's
/// entry; nothing else in the state changes.
pub proof fn lemma_field_lines_in_order(st: StateV, ls: Seq<Seq<char>>)
    requires
        st.stack.len() > 0,
        st.stack.last().1 == BlockKind::Message,
        0 <= st.stack.last().0 < st.doc.messages.len(),
        forall|i: int| 0 <= i < ls.len() ==> is_field_member_line(#[trigger] ls[i]),
    ensures
        run_lines(st, ls) is Ok,
        ({
            let st2 = run_lines(st, ls)->Ok_0;
            let idx = st.stack.last().0;
            st2.stack == st.stack && st2.doc.enums == st.doc.enums && st2.doc.messages.len()
                == st.doc.messages.len() && (forall|j: int|
                0 <= j < st.doc.messages.len() && j != idx ==> st2.doc.messages[j]
                    == st.doc.messages[j]) && st2.doc.messages[idx].0 == st.doc.messages[idx].0
                && st2.doc.messages[idx].1 == st.doc.messages[idx].1 + ls.map_values(
                |l: Seq<char>| field_of_line(trim_spec(l))->Some_0,
            )
        }),
    decreases ls.len(),
{
    let idx = st.stack.last().0;
    let pf = |l: Seq<char>| field_of_line(trim_spec(l))->Some_0;
    if ls.len() == 0 {
        assert(st.doc.messages[idx].1 + ls.map_values(pf) =~= st.doc.messages[idx].1);
    } else {
        let l = ls[0];
        let t = trim_spec(l);
        let f = field_of_line(t)->Some_0;
        let st1 = push_msg_field(st, idx, f);
        assert(step_line(st, l) == Ok::<StateV, ParseError>(st1));
        lemma_field_lines_in_order(st1, ls.drop_first());
        let st2 = run_lines(st1, ls.drop_first())->Ok_0;
        assert(run_lines(st, ls) == Ok::<StateV, ParseError>(st2));
        assert(st2.doc.messages[idx].1 =~= st.doc.messages[idx].1 + ls.map_values(pf)) by {
            assert(ls.drop_first().map_values(pf) =~= ls.map_values(pf).drop_first());
            assert(st1.doc.messages[idx].1 == st.doc.messages[idx].1.push(f));
            assert(ls.map_values(pf)[0] == f);
        }
        assert(forall|j: int|
            0 <= j < st.doc.messages.len() && j != idx ==> st2.doc.messages[j]
                == st.doc.messages[j]);
    }
}

/// With an enum block open, a sequence of well-formed value lines always
/// parses, and appends exactly those values, in input order, to that
/// block's entry; nothing else in the state changes.
pub proof fn lemma_enum_lines_in_order(st: StateV, ls: Seq<Seq<char>>)
    requires
        st.stack.len() > 0,
        st.stack.last().1 == BlockKind::Enum,
        0 <= st.stack.last().0 < st.doc.enums.len(),
        forall|i: int| 0 <= i < ls.len() ==> is_enum_member_line(#[trigger] ls[i]),
    ensures
        run_lines(st, ls) is Ok,
        ({
            let st2 = run_lines(st, ls)->Ok_0;
            let idx = st.stack.last().0;
            st2.stack == st.stack && st2.doc.messages == st.doc.messages && st2.doc.enums.len()
                == st.doc.enums.len() && (forall|j: int|
                0 <= j < st.doc.enums.len() && j != idx ==> st2.doc.enums[j] == st.doc.enums[j])
                && st2.doc.enums[idx].0 == st.doc.enums[idx].0 && st2.doc.enums[idx].1
                == st.doc.enums[idx].1 + ls.map_values(
                |l: Seq<char>| enum_value_of_line(trim_spec(l))->Some_0,
            )
        }),
    decreases ls.len(),
{
    let idx = st.stack.last().0;
    let pv = |l: Seq<char>| enum_value_of_line(trim_spec(l))->Some_0;
    if ls.len() == 0 {
        assert(st.doc.enums[idx].1 + ls.map_values(pv) =~= st.doc.enums[idx].1);
    } else {
        let l = ls[0];
        let t = trim_spec(l);
        let v = enum_value_of_line(t)->Some_0;
        let st1 = push_enum_value(st, idx, v);
        assert(step_line(st, l) == Ok::<StateV, ParseError>(st1));
        lemma_enum_lines_in_order(st1, ls.drop_first());
        let st2 = run_lines(st1, ls.drop_first())->Ok_0;
        assert(run_lines(st, ls) == Ok::<StateV, ParseError>(st2));
        assert(st2.doc.enums[idx].1 =~= st.doc.enums[idx].1 + ls.map_values(pv)) by {
            assert(ls.drop_first().map_values(pv) =~= ls.map_values(pv).drop_first());
            assert(st1.doc.enums[idx].1 == st.doc.enums[idx].1.push(v));
            assert(ls.map_values(pv)[0] == v);
        }
        assert(forall|j: int|
            0 <= j < st.doc.enums.len() && j != idx ==> st2.doc.enums[j] == st.doc.enums[j]);
    }
}

/// A complete well-formed message block — a header declaring a fresh
/// `name`, field lines that each match the grammar, and a closing line —
/// always parses from any state with no open block, and appends to the
/// document exactly one message whose fields are the body's fields in the
/// body's order.
pub proof fn lemma_message_block_parses(
    st0: StateV,
    header: Seq<char>,
    name: Seq<char>,
    body: Seq<Seq<char>>,
    closer: Seq<char>,
)
    requires
        st0.stack.len() == 0,
        forall|j: int| 0 <= j < st0.doc.messages.len() ==> (#[trigger] st0.doc.messages[j]).0
            != name,
        begins_with(trim_spec(header), "message"@),
        header_ident(trim_spec(header), "message"@.len() as int) == Some(name),
        forall|i: int| 0 <= i < body.len() ==> is_field_member_line(#[trigger] body[i]),
        is_close_line(trim_spec(closer)),
    ensures
        ({
            let r = run_lines(st0, seq![header] + body + seq![closer]);
            r is Ok && r->Ok_0.stack.len() == 0 && r->Ok_0.doc.enums == st0.doc.enums
                && r->Ok_0.doc.messages == st0.doc.messages.push(
                (
                    name,
                    body.map_values(|l: Seq<char>| field_of_line(trim_spec(l))->Some_0),
                ),
            )
        }),
{
    reveal_strlit("message");
    let th = trim_spec(header);
    assert(th.len() >= 7);
    lemma_find_name_none(st0.doc.messages, name);
    let st1 = open_message(st0, name);
    assert(step_line(st0, header) == Ok::<StateV, ParseError>(st1));
    assert(run_lines(st0, seq![header]) == Ok::<StateV, ParseError>(st1)) by {
        assert(seq![header].len() == 1);
        assert(seq![header][0] == header);
        assert(seq![header].drop_first() =~= Seq::<Seq<char>>::empty());
        assert(run_lines(st1, Seq::<Seq<char>>::empty()) == Ok::<StateV, ParseError>(st1));
    }
    let idx = st0.doc.messages.len() as int;
    assert(st1.stack == st0.stack.push((idx, BlockKind::Message)));
    assert(st1.stack.last() == (idx, BlockKind::Message));
    lemma_field_lines_in_order(st1, body);
    let st2 = run_lines(st1, body)->Ok_0;
    assert(st2.doc.messages[idx].1 =~= body.map_values(
        |l: Seq<char>| field_of_line(trim_spec(l))->Some_0,
    )) by {
        assert(st1.doc.messages[idx].1 =~= Seq::<FieldV>::empty());
        assert(Seq::<FieldV>::empty() + body.map_values(
            |l: Seq<char>| field_of_line(trim_spec(l))->Some_0,
        ) =~= body.map_values(|l: Seq<char>| field_of_line(trim_spec(l))->Some_0));
    }
    let tc = trim_spec(closer);
    assert(!begins_with(tc, "message"@)) by {
        assert(tc[0] == '}');
        assert("message"@[0] == 'm');
    }
    assert(!begins_with(tc, "enum"@)) by {
        reveal_strlit("enum");
        assert(tc[0] == '}');
        assert("enum"@[0] == 'e');
    }
    let st3 = pop_block(st2);
    assert(step_line(st2, closer) == Ok::<StateV, ParseError>(st3));
    assert(run_lines(st2, seq![closer]) == Ok::<StateV, ParseError>(st3)) by {
        assert(seq![closer].len() == 1);
        assert(seq![closer][0] == closer);
        assert(seq![closer].drop_first() =~= Seq::<Seq<char>>::empty());
        assert(run_lines(st3, Seq::<Seq<char>>::empty()) == Ok::<StateV, ParseError>(st3));
    }
    lemma_run_lines_concat(st1, body, seq![closer]);
    lemma_run_lines_concat(st0, seq![header], body + seq![closer]);
    assert(seq![header] + body + seq![closer] =~= seq![header] + (body + seq![closer]));
    assert(run_lines(st0, seq![header] + body + seq![closer]) == Ok::<StateV, ParseError>(st3));
    assert(st3.stack.len() == 0);
    let fields = body.map_values(|l: Seq<char>| field_of_line(trim_spec(l))->Some_0);
    assert(st3.doc.messages =~= st0.doc.messages.push((name, fields))) by {
        assert(st3.doc.messages[idx].0 == name);
        assert(st3.doc.messages[idx].1 == fields);
        assert(forall|j: int|
            0 <= j < idx ==> st3.doc.messages[j] == #[trigger] st0.doc.messages[j]);
    }
    assert(st3.doc.enums == st0.doc.enums);
}

/// A complete well-formed enum block — a header declaring a fresh `name`,
/// value lines that each match the grammar, and a closing line — always
/// parses from any state with no open block, and appends to the document
/// exactly one enum whose values are the body's values in the body's order.
pub proof fn lemma_enum_block_parses(
    st0: StateV,
    header: Seq<char>,
    name: Seq<char>,
    body: Seq<Seq<char>>,
    closer: Seq<char>,
)
    requires
        st0.stack.len() == 0,
        forall|j: int| 0 <= j < st0.doc.enums.len() ==> (#[trigger] st0.doc.enums[j]).0 != name,
        begins_with(trim_spec(header), "enum"@),
        header_ident(trim_spec(header), "enum"@.len() as int) == Some(name),
        forall|i: int| 0 <= i < body.len() ==> is_enum_member_line(#[trigger] body[i]),
        is_close_line(trim_spec(closer)),
    ensures
        ({
            let r = run_lines(st0, seq![header] + body + seq![closer]);
            r is Ok && r->Ok_0.stack.len() == 0 && r->Ok_0.doc.messages == st0.doc.messages
                && r->Ok_0.doc.enums == st0.doc.enums.push(
                (
                    name,
                    body.map_values(|l: Seq<char>| enum_value_of_line(trim_spec(l))->Some_0),
                ),
            )
        }),
{
    reveal_strlit("enum");
    let th = trim_spec(header);
    assert(th.len() >= 4);
    assert(!begins_with(th, "message"@)) by {
        reveal_strlit("message");
        assert(th.subrange(0, 4) == "enum"@);
        assert(th[0] == th.subrange(0, 4)[0]);
        assert("message"@[0] == 'm');
    }
    lemma_find_name_none(st0.doc.enums, name);
    let st1 = open_enum(st0, name);
    assert(step_line(st0, header) == Ok::<StateV, ParseError>(st1));
    assert(run_lines(st0, seq![header]) == Ok::<StateV, ParseError>(st1)) by {
        assert(seq![header].len() == 1);
        assert(seq![header][0] == header);
        assert(seq![header].drop_first() =~= Seq::<Seq<char>>::empty());
        assert(run_lines(st1, Seq::<Seq<char>>::empty()) == Ok::<StateV, ParseError>(st1));
    }
    let idx = st0.doc.enums.len() as int;
    assert(st1.stack == st0.stack.push((idx, BlockKind::Enum)));
    assert(st1.stack.last() == (idx, BlockKind::Enum));
    lemma_enum_lines_in_order(st1, body);
    let st2 = run_lines(st1, body)->Ok_0;
    assert(st2.doc.enums[idx].1 =~= body.map_values(
        |l: Seq<char>| enum_value_of_line(trim_spec(l))->Some_0,
    )) by {
        assert(st1.doc.enums[idx].1 =~= Seq::<EnumV>::empty());
        assert(Seq::<EnumV>::empty() + body.map_values(
            |l: Seq<char>| enum_value_of_line(trim_spec(l))->Some_0,
        ) =~= body.map_values(|l: Seq<char>| enum_value_of_line(trim_spec(l))->Some_0));
    }
    let tc = trim_spec(closer);
    assert(!begins_with(tc, "message"@)) by {
        reveal_strlit("message");
        assert(tc[0] == '}');
        assert("message"@[0] == 'm');
    }
    assert(!begins_with(tc, "enum"@)) by {
        assert(tc[0] == '}');
        assert("enum"@[0] == 'e');
    }
    let st3 = pop_block(st2);
    assert(step_line(st2, closer) == Ok::<StateV, ParseError>(st3));
    assert(run_lines(st2, seq![closer]) == Ok::<StateV, ParseError>(st3)) by {
        assert(seq![closer].len() == 1);
        assert(seq![closer][0] == closer);
        assert(seq![closer].drop_first() =~= Seq::<Seq<char>>::empty());
        assert(run_lines(st3, Seq::<Seq<char>>::empty()) == Ok::<StateV, ParseError>(st3));
    }
    lemma_run_lines_concat(st1, body, seq![closer]);
    lemma_run_lines_concat(st0, seq![header], body + seq![closer]);
    assert(seq![header] + body + seq![closer] =~= seq![header] + (body + seq![closer]));
    assert(run_lines(st0, seq![header] + body + seq![closer]) == Ok::<StateV, ParseError>(st3));
    assert(st3.stack.len() == 0);
    let values = body.map_values(|l: Seq<char>| enum_value_of_line(trim_spec(l))->Some_0);
    assert(st3.doc.enums =~= st0.doc.enums.push((name, values))) by {
        assert(st3.doc.enums[idx].0 == name);
        assert(st3.doc.enums[idx].1 == values);
        assert(forall|j: int| 0 <= j < idx ==> st3.doc.enums[j] == #[trigger] st0.doc.enums[j]);
    }
    assert(st3.doc.messages == st0.doc.messages);
}

/// One block of a schema text: its header line, declared name, member
/// lines, and closing line.
pub struct BlockDesc {
    pub header: Seq<char>,
    pub name: Seq<char>,
    pub body: Seq<Seq<char>>,
    pub closer: Seq<char>,
    pub kind: BlockKind,
}

/// The block is well formed: its header declares `name` with its kind's
/// keyword, every member line matches the member grammar of its kind, and
/// its closing line closes a block.
pub open spec fn block_ok(b: BlockDesc) -> bool {
    is_close_line(trim_spec(b.closer)) && if b.kind == BlockKind::Message {
        begins_with(trim_spec(b.header), "message"@) && header_ident(
            trim_spec(b.header),
            "message"@.len() as int,
        ) == Some(b.name) && (forall|i: int|
            0 <= i < b.body.len() ==> is_field_member_line(#[trigger] b.body[i]))
    } else {
        begins_with(trim_spec(b.header), "enum"@) && header_ident(
            trim_spec(b.header),
            "enum"@.len() as int,
        ) == Some(b.name) && (forall|i: int|
            0 <= i < b.body.len() ==> is_enum_member_line(#[trigger] b.body[i]))
    }
}

/// The text lines of one block.
pub open spec fn block_lines(b: BlockDesc) -> Seq<Seq<char>> {
    seq![b.header] + b.body + seq![b.closer]
}

/// The text lines of a sequence of blocks.
pub open spec fn blocks_lines(bs: Seq<BlockDesc>) -> Seq<Seq<char>>
    decreases bs.len(),
{
    if bs.len() == 0 {
        Seq::empty()
    } else {
        blocks_lines(bs.drop_last()) + block_lines(bs.last())
    }
}

/// The fields of a message block, parsed in order.
pub open spec fn block_fields(b: BlockDesc) -> Seq<FieldV> {
    b.body.map_values(|l: Seq<char>| field_of_line(trim_spec(l))->Some_0)
}

/// The values of an enum block, parsed in order.
pub open spec fn block_values(b: BlockDesc) -> Seq<EnumV> {
    b.body.map_values(|l: Seq<char>| enum_value_of_line(trim_spec(l))->Some_0)
}

/// The message entries a sequence of blocks declares, in order.
pub open spec fn message_entries(bs: Seq<BlockDesc>) -> Seq<(Seq<char>, Seq<FieldV>)>
    decreases bs.len(),
{
    if bs.len() == 0 {
        Seq::empty()
    } else if bs.last().kind == BlockKind::Message {
        message_entries(bs.drop_last()).push((bs.last().name, block_fields(bs.last())))
    } else {
        message_entries(bs.drop_last())
    }
}

/// The enum entries a sequence of blocks declares, in order.
pub open spec fn enum_entries(bs: Seq<BlockDesc>) -> Seq<(Seq<char>, Seq<EnumV>)>
    decreases bs.len(),
{
    if bs.len() == 0 {
        Seq::empty()
    } else if bs.last().kind == BlockKind::Enum {
        enum_entries(bs.drop_last()).push((bs.last().name, block_values(bs.last())))
    } else {
        enum_entries(bs.drop_last())
    }
}

proof fn lemma_message_entry_names(bs: Seq<BlockDesc>, name: Seq<char>)
    requires
        forall|i: int|
            0 <= i < bs.len() ==> ((#[trigger] bs[i]).kind == BlockKind::Message ==> bs[i].name
                != name),
    ensures
        forall|k: int|
            0 <= k < message_entries(bs).len() ==> (#[trigger] message_entries(bs)[k]).0 != name,
    decreases bs.len(),
{
    if bs.len() > 0 {
        let front = bs.drop_last();
        assert(forall|i: int| 0 <= i < front.len() ==> #[trigger] front[i] == bs[i]);
        lemma_message_entry_names(front, name);
        assert(bs[bs.len() - 1] == bs.last());
        assert forall|k: int| 0 <= k < message_entries(bs).len() implies (
        #[trigger] message_entries(bs)[k]).0 != name by {
            if bs.last().kind == BlockKind::Message {
                if k < message_entries(front).len() {
                    assert(message_entries(bs)[k] == message_entries(front)[k]);
                } else {
                    assert(message_entries(bs)[k] == (bs.last().name, block_fields(bs.last())));
                }
            } else {
                assert(message_entries(bs) == message_entries(front));
            }
        }
    }
}

proof fn lemma_enum_entry_names(bs: Seq<BlockDesc>, name: Seq<char>)
    requires
        forall|i: int|
            0 <= i < bs.len() ==> ((#[trigger] bs[i]).kind == BlockKind::Enum ==> bs[i].name
                != name),
    ensures
        forall|k: int|
            0 <= k < enum_entries(bs).len() ==> (#[trigger] enum_entries(bs)[k]).0 != name,
    decreases bs.len(),
{
    if bs.len() > 0 {
        let front = bs.drop_last();
        assert(forall|i: int| 0 <= i < front.len() ==> #[trigger] front[i] == bs[i]);
        lemma_enum_entry_names(front, name);
        assert(bs[bs.len() - 1] == bs.last());
        assert forall|k: int| 0 <= k < enum_entries(bs).len() implies (
        #[trigger] enum_entries(bs)[k]).0 != name by {
            if bs.last().kind == BlockKind::Enum {
                if k < enum_entries(front).len() {
                    assert(enum_entries(bs)[k] == enum_entries(front)[k]);
                } else {
                    assert(enum_entries(bs)[k] == (bs.last().name, block_values(bs.last())));
                }
            } else {
                assert(enum_entries(bs) == enum_entries(front));
            }
        }
    }
}

/// A schema text that is a sequence of well-formed blocks, with names
/// distinct within each kind, always parses from the starting state, and
/// the document holds exactly those blocks' entries — messages and enums
/// each in declaration order, every member list in its body's order.
pub proof fn lemma_blocks_parse(bs: Seq<BlockDesc>)
    requires
        forall|i: int| 0 <= i < bs.len() ==> block_ok(#[trigger] bs[i]),
        forall|i: int, j: int|
            0 <= i < j < bs.len() && (#[trigger] bs[i]).kind == (#[trigger] bs[j]).kind
                ==> bs[i].name != bs[j].name,
    ensures
        ({
            let r = run_lines(init_state(), blocks_lines(bs));
            r is Ok && r->Ok_0.stack.len() == 0 && r->Ok_0.doc.messages == message_entries(bs)
                && r->Ok_0.doc.enums == enum_entries(bs)
        }),
    decreases bs.len(),
{
    if bs.len() == 0 {
        assert(init_state().doc.messages =~= message_entries(bs));
        assert(init_state().doc.enums =~= enum_entries(bs));
    } else {
        let front = bs.drop_last();
        let b = bs.last();
        assert(forall|i: int| 0 <= i < front.len() ==> #[trigger] front[i] == bs[i]);
        lemma_blocks_parse(front);
        let st1 = run_lines(init_state(), blocks_lines(front))->Ok_0;
        if b.kind == BlockKind::Message {
            lemma_message_entry_names(front, b.name);
            lemma_message_block_parses(st1, b.header, b.name, b.body, b.closer);
        } else {
            lemma_enum_entry_names(front, b.name);
            lemma_enum_block_parses(st1, b.header, b.name, b.body, b.closer);
        }
        lemma_run_lines_concat(init_state(), blocks_lines(front), block_lines(b));
    }
}

} // verus!
