//! The type renderer: walks a schema document and emits TypeScript type
//! declarations. Enums are rendered first, then messages, each in the
//! document's declaration order; within an entity, members keep their
//! declaration order. An `optional` field is rendered with a `?` marker
//! and a `repeated` field as an array of its mapped type.

use vstd::prelude::*;
use vstd::string::StringExecFns;
use crate::schema::{DocV, EnumV, FieldV, ProtoBuf};

verus! {

/// The decimal digit character for `n`.
pub open spec fn digit_char(n: nat) -> char {
    if n == 0 {
        '0'
    } else if n == 1 {
        '1'
    } else if n == 2 {
        '2'
    } else if n == 3 {
        '3'
    } else if n == 4 {
        '4'
    } else if n == 5 {
        '5'
    } else if n == 6 {
        '6'
    } else if n == 7 {
        '7'
    } else if n == 8 {
        '8'
    } else {
        '9'
    }
}

/// The decimal rendering of a natural number, most significant digit
/// first, without leading zeroes.
pub open spec fn dec_str(n: nat) -> Seq<char>
    decreases n,
{
    if n < 10 {
        seq![digit_char(n)]
    } else {
        dec_str(n / 10).push(digit_char(n % 10))
    }
}

/// The one-character string slice for a decimal digit.
fn digit_str(d: u32) -> (r: &'static str)
    requires
        d < 10,
    ensures
        r@ =~= seq![digit_char(d as nat)],
{
    proof {
        reveal_strlit("0");
        reveal_strlit("1");
        reveal_strlit("2");
        reveal_strlit("3");
        reveal_strlit("4");
        reveal_strlit("5");
        reveal_strlit("6");
        reveal_strlit("7");
        reveal_strlit("8");
        reveal_strlit("9");
    }
    match d {
        0 => "0",
        1 => "1",
        2 => "2",
        3 => "3",
        4 => "4",
        5 => "5",
        6 => "6",
        7 => "7",
        8 => "8",
        _ => "9",
    }
}

/// Renders a `u32` in decimal.
pub fn u32_to_string(n: u32) -> (r: String)
    ensures
        r@ == dec_str(n as nat),
    decreases n,
{
    if n < 10 {
        digit_str(n).to_owned()
    } else {
        let mut s = u32_to_string(n / 10);
        s.append(digit_str(n % 10));
        proof {
            assert(s@ =~= dec_str(n as nat));
        }
        s
    }
}

/// The rendering of one enum member line.
pub open spec fn render_enum_value(v: EnumV) -> Seq<char> {
    "  "@ + v.name + " = "@ + dec_str(v.value as nat) + ",\n"@
}

/// The rendering of an enum's member lines, in order.
pub open spec fn render_enum_values(vs: Seq<EnumV>) -> Seq<char>
    decreases vs.len(),
{
    if vs.len() == 0 {
        Seq::empty()
    } else {
        render_enum_values(vs.drop_last()) + render_enum_value(vs.last())
    }
}

/// The rendering of one enum declaration.
pub open spec fn render_enum(e: (Seq<char>, Seq<EnumV>)) -> Seq<char> {
    "export enum "@ + e.0 + " {\n"@ + render_enum_values(e.1) + "}\n\n"@
}

/// The rendering of the document's enum declarations, in order.
pub open spec fn render_enums(es: Seq<(Seq<char>, Seq<EnumV>)>) -> Seq<char>
    decreases es.len(),
{
    if es.len() == 0 {
        Seq::empty()
    } else {
        render_enums(es.drop_last()) + render_enum(es.last())
    }
}

/// The rendering of one message field line: the field name, `?` when the
/// field is optional, and the mapped type, as an array when repeated.
pub open spec fn render_field(f: FieldV) -> Seq<char> {
    "  "@ + f.name + (if f.optional {
        "?"@
    } else {
        Seq::<char>::empty()
    }) + ": "@ + f.field + (if f.repeated {
        "[]"@
    } else {
        Seq::<char>::empty()
    }) + ";\n"@
}

/// The rendering of a message's field lines, in order.
pub open spec fn render_fields(fs: Seq<FieldV>) -> Seq<char>
    decreases fs.len(),
{
    if fs.len() == 0 {
        Seq::empty()
    } else {
        render_fields(fs.drop_last()) + render_field(fs.last())
    }
}

/// The rendering of one message declaration.
pub open spec fn render_message(m: (Seq<char>, Seq<FieldV>)) -> Seq<char> {
    "export interface "@ + m.0 + " {\n"@ + render_fields(m.1) + "}\n\n"@
}

/// The rendering of the document's message declarations, in order.
pub open spec fn render_messages(ms: Seq<(Seq<char>, Seq<FieldV>)>) -> Seq<char>
    decreases ms.len(),
{
    if ms.len() == 0 {
        Seq::empty()
    } else {
        render_messages(ms.drop_last()) + render_message(ms.last())
    }
}

/// The rendering of a whole document: its enums, then its messages.
pub open spec fn render_doc(d: DocV) -> Seq<char> {
    render_enums(d.enums) + render_messages(d.messages)
}

/// Renders a schema document as TypeScript type declarations. Rendering is
/// total: it succeeds on every document.
pub fn fmt_ts_str(proto_buf: &ProtoBuf) -> (r: String)
    ensures
        r@ == render_doc(proto_buf@),
{
    let ghost d = proto_buf@;
    let mut out = String::new();
    let mut i: usize = 0;
    proof {
        assert(d.enums.take(0) =~= Seq::<(Seq<char>, Seq<EnumV>)>::empty());
        assert(out@ =~= render_enums(d.enums.take(0)));
    }
    while i < proto_buf.enums.len()
        invariant
            d == proto_buf@,
            i <= proto_buf.enums@.len(),
            d.enums.len() == proto_buf.enums@.len(),
            out@ == render_enums(d.enums.take(i as int)),
        decreases proto_buf.enums@.len() - i,
    {
        let ghost e = d.enums[i as int];
        out.append("export enum ");
        out.append(proto_buf.enums[i].0.as_str());
        out.append(" {\n");
        let vals = &proto_buf.enums[i].1;
        proof {
            assert(e.0 == proto_buf.enums@[i as int].0@);
            assert(e.1 == vals@.map_values(|v: crate::schema::EnumField| v@));
            assert(e.1.take(0) =~= Seq::<EnumV>::empty());
        }
        let mut k: usize = 0;
        while k < vals.len()
            invariant
                e.1 == vals@.map_values(|v: crate::schema::EnumField| v@),
                k <= vals@.len(),
                e.1.len() == vals@.len(),
                out@ == render_enums(d.enums.take(i as int)) + "export enum "@ + e.0 + " {\n"@
                    + render_enum_values(e.1.take(k as int)),
            decreases vals@.len() - k,
        {
            let ghost v = e.1[k as int];
            out.append("  ");
            out.append(vals[k].name.as_str());
            out.append(" = ");
            let num = u32_to_string(vals[k].value);
            out.append(num.as_str());
            out.append(",\n");
            proof {
                assert(v == vals@[k as int]@);
                assert(e.1.take(k as int + 1).drop_last() =~= e.1.take(k as int));
                assert(e.1.take(k as int + 1).last() == v);
                assert(out@ =~= render_enums(d.enums.take(i as int)) + "export enum "@ + e.0
                    + " {\n"@ + render_enum_values(e.1.take(k as int + 1)));
            }
            k += 1;
        }
        out.append("}\n\n");
        proof {
            assert(e.1.take(e.1.len() as int) =~= e.1);
            assert(d.enums.take(i as int + 1).drop_last() =~= d.enums.take(i as int));
            assert(d.enums.take(i as int + 1).last() == e);
            assert(out@ =~= render_enums(d.enums.take(i as int + 1)));
        }
        i += 1;
    }
    proof {
        assert(d.enums.take(d.enums.len() as int) =~= d.enums);
        assert(d.messages.take(0) =~= Seq::<(Seq<char>, Seq<FieldV>)>::empty());
        assert(out@ =~= render_enums(d.enums) + render_messages(d.messages.take(0)));
    }
    let mut j: usize = 0;
    while j < proto_buf.messages.len()
        invariant
            d == proto_buf@,
            j <= proto_buf.messages@.len(),
            d.messages.len() == proto_buf.messages@.len(),
            out@ == render_enums(d.enums) + render_messages(d.messages.take(j as int)),
        decreases proto_buf.messages@.len() - j,
    {
        let ghost m = d.messages[j as int];
        out.append("export interface ");
        out.append(proto_buf.messages[j].0.as_str());
        out.append(" {\n");
        let fields = &proto_buf.messages[j].1;
        proof {
            assert(m.0 == proto_buf.messages@[j as int].0@);
            assert(m.1 == fields@.map_values(|f: crate::schema::MessageField| f@));
            assert(m.1.take(0) =~= Seq::<FieldV>::empty());
        }
        let mut k: usize = 0;
        while k < fields.len()
            invariant
                m.1 == fields@.map_values(|f: crate::schema::MessageField| f@),
                k <= fields@.len(),
                m.1.len() == fields@.len(),
                out@ == render_enums(d.enums) + render_messages(d.messages.take(j as int))
                    + "export interface "@ + m.0 + " {\n"@ + render_fields(m.1.take(k as int)),
            decreases fields@.len() - k,
        {
            let ghost f = m.1[k as int];
            out.append("  ");
            out.append(fields[k].name.as_str());
            if fields[k].optional {
                out.append("?");
            }
            out.append(": ");
            out.append(fields[k].field.as_str());
            if fields[k].repeated {
                out.append("[]");
            }
            out.append(";\n");
            proof {
                assert(f == fields@[k as int]@);
                assert(m.1.take(k as int + 1).drop_last() =~= m.1.take(k as int));
                assert(m.1.take(k as int + 1).last() == f);
                assert(out@ =~= render_enums(d.enums) + render_messages(d.messages.take(j as int))
                    + "export interface "@ + m.0 + " {\n"@ + render_fields(
                    m.1.take(k as int + 1),
                ));
            }
            k += 1;
        }
        out.append("}\n\n");
        proof {
            assert(m.1.take(m.1.len() as int) =~= m.1);
            assert(d.messages.take(j as int + 1).drop_last() =~= d.messages.take(j as int));
            assert(d.messages.take(j as int + 1).last() == m);
            assert(out@ =~= render_enums(d.enums) + render_messages(d.messages.take(j as int + 1)));
        }
        j += 1;
    }
    proof {
        assert(d.messages.take(d.messages.len() as int) =~= d.messages);
    }
    out
}

} // verus!
