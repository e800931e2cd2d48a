//! File-name rules for the conversion run: which files are schema files,
//! and the name a generated declaration file gets.

use vstd::prelude::*;
use vstd::string::{StrSliceExecFns, StringExecFns};
use crate::text::str_eq;

verus! {

/// A file name that designates a schema file: a non-empty stem followed by
/// the `.proto` extension.
pub open spec fn is_proto_name(s: Seq<char>) -> bool {
    s.len() >= 7 && s.subrange(s.len() - 6, s.len() as int) == ".proto"@
}

/// Tests whether a file name designates a schema file.
pub fn is_proto_file_name(name: &str) -> (r: bool)
    ensures
        r == is_proto_name(name@),
{
    let n = name.unicode_len();
    if n < 7 {
        return false;
    }
    str_eq(name.substring_char(n - 6, n), ".proto")
}

/// The position of the last `.` in a sequence, or `-1` when there is none.
pub open spec fn last_dot(s: Seq<char>) -> int
    decreases s.len(),
{
    if s.len() == 0 {
        -1
    } else if s.last() == '.' {
        s.len() - 1
    } else {
        last_dot(s.drop_last())
    }
}

/// The name of the generated declaration file: the text after the last `.`
/// is replaced by `ts`; a name without a `.` gets `.ts` appended.
pub open spec fn ts_name_spec(s: Seq<char>) -> Seq<char> {
    if last_dot(s) >= 0 {
        s.take(last_dot(s)) + ".ts"@
    } else {
        s + ".ts"@
    }
}

proof fn lemma_last_dot_at(s: Seq<char>, j: int)
    requires
        0 <= j < s.len(),
        s[j] == '.',
        forall|k: int| j < k < s.len() ==> s[k] != '.',
    ensures
        last_dot(s) == j,
    decreases s.len(),
{
    if j < s.len() - 1 {
        assert(s.last() != '.');
        lemma_last_dot_at(s.drop_last(), j);
    }
}

proof fn lemma_last_dot_none(s: Seq<char>)
    requires
        forall|k: int| 0 <= k < s.len() ==> s[k] != '.',
    ensures
        last_dot(s) == -1,
    decreases s.len(),
{
    if s.len() > 0 {
        lemma_last_dot_none(s.drop_last());
    }
}

/// Builds the generated declaration file's name from the input file's name.
pub fn ts_file_name(name: &str) -> (r: String)
    ensures
        r@ == ts_name_spec(name@),
{
    let n = name.unicode_len();
    let mut j: usize = n;
    while j > 0 && name.get_char(j - 1) != '.'
        invariant
            n == name@.len(),
            j <= n,
            forall|k: int| j <= k < n ==> name@[k] != '.',
        decreases j,
    {
        j -= 1;
    }
    if j == 0 {
        proof {
            lemma_last_dot_none(name@);
        }
        let mut r = name.to_owned();
        r.append(".ts");
        proof {
            assert(r@ =~= ts_name_spec(name@));
        }
        r
    } else {
        proof {
            lemma_last_dot_at(name@, j - 1);
            assert(name@.subrange(0, j - 1) =~= name@.take(j - 1));
        }
        let mut r = name.substring_char(0, j - 1).to_owned();
        r.append(".ts");
        proof {
            assert(r@ =~= ts_name_spec(name@));
        }
        r
    }
}

} // verus!
