//! Character-level scanning utilities for the line grammar: whitespace
//! trimming, whitespace-separated tokenization, line splitting, and
//! decimal-number reading.

use vstd::prelude::*;
use vstd::string::StrSliceExecFns;

verus! {

/// Whitespace recognized by the line grammar: the six ASCII whitespace
/// characters (space, tab, line feed, vertical tab, form feed, carriage
/// return).
pub open spec fn is_space(c: char) -> bool {
    c == ' ' || c == '\t' || c == '\n' || c == '\r' || c == '\u{b}' || c == '\u{c}'
}

/// Executable test for [`is_space`].
pub fn is_space_char(c: char) -> (r: bool)
    ensures
        r == is_space(c),
{
    c == ' ' || c == '\t' || c == '\n' || c == '\r' || c == '\u{b}' || c == '\u{c}'
}

/// Character-for-character equality of two string slices.
pub fn str_eq(a: &str, b: &str) -> (r: bool)
    ensures
        r == (a@ == b@),
{
    let an = a.unicode_len();
    let bn = b.unicode_len();
    if an != bn {
        return false;
    }
    let mut i: usize = 0;
    while i < an
        invariant
            an == a@.len(),
            bn == b@.len(),
            an == bn,
            i <= an,
            forall|j: int| 0 <= j < i ==> a@[j] == b@[j],
        decreases an - i,
    {
        if a.get_char(i) != b.get_char(i) {
            return false;
        }
        i += 1;
    }
    proof {
        assert(a@ =~= b@);
    }
    true
}

/// The sequence with its leading whitespace removed.
pub open spec fn trim_front(s: Seq<char>) -> Seq<char>
    decreases s.len(),
{
    if s.len() > 0 && is_space(s[0]) {
        trim_front(s.drop_first())
    } else {
        s
    }
}

/// The sequence with its trailing whitespace removed.
pub open spec fn trim_back(s: Seq<char>) -> Seq<char>
    decreases s.len(),
{
    if s.len() > 0 && is_space(s.last()) {
        trim_back(s.drop_last())
    } else {
        s
    }
}

/// The sequence with surrounding whitespace removed.
pub open spec fn trim_spec(s: Seq<char>) -> Seq<char> {
    trim_back(trim_front(s))
}

proof fn lemma_trim_front_skip(s: Seq<char>, i: int)
    requires
        0 <= i <= s.len(),
        forall|j: int| 0 <= j < i ==> is_space(s[j]),
    ensures
        trim_front(s) == trim_front(s.skip(i)),
    decreases i,
{
    if i > 0 {
        assert(s.drop_first() =~= s.skip(1));
        lemma_trim_front_skip(s.skip(1), i - 1);
        assert(s.skip(1).skip(i - 1) =~= s.skip(i));
    } else {
        assert(s.skip(0) =~= s);
    }
}

proof fn lemma_trim_back_take(s: Seq<char>, k: int)
    requires
        0 <= k <= s.len(),
        forall|j: int| k <= j < s.len() ==> is_space(s[j]),
    ensures
        trim_back(s) == trim_back(s.take(k)),
    decreases s.len() - k,
{
    if k < s.len() {
        assert(is_space(s.last()));
        assert(s.drop_last() =~= s.take(s.len() - 1));
        lemma_trim_back_take(s.take(s.len() - 1), k);
        assert(s.take(s.len() - 1).take(k) =~= s.take(k));
    } else {
        assert(s.take(k) =~= s);
    }
}

/// Removes surrounding whitespace from a string slice.
pub fn trim_str<'a>(s: &'a str) -> (r: &'a str)
    ensures
        r@ == trim_spec(s@),
{
    let n = s.unicode_len();
    let mut i: usize = 0;
    while i < n && is_space_char(s.get_char(i))
        invariant
            n == s@.len(),
            i <= n,
            forall|j: int| 0 <= j < i ==> is_space(s@[j]),
        decreases n - i,
    {
        i += 1;
    }
    proof {
        lemma_trim_front_skip(s@, i as int);
        if i < n {
            assert(s@.skip(i as int)[0] == s@[i as int]);
        }
        assert(trim_front(s@.skip(i as int)) == s@.skip(i as int));
    }
    let mut j: usize = n;
    while j > i && is_space_char(s.get_char(j - 1))
        invariant
            n == s@.len(),
            i <= j <= n,
            forall|k: int| j <= k < n ==> is_space(s@[k]),
        decreases j,
    {
        j -= 1;
    }
    proof {
        let t = s@.skip(i as int);
        assert(forall|k: int|
            j - i <= k < t.len() ==> is_space(#[trigger] t[k])) by {
            assert(forall|k: int| j - i <= k < t.len() ==> t[k] == s@[k + i]);
        }
        lemma_trim_back_take(t, j - i);
        if j > i {
            assert(t.take(j - i).last() == s@[j - 1]);
        }
        assert(trim_back(t.take(j - i)) == t.take(j - i));
        assert(t.take(j - i) =~= s@.subrange(i as int, j as int));
    }
    s.substring_char(i, j)
}

/// The views of a sequence of owned strings.
pub open spec fn views_of(v: Seq<String>) -> Seq<Seq<char>> {
    v.map_values(|t: String| t@)
}

/// Tokenization worker: the whitespace-separated tokens of `s`, with `cur`
/// the partial token already scanned.
pub open spec fn tokens_acc(s: Seq<char>, cur: Seq<char>) -> Seq<Seq<char>>
    decreases s.len(),
{
    if s.len() == 0 {
        if cur.len() == 0 {
            Seq::empty()
        } else {
            seq![cur]
        }
    } else if is_space(s[0]) {
        if cur.len() == 0 {
            tokens_acc(s.drop_first(), Seq::empty())
        } else {
            seq![cur] + tokens_acc(s.drop_first(), Seq::empty())
        }
    } else {
        tokens_acc(s.drop_first(), cur.push(s[0]))
    }
}

/// The whitespace-separated tokens of a character sequence, in order.
pub open spec fn tokens_of(s: Seq<char>) -> Seq<Seq<char>> {
    tokens_acc(s, Seq::empty())
}

/// Splits a string slice into its whitespace-separated tokens.
pub fn tokenize(s: &str) -> (toks: Vec<String>)
    ensures
        views_of(toks@) == tokens_of(s@),
{
    let n = s.unicode_len();
    let mut toks: Vec<String> = Vec::new();
    let mut i: usize = 0;
    let mut start: usize = 0;
    proof {
        assert(s@.skip(0) =~= s@);
        assert(s@.subrange(0, 0) =~= Seq::<char>::empty());
        assert(views_of(toks@) =~= Seq::<Seq<char>>::empty());
        assert(views_of(toks@) + tokens_acc(s@, Seq::empty()) =~= tokens_acc(s@, Seq::empty()));
    }
    while i < n
        invariant
            n == s@.len(),
            start <= i <= n,
            tokens_of(s@) == views_of(toks@) + tokens_acc(
                s@.skip(i as int),
                s@.subrange(start as int, i as int),
            ),
        decreases n - i,
    {
        let ghost rest = s@.skip(i as int);
        let ghost cur = s@.subrange(start as int, i as int);
        proof {
            assert(rest[0] == s@[i as int]);
            assert(rest.drop_first() =~= s@.skip(i as int + 1));
        }
        let c = s.get_char(i);
        if is_space_char(c) {
            if start < i {
                let tok = s.substring_char(start, i).to_owned();
                proof {
                    assert(views_of(toks@.push(tok)) =~= views_of(toks@).push(cur));
                    assert(views_of(toks@).push(cur) + tokens_acc(
                        s@.skip(i as int + 1),
                        Seq::<char>::empty(),
                    ) =~= views_of(toks@) + (seq![cur] + tokens_acc(
                        s@.skip(i as int + 1),
                        Seq::<char>::empty(),
                    )));
                }
                toks.push(tok);
            } else {
                proof {
                    assert(cur.len() == 0);
                }
            }
            i += 1;
            start = i;
            proof {
                assert(s@.subrange(start as int, i as int) =~= Seq::<char>::empty());
            }
        } else {
            proof {
                assert(cur.push(s@[i as int]) =~= s@.subrange(start as int, i as int + 1));
            }
            i += 1;
        }
    }
    proof {
        assert(s@.skip(n as int) =~= Seq::<char>::empty());
    }
    if start < n {
        let tok = s.substring_char(start, n).to_owned();
        proof {
            let ghost cur = s@.subrange(start as int, n as int);
            assert(views_of(toks@.push(tok)) =~= views_of(toks@).push(cur));
            assert(views_of(toks@).push(cur) =~= views_of(toks@) + seq![cur]);
        }
        toks.push(tok);
    }
    toks
}

/// Line-splitting worker: the lines of `s` separated by line feeds, with
/// `cur` the partial line already scanned. The final line is always kept,
/// even when empty.
pub open spec fn lines_acc(s: Seq<char>, cur: Seq<char>) -> Seq<Seq<char>>
    decreases s.len(),
{
    if s.len() == 0 {
        seq![cur]
    } else if s[0] == '\n' {
        seq![cur] + lines_acc(s.drop_first(), Seq::empty())
    } else {
        lines_acc(s.drop_first(), cur.push(s[0]))
    }
}

/// The lines of a character sequence, split on line feeds.
pub open spec fn lines_of(s: Seq<char>) -> Seq<Seq<char>> {
    lines_acc(s, Seq::empty())
}

/// Splits a string slice into its lines.
pub fn split_lines(s: &str) -> (lines: Vec<String>)
    ensures
        views_of(lines@) == lines_of(s@),
{
    let n = s.unicode_len();
    let mut lines: Vec<String> = Vec::new();
    let mut i: usize = 0;
    let mut start: usize = 0;
    proof {
        assert(s@.skip(0) =~= s@);
        assert(s@.subrange(0, 0) =~= Seq::<char>::empty());
        assert(views_of(lines@) =~= Seq::<Seq<char>>::empty());
        assert(views_of(lines@) + lines_acc(s@, Seq::empty()) =~= lines_acc(s@, Seq::empty()));
    }
    while i < n
        invariant
            n == s@.len(),
            start <= i <= n,
            lines_of(s@) == views_of(lines@) + lines_acc(
                s@.skip(i as int),
                s@.subrange(start as int, i as int),
            ),
        decreases n - i,
    {
        let ghost cur = s@.subrange(start as int, i as int);
        proof {
            assert(s@.skip(i as int)[0] == s@[i as int]);
            assert(s@.skip(i as int).drop_first() =~= s@.skip(i as int + 1));
        }
        let c = s.get_char(i);
        if c == '\n' {
            let line = s.substring_char(start, i).to_owned();
            proof {
                assert(views_of(lines@.push(line)) =~= views_of(lines@).push(cur));
                assert(views_of(lines@).push(cur) + lines_acc(
                    s@.skip(i as int + 1),
                    Seq::<char>::empty(),
                ) =~= views_of(lines@) + (seq![cur] + lines_acc(
                    s@.skip(i as int + 1),
                    Seq::<char>::empty(),
                )));
            }
            lines.push(line);
            i += 1;
            start = i;
            proof {
                assert(s@.subrange(start as int, i as int) =~= Seq::<char>::empty());
            }
        } else {
            proof {
                assert(cur.push(s@[i as int]) =~= s@.subrange(start as int, i as int + 1));
            }
            i += 1;
        }
    }
    proof {
        assert(s@.skip(n as int) =~= Seq::<char>::empty());
    }
    let last = s.substring_char(start, n).to_owned();
    proof {
        let ghost cur = s@.subrange(start as int, n as int);
        assert(views_of(lines@.push(last)) =~= views_of(lines@).push(cur));
        assert(views_of(lines@).push(cur) =~= views_of(lines@) + seq![cur]);
    }
    lines.push(last);
    lines
}

/// Splits a sequence at the first `=`, if any: the part before it and the
/// part after it.
pub open spec fn split_eq(s: Seq<char>) -> Option<(Seq<char>, Seq<char>)>
    decreases s.len(),
{
    if s.len() == 0 {
        None
    } else if s[0] == '=' {
        Some((Seq::empty(), s.drop_first()))
    } else {
        match split_eq(s.drop_first()) {
            None => None,
            Some(p) => Some((seq![s[0]] + p.0, p.1)),
        }
    }
}

proof fn lemma_split_eq_found(s: Seq<char>, j: int)
    requires
        0 <= j < s.len(),
        s[j] == '=',
        forall|k: int| 0 <= k < j ==> s[k] != '=',
    ensures
        split_eq(s) == Some((s.take(j), s.skip(j + 1))),
    decreases j,
{
    if j == 0 {
        assert(s.take(0) =~= Seq::<char>::empty());
        assert(s.drop_first() =~= s.skip(1));
    } else {
        lemma_split_eq_found(s.drop_first(), j - 1);
        assert(s.drop_first().take(j - 1) =~= s.take(j).drop_first());
        assert(seq![s[0]] + s.take(j).drop_first() =~= s.take(j));
        assert(s.drop_first().skip(j) =~= s.skip(j + 1));
    }
}

proof fn lemma_split_eq_none(s: Seq<char>)
    requires
        forall|k: int| 0 <= k < s.len() ==> s[k] != '=',
    ensures
        split_eq(s) is None,
    decreases s.len(),
{
    if s.len() > 0 {
        lemma_split_eq_none(s.drop_first());
    }
}

/// There is no `=` in a sequence exactly when splitting on `=` fails.
pub proof fn lemma_no_eq_separator(s: Seq<char>)
    ensures
        (forall|k: int| 0 <= k < s.len() ==> s[k] != '=') <==> split_eq(s) is None,
    decreases s.len(),
{
    if forall|k: int| 0 <= k < s.len() ==> s[k] != '=' {
        lemma_split_eq_none(s);
    }
    if s.len() > 0 && s[0] != '=' && split_eq(s) is None {
        lemma_no_eq_separator(s.drop_first());
        assert forall|k: int| 0 <= k < s.len() implies s[k] != '=' by {
            if k > 0 {
                assert(s.drop_first()[k - 1] == s[k]);
            }
        }
    }
}

/// Splits a string slice at its first `=`, if any.
pub fn split_on_eq<'a>(s: &'a str) -> (r: Option<(&'a str, &'a str)>)
    ensures
        match r {
            Some(p) => split_eq(s@) == Some((p.0@, p.1@)),
            None => split_eq(s@) is None,
        },
{
    let n = s.unicode_len();
    let mut i: usize = 0;
    while i < n
        invariant
            n == s@.len(),
            i <= n,
            forall|k: int| 0 <= k < i ==> s@[k] != '=',
        decreases n - i,
    {
        if s.get_char(i) == '=' {
            proof {
                lemma_split_eq_found(s@, i as int);
                assert(s@.take(i as int) =~= s@.subrange(0, i as int));
                assert(s@.skip(i as int + 1) =~= s@.subrange(i as int + 1, n as int));
            }
            let left = s.substring_char(0, i);
            let right = s.substring_char(i + 1, n);
            return Some((left, right));
        }
        i += 1;
    }
    proof {
        lemma_split_eq_none(s@);
    }
    None
}

/// The sequence with every statement terminator `;` removed.
pub open spec fn remove_semi(s: Seq<char>) -> Seq<char>
    decreases s.len(),
{
    if s.len() == 0 {
        Seq::empty()
    } else if s[0] == ';' {
        remove_semi(s.drop_first())
    } else {
        seq![s[0]] + remove_semi(s.drop_first())
    }
}

/// A decimal digit.
pub open spec fn is_digit(c: char) -> bool {
    '0' <= c && c <= '9'
}

/// The numeric value of a decimal digit.
pub open spec fn digit_val(c: char) -> nat {
    (c as int - '0' as int) as nat
}

/// Every character of the sequence is a decimal digit.
pub open spec fn is_digit_seq(s: Seq<char>) -> bool {
    forall|i: int| 0 <= i < s.len() ==> is_digit(#[trigger] s[i])
}

/// The value of a sequence of decimal digits, most significant first.
pub open spec fn digits_val(s: Seq<char>) -> nat
    decreases s.len(),
{
    if s.len() == 0 {
        0
    } else {
        digits_val(s.drop_last()) * 10 + digit_val(s.last())
    }
}

proof fn lemma_digits_val_take(s: Seq<char>, k: int)
    requires
        0 <= k <= s.len(),
    ensures
        digits_val(s.take(k)) <= digits_val(s),
    decreases s.len() - k,
{
    if k < s.len() {
        assert(s.drop_last() =~= s.take(s.len() - 1));
        lemma_digits_val_take(s.take(s.len() - 1), k);
        assert(s.take(s.len() - 1).take(k) =~= s.take(k));
    } else {
        assert(s.take(k) =~= s);
    }
}

/// The numeric reading of a line's value text: every `;` is removed, and
/// what remains must be one or more decimal digits whose value fits in a
/// `u32`.
pub open spec fn dec_value_of(s: Seq<char>) -> Option<u32> {
    let vs = remove_semi(s);
    if vs.len() > 0 && is_digit_seq(vs) && digits_val(vs) <= u32::MAX as nat {
        Some(digits_val(vs) as u32)
    } else {
        None
    }
}

/// Reads a `u32` from a string slice, ignoring `;` characters.
pub fn parse_u32_semi(s: &str) -> (r: Option<u32>)
    ensures
        r == dec_value_of(s@),
{
    let n = s.unicode_len();
    let mut i: usize = 0;
    let mut acc: u32 = 0;
    let mut any = false;
    let ghost mut fseen: Seq<char> = Seq::empty();
    proof {
        assert(s@.skip(0) =~= s@);
        assert(fseen + remove_semi(s@) =~= remove_semi(s@));
    }
    while i < n
        invariant
            n == s@.len(),
            i <= n,
            remove_semi(s@) == fseen + remove_semi(s@.skip(i as int)),
            is_digit_seq(fseen),
            any <==> fseen.len() > 0,
            acc as nat == digits_val(fseen),
        decreases n - i,
    {
        let ghost rest = s@.skip(i as int);
        proof {
            assert(rest[0] == s@[i as int]);
            assert(rest.drop_first() =~= s@.skip(i as int + 1));
        }
        let c = s.get_char(i);
        if c == ';' {
            i += 1;
        } else if '0' <= c && c <= '9' {
            proof {
                assert(seq![c] + remove_semi(s@.skip(i as int + 1)) =~= remove_semi(rest));
                assert(fseen + remove_semi(rest) =~= (fseen + seq![c]) + remove_semi(
                    s@.skip(i as int + 1),
                ));
                assert(fseen.push(c) =~= fseen + seq![c]);
                assert(fseen.push(c).drop_last() =~= fseen);
            }
            let d: u32 = c as u32 - 48;
            let next: u64 = acc as u64 * 10 + d as u64;
            if next > u32::MAX as u64 {
                proof {
                    let vs = remove_semi(s@);
                    lemma_digits_val_take(vs, fseen.len() as int + 1);
                    assert(vs.take(fseen.len() as int + 1) =~= fseen.push(c));
                    assert(digits_val(fseen.push(c)) > u32::MAX as nat);
                }
                return None;
            }
            acc = next as u32;
            any = true;
            proof {
                fseen = fseen.push(c);
            }
            i += 1;
        } else {
            proof {
                let vs = remove_semi(s@);
                assert(seq![c] + remove_semi(s@.skip(i as int + 1)) =~= remove_semi(rest));
                assert(remove_semi(rest)[0] == c);
                assert(vs[fseen.len() as int] == c);
                assert(!is_digit_seq(vs));
            }
            return None;
        }
    }
    proof {
        assert(s@.skip(n as int) =~= Seq::<char>::empty());
        assert(fseen + remove_semi(s@.skip(n as int)) =~= fseen);
    }
    if any {
        Some(acc)
    } else {
        None
    }
}

/// A word character, as in the block-name grammar: ASCII letters, digits,
/// and the underscore.
pub open spec fn is_word_char(c: char) -> bool {
    ('a' <= c && c <= 'z') || ('A' <= c && c <= 'Z') || ('0' <= c && c <= '9') || c == '_'
}

/// Executable test for [`is_word_char`].
pub fn is_word_char_exec(c: char) -> (r: bool)
    ensures
        r == is_word_char(c),
{
    ('a' <= c && c <= 'z') || ('A' <= c && c <= 'Z') || ('0' <= c && c <= '9') || c == '_'
}

/// `p` is a prefix of `s`.
pub open spec fn begins_with(s: Seq<char>, p: Seq<char>) -> bool {
    p.len() <= s.len() && s.subrange(0, p.len() as int) == p
}

/// Tests whether a string slice begins with the given prefix.
pub fn str_begins_with(s: &str, p: &str) -> (r: bool)
    ensures
        r == begins_with(s@, p@),
{
    let pn = p.unicode_len();
    if s.unicode_len() < pn {
        return false;
    }
    let mut i: usize = 0;
    while i < pn
        invariant
            pn == p@.len(),
            pn <= s@.len(),
            i <= pn,
            forall|j: int| 0 <= j < i ==> s@[j] == p@[j],
        decreases pn - i,
    {
        if s.get_char(i) != p.get_char(i) {
            proof {
                assert(s@.subrange(0, pn as int)[i as int] != p@[i as int]);
            }
            return false;
        }
        i += 1;
    }
    proof {
        assert(s@.subrange(0, pn as int) =~= p@);
    }
    true
}

/// The first position at or after `i` holding a non-whitespace character.
pub open spec fn skip_spaces_from(s: Seq<char>, i: int) -> int
    decreases s.len() - i,
{
    if i < s.len() && is_space(s[i]) {
        skip_spaces_from(s, i + 1)
    } else {
        i
    }
}

/// The first position at or after `i` holding a non-word character.
pub open spec fn skip_word_chars_from(s: Seq<char>, i: int) -> int
    decreases s.len() - i,
{
    if i < s.len() && is_word_char(s[i]) {
        skip_word_chars_from(s, i + 1)
    } else {
        i
    }
}

/// Executable mirror of [`skip_spaces_from`].
pub fn skip_spaces(s: &str, i: usize) -> (r: usize)
    requires
        i <= s@.len(),
    ensures
        r as int == skip_spaces_from(s@, i as int),
        i <= r <= s@.len(),
    decreases s@.len() - i,
{
    if i < s.unicode_len() && is_space_char(s.get_char(i)) {
        skip_spaces(s, i + 1)
    } else {
        i
    }
}

/// Executable mirror of [`skip_word_chars_from`].
pub fn skip_word_chars(s: &str, i: usize) -> (r: usize)
    requires
        i <= s@.len(),
    ensures
        r as int == skip_word_chars_from(s@, i as int),
        i <= r <= s@.len(),
    decreases s@.len() - i,
{
    if i < s.unicode_len() && is_word_char_exec(s.get_char(i)) {
        skip_word_chars(s, i + 1)
    } else {
        i
    }
}

/// A block-closing line: `}` possibly followed by a statement terminator,
/// with whitespace allowed between and after.
pub open spec fn is_close_line(t: Seq<char>) -> bool {
    t.len() > 0 && t[0] == '}' && {
        let a = skip_spaces_from(t, 1);
        a == t.len() || (t[a] == ';' && skip_spaces_from(t, a + 1) == t.len())
    }
}

/// Tests whether a string slice is a block-closing line.
pub fn is_close_line_exec(t: &str) -> (r: bool)
    ensures
        r == is_close_line(t@),
{
    let n = t.unicode_len();
    if n == 0 || t.get_char(0) != '}' {
        return false;
    }
    let a = skip_spaces(t, 1);
    if a == n {
        return true;
    }
    if t.get_char(a) == ';' {
        let b = skip_spaces(t, a + 1);
        b == n
    } else {
        false
    }
}

/// The block name of a header line `t` whose keyword ends at position `k`:
/// at least one whitespace character, then one or more word characters (the
/// name), then optional whitespace, then `{`. Anything after the `{` is
/// ignored. `None` when the line does not have that shape.
pub open spec fn header_ident(t: Seq<char>, k: int) -> Option<Seq<char>> {
    if k >= t.len() || !is_space(t[k]) {
        None
    } else {
        let a = skip_spaces_from(t, k);
        let b = skip_word_chars_from(t, a);
        if b == a {
            None
        } else {
            let c = skip_spaces_from(t, b);
            if c < t.len() && t[c] == '{' {
                Some(t.subrange(a, b))
            } else {
                None
            }
        }
    }
}

/// Extracts the block name of a header line, per [`header_ident`].
pub fn header_name(t: &str, k: usize) -> (r: Option<String>)
    requires
        k <= t@.len(),
    ensures
        match r {
            Some(name) => header_ident(t@, k as int) == Some(name@),
            None => header_ident(t@, k as int) is None,
        },
{
    let n = t.unicode_len();
    if k >= n || !is_space_char(t.get_char(k)) {
        return None;
    }
    let a = skip_spaces(t, k);
    let b = skip_word_chars(t, a);
    if b == a {
        return None;
    }
    let c = skip_spaces(t, b);
    if c < n && t.get_char(c) == '{' {
        Some(t.substring_char(a, b).to_owned())
    } else {
        None
    }
}

} // verus!
