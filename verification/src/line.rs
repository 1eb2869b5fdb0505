//! The kinds of physical line, and the two directives that the grammar knows
//! by name.

use crate::text::{
    chars_of, find_space, first_space, is_space, lemma_first_space_after,
    lemma_first_space_bounds, lemma_trim_end, lemma_trim_start, lemma_trim_start_spaces, one_line,
    skip_spaces, skip_spaces_back, string_from, trim, trim_end, trim_start,
};
use vstd::prelude::*;

verus! {

/// What one physical line is.
pub enum LineKind {
    /// The first character that is no white space is `#`.
    Comment,
    /// White space only.
    Blank,
    /// A key with nothing after it.
    Malformed,
    /// A key, white space, and a value.
    Directive { key: Seq<char>, value: Seq<char> },
}

/// The kind of `line`. A directive's key runs up to the first white space of
/// the trimmed line; its value is what follows, trimmed.
pub open spec fn classify(line: Seq<char>) -> LineKind {
    let t = trim(line);
    if t.len() == 0 {
        LineKind::Blank
    } else if t[0] == '#' {
        LineKind::Comment
    } else {
        let k = first_space(t);
        if 0 <= k < t.len() {
            LineKind::Directive { key: t.take(k), value: trim(t.skip(k)) }
        } else {
            LineKind::Malformed
        }
    }
}

/// The kind of a physical line, with the key and the value of a directive.
#[derive(Debug, Clone, PartialEq, Eq)]
pub enum LineClass {
    Comment,
    Blank,
    Malformed,
    Directive { key: String, value: String },
}

impl View for LineClass {
    type V = LineKind;

    open spec fn view(&self) -> LineKind {
        match self {
            LineClass::Comment => LineKind::Comment,
            LineClass::Blank => LineKind::Blank,
            LineClass::Malformed => LineKind::Malformed,
            LineClass::Directive { key, value } => LineKind::Directive {
                key: key@,
                value: value@,
            },
        }
    }
}

/// Classifies one physical line.
pub fn classify_line(line: &str) -> (class: LineClass)
    ensures
        class@ == classify(line@),
{
    let chars = chars_of(line);
    let n = chars.len();
    assert(chars@.subrange(0, n as int) =~= line@);
    let a = skip_spaces(&chars, 0, n);
    let b = skip_spaces_back(&chars, a, n);
    let ghost t = chars@.subrange(a as int, b as int);
    assert(t == trim(line@));
    if a == b {
        return LineClass::Blank;
    }
    if chars[a] == '#' {
        return LineClass::Comment;
    }
    let k = find_space(&chars, a, b);
    if k == b {
        return LineClass::Malformed;
    }
    let key = string_from(&chars, a, k);
    let from = skip_spaces(&chars, k, b);
    let to = skip_spaces_back(&chars, from, b);
    let value = string_from(&chars, from, to);
    assert(key@ =~= t.take(k - a));
    assert(chars@.subrange(k as int, b as int) =~= t.skip(k - a));
    LineClass::Directive { key, value }
}

/// The directives that open a host block or pull in files; every other key
/// is an option.
#[derive(Debug, Clone, Copy, PartialEq, Eq, Structural)]
pub enum Keyword {
    Host,
    Include,
    Other,
}

/// Whether `key` reads `host`, in any mix of upper and lower case.
pub open spec fn is_host_key(key: Seq<char>) -> bool {
    &&& key.len() == 4
    &&& (key[0] == 'h' || key[0] == 'H')
    &&& (key[1] == 'o' || key[1] == 'O')
    &&& (key[2] == 's' || key[2] == 'S')
    &&& (key[3] == 't' || key[3] == 'T')
}

/// Whether `key` reads `include`, in any mix of upper and lower case.
pub open spec fn is_include_key(key: Seq<char>) -> bool {
    &&& key.len() == 7
    &&& (key[0] == 'i' || key[0] == 'I')
    &&& (key[1] == 'n' || key[1] == 'N')
    &&& (key[2] == 'c' || key[2] == 'C')
    &&& (key[3] == 'l' || key[3] == 'L')
    &&& (key[4] == 'u' || key[4] == 'U')
    &&& (key[5] == 'd' || key[5] == 'D')
    &&& (key[6] == 'e' || key[6] == 'E')
}

/// The directive that `key` names.
pub open spec fn keyword_of(key: Seq<char>) -> Keyword {
    if is_host_key(key) {
        Keyword::Host
    } else if is_include_key(key) {
        Keyword::Include
    } else {
        Keyword::Other
    }
}

/// Tells which directive a key names.
pub fn keyword(key: &str) -> (word: Keyword)
    ensures
        word == keyword_of(key@),
{
    let c = chars_of(key);
    if c.len() == 4 && (c[0] == 'h' || c[0] == 'H') && (c[1] == 'o' || c[1] == 'O') && (c[2] == 's'
        || c[2] == 'S') && (c[3] == 't' || c[3] == 'T') {
        Keyword::Host
    } else if c.len() == 7 && (c[0] == 'i' || c[0] == 'I') && (c[1] == 'n' || c[1] == 'N') && (c[2]
        == 'c' || c[2] == 'C') && (c[3] == 'l' || c[3] == 'L') && (c[4] == 'u' || c[4] == 'U') && (
    c[5] == 'd' || c[5] == 'D') && (c[6] == 'e' || c[6] == 'E') {
        Keyword::Include
    } else {
        Keyword::Other
    }
}

/// The key and the value of a directive: the key is not empty, holds no
/// white space and does not begin with `#`; the value is not empty and
/// neither begins nor ends with white space; and the value of a directive
/// written on one line holds no line feed.
pub proof fn lemma_directive(line: Seq<char>)
    requires
        classify(line) is Directive,
    ensures
        ({
            let key = classify(line)->key;
            let value = classify(line)->value;
            &&& key.len() > 0
            &&& forall|i: int| 0 <= i < key.len() ==> !is_space(#[trigger] key[i])
            &&& key[0] != '#'
            &&& value.len() > 0
            &&& !is_space(value[0])
            &&& !is_space(value.last())
            &&& one_line(line) ==> one_line(value)
        }),
{
    let ts = trim_start(line);
    let t = trim(line);
    lemma_trim_start(line);
    lemma_trim_end(ts);
    let k = first_space(t);
    lemma_first_space_bounds(t);
    assert(t[0] == ts[0]);
    let key = t.take(k);
    let rest = t.skip(k);
    assert(rest.last() == t.last());
    let rs = trim_start(rest);
    lemma_trim_start(rest);
    if rs.len() == 0 {
        assert(is_space(rest[rest.len() - 1]));
    }
    assert(rs.last() == rest.last());
    assert(trim_end(rs) == rs);
    let value = rs;
    assert(classify(line) == LineKind::Directive { key, value });
    assert forall|i: int| 0 <= i < key.len() implies !is_space(#[trigger] key[i]) by {
        assert(key[i] == t[i]);
    }
    if one_line(line) {
        assert forall|i: int| 0 <= i < value.len() implies value[i] != '\n' by {
            let a = line.len() - ts.len();
            let b = rest.len() - rs.len();
            assert(value[i] == rest[b + i]);
            assert(rest[b + i] == t[k + b + i]);
            assert(t[k + b + i] == ts[k + b + i]);
            assert(ts[k + b + i] == line[a + k + b + i]);
        }
    }
}

/// A key, white space in front of it or none, one space, and a value read
/// as the directive of that key and that value.
pub proof fn lemma_classify_pair(spaces: Seq<char>, key: Seq<char>, value: Seq<char>)
    requires
        forall|i: int| 0 <= i < spaces.len() ==> is_space(#[trigger] spaces[i]),
        key.len() > 0,
        forall|i: int| 0 <= i < key.len() ==> !is_space(#[trigger] key[i]),
        key[0] != '#',
        value.len() > 0,
        !is_space(value[0]),
        !is_space(value.last()),
    ensures
        classify(spaces + key + seq![' '] + value) == (LineKind::Directive { key, value }),
{
    let tail = seq![' '] + value;
    let t = key + tail;
    assert(spaces + key + seq![' '] + value =~= spaces + t);
    assert(t[0] == key[0]);
    lemma_trim_start_spaces(spaces, t);
    assert(t.last() == value.last());
    assert(trim_end(t) == t);
    assert(trim(spaces + t) == t);
    lemma_first_space_after(key, tail);
    assert(t.take(key.len() as int) =~= key);
    assert(t.skip(key.len() as int) =~= tail);
    lemma_trim_start_spaces(seq![' '], value);
    assert(trim_end(value) == value);
}

} // verus!
