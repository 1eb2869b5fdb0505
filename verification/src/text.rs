//! Characters and character sequences: white space, trimming, physical lines.

use vstd::prelude::*;

verus! {

/// Whether `c` is white space as Unicode defines it (`White_Space`).
pub open spec fn is_space(c: char) -> bool {
    let n = c as u32;
    ||| 0x09 <= n <= 0x0d
    ||| n == 0x20
    ||| n == 0x85
    ||| n == 0xa0
    ||| n == 0x1680
    ||| 0x2000 <= n <= 0x200a
    ||| n == 0x2028
    ||| n == 0x2029
    ||| n == 0x202f
    ||| n == 0x205f
    ||| n == 0x3000
}

/// `s` without its leading white space.
pub open spec fn trim_start(s: Seq<char>) -> Seq<char>
    decreases s.len(),
{
    if s.len() > 0 && is_space(s[0]) {
        trim_start(s.drop_first())
    } else {
        s
    }
}

/// `s` without its trailing white space.
pub open spec fn trim_end(s: Seq<char>) -> Seq<char>
    decreases s.len(),
{
    if s.len() > 0 && is_space(s.last()) {
        trim_end(s.drop_last())
    } else {
        s
    }
}

/// `s` without leading and trailing white space.
pub open spec fn trim(s: Seq<char>) -> Seq<char> {
    trim_end(trim_start(s))
}

/// The number of characters of `s` before its first white space; the length of
/// `s` where it holds none.
pub open spec fn first_space(s: Seq<char>) -> int
    decreases s.len(),
{
    if s.len() == 0 || is_space(s[0]) {
        0
    } else {
        1 + first_space(s.drop_first())
    }
}

/// The number of characters of `s` before its first line feed; the length of
/// `s` where it holds none.
pub open spec fn line_end(s: Seq<char>) -> int
    decreases s.len(),
{
    if s.len() == 0 || s[0] == '\n' {
        0
    } else {
        1 + line_end(s.drop_first())
    }
}

/// `s` without one trailing carriage return.
pub open spec fn strip_cr(s: Seq<char>) -> Seq<char> {
    if s.len() > 0 && s.last() == '\r' {
        s.drop_last()
    } else {
        s
    }
}

/// The physical lines of a text. A line ends at a line feed, which is not part
/// of it, nor is one carriage return just before that line feed. What follows
/// the last line feed is a line of its own unless it is empty.
pub open spec fn split_lines(s: Seq<char>) -> Seq<Seq<char>>
    decreases s.len(),
{
    if s.len() == 0 {
        Seq::empty()
    } else {
        let e = line_end(s);
        if 0 <= e < s.len() {
            seq![strip_cr(s.take(e))] + split_lines(s.skip(e + 1))
        } else {
            seq![s]
        }
    }
}

pub proof fn lemma_first_space_bounds(s: Seq<char>)
    ensures
        0 <= first_space(s) <= s.len(),
        first_space(s) < s.len() ==> is_space(s[first_space(s)]),
        forall|i: int| 0 <= i < first_space(s) ==> !is_space(#[trigger] s[i]),
    decreases s.len(),
{
    if s.len() == 0 || is_space(s[0]) {
    } else {
        let t = s.drop_first();
        lemma_first_space_bounds(t);
        assert forall|i: int| 0 <= i < first_space(s) implies !is_space(#[trigger] s[i]) by {
            if i > 0 {
                assert(s[i] == t[i - 1]);
            }
        }
    }
}

pub proof fn lemma_line_end_bounds(s: Seq<char>)
    ensures
        0 <= line_end(s) <= s.len(),
        line_end(s) < s.len() ==> s[line_end(s)] == '\n',
        forall|i: int| 0 <= i < line_end(s) ==> #[trigger] s[i] != '\n',
    decreases s.len(),
{
    if s.len() == 0 || s[0] == '\n' {
    } else {
        let t = s.drop_first();
        lemma_line_end_bounds(t);
        assert forall|i: int| 0 <= i < line_end(s) implies #[trigger] s[i] != '\n' by {
            if i > 0 {
                assert(s[i] == t[i - 1]);
            }
        }
    }
}

/// Tests a character for white space.
pub fn is_whitespace(c: char) -> (b: bool)
    ensures
        b == is_space(c),
{
    let n: u32 = c as u32;
    (0x09 <= n && n <= 0x0d) || n == 0x20 || n == 0x85 || n == 0xa0 || n == 0x1680 || (0x2000 <= n
        && n <= 0x200a) || n == 0x2028 || n == 0x2029 || n == 0x202f || n == 0x205f || n == 0x3000
}

/// The characters of a string, in order.
pub fn chars_of(s: &str) -> (v: Vec<char>)
    ensures
        v@ == s@,
{
    let mut v: Vec<char> = Vec::new();
    for c in it: s.chars()
        invariant
            v@ == it.seq().take(it.index()),
    {
        v.push(c);
    }
    v
}

/// `String::push` of std: the string afterwards is the string before with `c`
/// as one more character at its end.
#[verifier::external_body]
pub(crate) fn push_char(s: &mut String, c: char)
    ensures
        final(s)@ == old(s)@.push(c),
{
    s.push(c)
}

/// The string made of the characters `chars[from..to]`.
pub(crate) fn string_from(chars: &Vec<char>, from: usize, to: usize) -> (s: String)
    requires
        from <= to <= chars.len(),
    ensures
        s@ == chars@.subrange(from as int, to as int),
{
    let mut s = String::new();
    let mut i: usize = from;
    while i < to
        invariant
            from <= i <= to <= chars.len(),
            s@ == chars@.subrange(from as int, i as int),
        decreases to - i,
    {
        push_char(&mut s, chars[i]);
        i += 1;
        assert(s@ =~= chars@.subrange(from as int, i as int));
    }
    s
}

/// The first index in `from..to` whose character is no white space, or `to`.
pub(crate) fn skip_spaces(chars: &Vec<char>, from: usize, to: usize) -> (i: usize)
    requires
        from <= to <= chars.len(),
    ensures
        from <= i <= to,
        chars@.subrange(i as int, to as int) == trim_start(chars@.subrange(from as int, to as int)),
{
    let mut i: usize = from;
    while i < to && is_whitespace(chars[i])
        invariant
            from <= i <= to <= chars.len(),
            trim_start(chars@.subrange(i as int, to as int)) == trim_start(
                chars@.subrange(from as int, to as int),
            ),
        decreases to - i,
    {
        assert(chars@.subrange(i as int, to as int).drop_first() =~= chars@.subrange(
            i + 1,
            to as int,
        ));
        i += 1;
    }
    i
}

/// The end of `from..to` once the white space at its end is left out.
pub(crate) fn skip_spaces_back(chars: &Vec<char>, from: usize, to: usize) -> (j: usize)
    requires
        from <= to <= chars.len(),
    ensures
        from <= j <= to,
        chars@.subrange(from as int, j as int) == trim_end(chars@.subrange(from as int, to as int)),
{
    let mut j: usize = to;
    while j > from && is_whitespace(chars[j - 1])
        invariant
            from <= j <= to <= chars.len(),
            trim_end(chars@.subrange(from as int, j as int)) == trim_end(
                chars@.subrange(from as int, to as int),
            ),
        decreases j - from,
    {
        assert(chars@.subrange(from as int, j as int).drop_last() =~= chars@.subrange(
            from as int,
            j - 1,
        ));
        j -= 1;
    }
    j
}

/// The first index in `from..to` whose character is white space, or `to`.
pub(crate) fn find_space(chars: &Vec<char>, from: usize, to: usize) -> (k: usize)
    requires
        from <= to <= chars.len(),
    ensures
        from <= k <= to,
        k - from == first_space(chars@.subrange(from as int, to as int)),
{
    let mut k: usize = from;
    while k < to && !is_whitespace(chars[k])
        invariant
            from <= k <= to <= chars.len(),
            first_space(chars@.subrange(from as int, to as int)) == (k - from) + first_space(
                chars@.subrange(k as int, to as int),
            ),
        decreases to - k,
    {
        assert(chars@.subrange(k as int, to as int).drop_first() =~= chars@.subrange(
            k + 1,
            to as int,
        ));
        k += 1;
    }
    k
}

/// Splits a text into its physical lines.
pub fn lines_of(text: &str) -> (lines: Vec<String>)
    ensures
        lines.deep_view() == split_lines(text@),
{
    let chars = chars_of(text);
    let n = chars.len();
    let mut lines: Vec<String> = Vec::new();
    let mut pos: usize = 0;
    assert(chars@.skip(0) =~= text@);
    assert(lines.deep_view() + split_lines(text@) =~= split_lines(text@));
    while pos < n
        invariant
            n == chars.len(),
            chars@ == text@,
            pos <= n,
            split_lines(text@) == lines.deep_view() + split_lines(chars@.skip(pos as int)),
        decreases n - pos,
    {
        let ghost rest = chars@.skip(pos as int);
        let mut e: usize = pos;
        while e < n && chars[e] != '\n'
            invariant
                n == chars.len(),
                pos <= e <= n,
                rest == chars@.skip(pos as int),
                line_end(rest) == (e - pos) + line_end(chars@.skip(e as int)),
            decreases n - e,
        {
            assert(chars@.skip(e as int).drop_first() =~= chars@.skip(e + 1));
            e += 1;
        }
        assert(line_end(rest) == e - pos);
        let ghost before = lines.deep_view();
        if e == n {
            let line = string_from(&chars, pos, n);
            assert(line@ =~= rest);
            lines.push(line);
            assert(lines.deep_view() =~= before + seq![rest]);
            pos = n;
            assert(chars@.skip(n as int) =~= Seq::<char>::empty());
        } else {
            let stop: usize = if e > pos && chars[e - 1] == '\r' {
                (e - 1) as usize
            } else {
                e
            };
            let line = string_from(&chars, pos, stop);
            assert(rest.take(e - pos) =~= chars@.subrange(pos as int, e as int));
            assert(line@ =~= strip_cr(rest.take(e - pos)));
            lines.push(line);
            assert(lines.deep_view() =~= before + seq![strip_cr(rest.take(e - pos))]);
            assert(rest.skip(e - pos + 1) =~= chars@.skip(e + 1));
            pos = e + 1;
        }
    }
    assert(chars@.skip(n as int) =~= Seq::<char>::empty());
    assert(lines.deep_view() + Seq::<Seq<char>>::empty() =~= lines.deep_view());
    lines
}

/// Whether `s` holds no line feed.
pub open spec fn one_line(s: Seq<char>) -> bool {
    forall|i: int| 0 <= i < s.len() ==> s[i] != '\n'
}

/// What is left of `s` without its leading white space is an end of `s`, is
/// preceded by white space only, and does not begin with white space.
pub proof fn lemma_trim_start(s: Seq<char>)
    ensures
        trim_start(s).len() <= s.len(),
        trim_start(s) == s.skip(s.len() - trim_start(s).len()),
        trim_start(s).len() > 0 ==> !is_space(trim_start(s)[0]),
        forall|i: int| 0 <= i < s.len() - trim_start(s).len() ==> is_space(#[trigger] s[i]),
    decreases s.len(),
{
    if s.len() > 0 && is_space(s[0]) {
        let r = s.drop_first();
        lemma_trim_start(r);
        let n = r.len() - trim_start(r).len();
        assert(r.skip(n) =~= s.skip(n + 1));
        assert forall|i: int| 0 <= i < s.len() - trim_start(s).len() implies is_space(
            #[trigger] s[i],
        ) by {
            if i > 0 {
                assert(s[i] == r[i - 1]);
            }
        }
    } else {
        assert(s.skip(0) =~= s);
    }
}

/// What is left of `s` without its trailing white space is a beginning of
/// `s`, is followed by white space only, and does not end in white space.
pub proof fn lemma_trim_end(s: Seq<char>)
    ensures
        trim_end(s).len() <= s.len(),
        trim_end(s) == s.take(trim_end(s).len() as int),
        trim_end(s).len() > 0 ==> !is_space(trim_end(s).last()),
        forall|i: int| trim_end(s).len() <= i < s.len() ==> is_space(#[trigger] s[i]),
    decreases s.len(),
{
    if s.len() > 0 && is_space(s.last()) {
        let r = s.drop_last();
        lemma_trim_end(r);
        assert(r.take(trim_end(r).len() as int) =~= s.take(trim_end(r).len() as int));
        assert forall|i: int| trim_end(s).len() <= i < s.len() implies is_space(
            #[trigger] s[i],
        ) by {
            if i < r.len() {
                assert(s[i] == r[i]);
            }
        }
    } else {
        assert(s.take(s.len() as int) =~= s);
    }
}

/// White space in front of a text that begins with something else is all
/// that trimming at the start takes away.
pub proof fn lemma_trim_start_spaces(spaces: Seq<char>, rest: Seq<char>)
    requires
        forall|i: int| 0 <= i < spaces.len() ==> is_space(#[trigger] spaces[i]),
        rest.len() == 0 || !is_space(rest[0]),
    ensures
        trim_start(spaces + rest) == rest,
    decreases spaces.len(),
{
    if spaces.len() == 0 {
        assert(spaces + rest =~= rest);
    } else {
        assert((spaces + rest)[0] == spaces[0]);
        assert((spaces + rest).drop_first() =~= spaces.drop_first() + rest);
        lemma_trim_start_spaces(spaces.drop_first(), rest);
    }
}

/// A text without white space reaches up to the first white space of what
/// it is put in front of.
pub proof fn lemma_first_space_after(word: Seq<char>, rest: Seq<char>)
    requires
        forall|i: int| 0 <= i < word.len() ==> !is_space(#[trigger] word[i]),
        rest.len() > 0 && is_space(rest[0]),
    ensures
        first_space(word + rest) == word.len(),
    decreases word.len(),
{
    if word.len() == 0 {
        assert(word + rest =~= rest);
    } else {
        assert((word + rest)[0] == word[0]);
        assert((word + rest).drop_first() =~= word.drop_first() + rest);
        lemma_first_space_after(word.drop_first(), rest);
    }
}

/// One more white space at the end changes nothing of what trimming leaves.
pub proof fn lemma_trim_push_space(s: Seq<char>, c: char)
    requires
        is_space(c),
    ensures
        trim(s.push(c)) == trim(s),
    decreases s.len(),
{
    if s.len() > 0 && is_space(s[0]) {
        assert(s.push(c).drop_first() =~= s.drop_first().push(c));
        lemma_trim_push_space(s.drop_first(), c);
    } else if s.len() == 0 {
        let one = s.push(c);
        assert(one[0] == c);
        assert(one.drop_first() =~= Seq::<char>::empty());
        assert(trim_start(one.drop_first()) =~= Seq::<char>::empty());
        assert(trim_start(one) == trim_start(one.drop_first()));
        assert(trim_start(s) =~= Seq::<char>::empty());
    } else {
        assert(trim_start(s.push(c)) == s.push(c));
        assert(s.push(c).drop_last() =~= s);
    }
}

/// A text without line feed reaches up to the line feed that follows it.
proof fn lemma_line_end_after(body: Seq<char>, rest: Seq<char>)
    requires
        one_line(body),
        rest.len() > 0 && rest[0] == '\n',
    ensures
        line_end(body + rest) == body.len(),
    decreases body.len(),
{
    if body.len() == 0 {
        assert(body + rest =~= rest);
    } else {
        assert((body + rest)[0] == body[0]);
        assert((body + rest).drop_first() =~= body.drop_first() + rest);
        assert forall|i: int| 0 <= i < body.drop_first().len() implies body.drop_first()[i]
            != '\n' by {
            assert(body.drop_first()[i] == body[i + 1]);
        }
        lemma_line_end_after(body.drop_first(), rest);
    }
}

/// The first physical line of a text that begins with a line and its line
/// feed is that line, without the carriage return at its end if it has one.
pub proof fn lemma_split_first(body: Seq<char>, rest: Seq<char>)
    requires
        one_line(body),
    ensures
        split_lines(body + seq!['\n'] + rest) == seq![strip_cr(body)] + split_lines(rest),
{
    let tail = seq!['\n'] + rest;
    let s = body + tail;
    assert(body + seq!['\n'] + rest =~= s);
    lemma_line_end_after(body, tail);
    assert(s.take(body.len() as int) =~= body);
    assert(s.skip(body.len() as int + 1) =~= rest);
}

/// No physical line of a text holds a line feed.
pub proof fn lemma_split_lines_one_line(s: Seq<char>)
    ensures
        forall|i: int| 0 <= i < split_lines(s).len() ==> one_line(#[trigger] split_lines(s)[i]),
    decreases s.len(),
{
    if s.len() > 0 {
        let e = line_end(s);
        lemma_line_end_bounds(s);
        if e < s.len() {
            let first = strip_cr(s.take(e));
            let rest = split_lines(s.skip(e + 1));
            lemma_split_lines_one_line(s.skip(e + 1));
            assert forall|j: int| 0 <= j < first.len() implies first[j] != '\n' by {
                assert(first[j] == s[j]);
            }
            assert forall|i: int| 0 <= i < split_lines(s).len() implies one_line(
                #[trigger] split_lines(s)[i],
            ) by {
                if i > 0 {
                    assert(split_lines(s)[i] == rest[i - 1]);
                }
            }
        }
    }
}

} // verus!
