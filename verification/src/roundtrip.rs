//! Writing a parsed file and reading it again: what the text that is written
//! looks like line by line, and that reading it gives the same document.

use crate::laws::law_append_is_local;
use crate::line::{
    classify, keyword_of, lemma_classify_pair, lemma_directive, Keyword, LineKind,
};
use crate::model::Line;
use crate::parser::{
    feed, feed_all, flush, parse_lines, parse_text, scan, Fed, Host, Scanned,
};
use crate::render::{host_prefix, include_prefix, indent, render, render_options};
use crate::text::{
    lemma_split_first, lemma_split_lines_one_line, lemma_trim_push_space, one_line, split_lines,
    strip_cr, trim,
};
use vstd::prelude::*;

verus! {

/// The word `Host`.
pub open spec fn host_word() -> Seq<char> {
    seq!['H', 'o', 's', 't']
}

/// The word `Include`.
pub open spec fn include_word() -> Seq<char> {
    seq!['I', 'n', 'c', 'l', 'u', 'd', 'e']
}

/// How a physical line is written back, without the line feed at its end: a
/// comment as it stands, a blank line as an empty line, a directive as its
/// key (`Host` and `Include` in this spelling), one space and its value,
/// indented by four spaces where it is an option of a host block. A key
/// without a value is not written at all.
pub open spec fn normal_line(line: Seq<char>, in_host: bool) -> Option<Seq<char>> {
    match classify(line) {
        LineKind::Comment => Some(line),
        LineKind::Blank => Some(Seq::empty()),
        LineKind::Malformed => None,
        LineKind::Directive { key, value } => match keyword_of(key) {
            Keyword::Host => Some(host_word() + seq![' '] + value),
            Keyword::Include => Some(include_word() + seq![' '] + value),
            Keyword::Other => if in_host {
                Some(indent() + key + seq![' '] + value)
            } else {
                Some(key + seq![' '] + value)
            },
        },
    }
}

/// Whether a host block is open after a physical line, given whether one was
/// open before it.
pub open spec fn opens(line: Seq<char>, in_host: bool) -> bool {
    match classify(line) {
        LineKind::Comment => false,
        LineKind::Blank => false,
        LineKind::Malformed => in_host,
        LineKind::Directive { key, value } => match keyword_of(key) {
            Keyword::Host => true,
            Keyword::Include => false,
            Keyword::Other => in_host,
        },
    }
}

/// The text that is written for the physical lines `lines`: each line that is
/// written at all, in its normal form and with a line feed at its end.
pub open spec fn normal_text(lines: Seq<Seq<char>>, in_host: bool) -> Seq<char>
    decreases lines.len(),
{
    if lines.len() == 0 {
        Seq::empty()
    } else {
        let rest = normal_text(lines.drop_first(), opens(lines[0], in_host));
        match normal_line(lines[0], in_host) {
            Some(body) => body + seq!['\n'] + rest,
            None => rest,
        }
    }
}

/// The text of an open host block.
pub open spec fn render_open(open: Option<Host>) -> Seq<char> {
    match open {
        Some(h) => host_prefix() + h.pattern + seq!['\n'] + render_options(h.options),
        None => Seq::empty(),
    }
}

/// Closing the open host block adds its text to the text of its file.
proof fn lemma_render_flush(out: Seq<Line>, open: Option<Host>, source: Seq<char>)
    ensures
        render(flush(out, open, source), source) == render(out, source) + render_open(open),
{
    match open {
        Some(h) => {
            law_append_is_local(
                out,
                Line::HostEntry { pattern: h.pattern, options: h.options, source },
                source,
            );
        },
        None => {
            assert(render(out, source) + render_open(open) =~= render(out, source));
        },
    }
}

/// What a physical line adds to the text of its file, the open host block
/// counted in: the line in its normal form.
proof fn lemma_render_feed(
    out: Seq<Line>,
    open: Option<Host>,
    line: Seq<char>,
    source: Seq<char>,
)
    ensures
        ({
            let f = feed(out, open, line, source);
            let written = match normal_line(line, open is Some) {
                Some(body) => body + seq!['\n'],
                None => Seq::empty(),
            };
            &&& render(f.out, source) + render_open(f.open) == render(out, source) + render_open(
                open,
            ) + written
            &&& (f.open is Some) == opens(line, open is Some)
        }),
{
    let f = feed(out, open, line, source);
    let before = render(out, source) + render_open(open);
    let flushed = flush(out, open, source);
    lemma_render_flush(out, open, source);
    match classify(line) {
        LineKind::Comment => {
            law_append_is_local(flushed, Line::Comment { text: line, source }, source);
            assert(render(f.out, source) + render_open(f.open) =~= before + (line + seq!['\n']));
        },
        LineKind::Blank => {
            law_append_is_local(flushed, Line::Empty { source }, source);
            assert(render(f.out, source) + render_open(f.open) =~= before + (Seq::<char>::empty()
                + seq!['\n']));
        },
        LineKind::Malformed => {
            assert(before + Seq::<char>::empty() =~= before);
        },
        LineKind::Directive { key, value } => match keyword_of(key) {
            Keyword::Host => {
                assert(render_options(Seq::empty()) =~= Seq::<char>::empty());
                assert(host_prefix() =~= host_word() + seq![' ']);
                assert(render(f.out, source) + render_open(f.open) =~= before + (host_word()
                    + seq![' '] + value + seq!['\n']));
            },
            Keyword::Include => {
                law_append_is_local(flushed, Line::Include { path: value, source }, source);
                assert(include_prefix() =~= include_word() + seq![' ']);
                assert(render(f.out, source) + render_open(f.open) =~= before + (include_word()
                    + seq![' '] + value + seq!['\n']));
            },
            Keyword::Other => match open {
                Some(h) => {
                    assert(h.options.push((key, value)).drop_last() =~= h.options);
                    assert(render(f.out, source) + render_open(f.open) =~= before + (indent() + key
                        + seq![' '] + value + seq!['\n']));
                },
                None => {
                    law_append_is_local(out, Line::GlobalOption { key, value, source }, source);
                    assert(render(f.out, source) + render_open(f.open) =~= before + (key
                        + seq![' '] + value + seq!['\n']));
                },
            },
        },
    }
}

/// What physical lines add to the text of their file, once the host block
/// that is open at their end is closed: the lines in their normal form.
proof fn lemma_render_feed_all(
    out: Seq<Line>,
    open: Option<Host>,
    lines: Seq<Seq<char>>,
    source: Seq<char>,
)
    ensures
        ({
            let end = feed_all(out, open, lines, source);
            render(flush(end.0, end.1, source), source) == render(out, source) + render_open(open)
                + normal_text(lines, open is Some)
        }),
    decreases lines.len(),
{
    let before = render(out, source) + render_open(open);
    if lines.len() == 0 {
        lemma_render_flush(out, open, source);
        assert(before + normal_text(lines, open is Some) =~= before);
    } else {
        let f = feed(out, open, lines[0], source);
        lemma_render_feed(out, open, lines[0], source);
        lemma_render_feed_all(f.out, f.open, lines.drop_first(), source);
        let rest = normal_text(lines.drop_first(), f.open is Some);
        match normal_line(lines[0], open is Some) {
            Some(body) => {
                assert(before + (body + seq!['\n']) + rest =~= before + (body + seq!['\n']
                    + rest));
            },
            None => {
                assert(before + Seq::<char>::empty() + rest =~= before + rest);
            },
        }
    }
}

/// Whether a host block is open after the physical lines `lines`, given
/// whether one was open before them.
pub open spec fn open_after(lines: Seq<Seq<char>>, in_host: bool) -> bool
    decreases lines.len(),
{
    if lines.len() == 0 {
        in_host
    } else {
        open_after(lines.drop_first(), opens(lines[0], in_host))
    }
}

/// The text written for physical lines is the text written for a first part
/// of them followed by the text written for the rest.
pub proof fn lemma_normal_text_concat(a: Seq<Seq<char>>, b: Seq<Seq<char>>, in_host: bool)
    ensures
        normal_text(a + b, in_host) == normal_text(a, in_host) + normal_text(
            b,
            open_after(a, in_host),
        ),
        open_after(a + b, in_host) == open_after(b, open_after(a, in_host)),
    decreases a.len(),
{
    if a.len() == 0 {
        assert(a + b =~= b);
        assert(normal_text(a, in_host) + normal_text(b, in_host) =~= normal_text(b, in_host));
    } else {
        let next = opens(a[0], in_host);
        assert((a + b)[0] == a[0]);
        assert((a + b).drop_first() =~= a.drop_first() + b);
        lemma_normal_text_concat(a.drop_first(), b, next);
        let ra = normal_text(a.drop_first(), next);
        let rb = normal_text(b, open_after(a, in_host));
        match normal_line(a[0], in_host) {
            Some(body) => {
                assert(body + seq!['\n'] + (ra + rb) =~= body + seq!['\n'] + ra + rb);
            },
            None => {},
        }
    }
}

/// A physical line of one file adds nothing to the text of another file.
pub proof fn lemma_feed_elsewhere(
    out: Seq<Line>,
    open: Option<Host>,
    line: Seq<char>,
    source: Seq<char>,
    other: Seq<char>,
)
    requires
        other != source,
    ensures
        render(feed(out, open, line, source).out, other) == render(out, other),
        render(flush(out, open, source), other) == render(out, other),
{
    let flushed = flush(out, open, source);
    match open {
        Some(h) => {
            law_append_is_local(
                out,
                Line::HostEntry { pattern: h.pattern, options: h.options, source },
                other,
            );
        },
        None => {},
    }
    match classify(line) {
        LineKind::Comment => {
            law_append_is_local(flushed, Line::Comment { text: line, source }, other);
        },
        LineKind::Blank => {
            law_append_is_local(flushed, Line::Empty { source }, other);
        },
        LineKind::Malformed => {},
        LineKind::Directive { key, value } => match keyword_of(key) {
            Keyword::Host => {},
            Keyword::Include => {
                law_append_is_local(flushed, Line::Include { path: value, source }, other);
            },
            Keyword::Other => match open {
                Some(h) => {},
                None => {
                    law_append_is_local(out, Line::GlobalOption { key, value, source }, other);
                },
            },
        },
    }
}

/// What a run over the physical lines of a file adds to the text of that
/// file: the lines it has read, each in its normal form. It stops short of
/// the end only at an `Include` directive, where no host block is open, and
/// it adds nothing to the text of any other file.
pub proof fn lemma_render_scan(
    out: Seq<Line>,
    open: Option<Host>,
    rest: Seq<Seq<char>>,
    source: Seq<char>,
    other: Seq<char>,
)
    requires
        other != source,
    ensures
        ({
            let s = scan(out, open, rest, source);
            let k = rest.len() - s.rest.len();
            &&& 0 <= k <= rest.len()
            &&& s.rest == rest.skip(k)
            &&& s.wanted is Some ==> k > 0
            &&& s.wanted is None ==> k == rest.len()
            &&& render(s.out, source) == render(out, source) + render_open(open) + normal_text(
                rest.take(k),
                open is Some,
            )
            &&& s.wanted is Some ==> !open_after(rest.take(k), open is Some)
            &&& render(s.out, other) == render(out, other)
        }),
    decreases rest.len(),
{
    let s = scan(out, open, rest, source);
    let before = render(out, source) + render_open(open);
    if rest.len() == 0 {
        lemma_render_flush(out, open, source);
        lemma_feed_elsewhere(out, open, Seq::empty(), source, other);
        assert(rest.skip(0) =~= rest);
        assert(rest.take(0) =~= Seq::<Seq<char>>::empty());
        assert(before + normal_text(rest.take(0), open is Some) =~= before);
    } else {
        let f = feed(out, open, rest[0], source);
        lemma_render_feed(out, open, rest[0], source);
        lemma_feed_elsewhere(out, open, rest[0], source, other);
        let tail = rest.drop_first();
        if f.wanted is Some {
            assert(rest.skip(1) =~= tail);
            let one = rest.take(1);
            assert(one.drop_first() =~= Seq::<Seq<char>>::empty());
            assert(one[0] == rest[0]);
            assert(normal_text(one.drop_first(), opens(rest[0], open is Some))
                =~= Seq::<char>::empty());
            assert(f.open is None);
            assert(open_after(one, open is Some) == open_after(
                one.drop_first(),
                opens(rest[0], open is Some),
            ));
            match normal_line(rest[0], open is Some) {
                Some(body) => {
                    assert(normal_text(one, open is Some) =~= body + seq!['\n']);
                },
                None => {},
            }
        } else {
            lemma_render_scan(f.out, f.open, tail, source, other);
            let k = rest.len() - s.rest.len();
            assert(tail.skip(k - 1) =~= rest.skip(k));
            let read = rest.take(k);
            assert(read[0] == rest[0]);
            assert(read.drop_first() =~= tail.take(k - 1));
            assert(open_after(read, open is Some) == open_after(
                read.drop_first(),
                opens(rest[0], open is Some),
            ));
            let more = normal_text(tail.take(k - 1), f.open is Some);
            match normal_line(rest[0], open is Some) {
                Some(body) => {
                    assert(before + (body + seq!['\n']) + more =~= before + (body + seq!['\n']
                        + more));
                },
                None => {
                    assert(before + Seq::<char>::empty() + more =~= before + more);
                },
            }
        }
    }
}

/// The text written for a parsed file is the file line by line, each
/// physical line in its normal form: comments are kept as they stand, blank
/// lines become empty lines, and `Include` directives keep their argument.
pub proof fn law_written_line_by_line(lines: Seq<Seq<char>>, source: Seq<char>)
    ensures
        render(parse_lines(lines, source), source) == normal_text(lines, false),
{
    lemma_render_feed_all(Seq::empty(), None, lines, source);
    assert(render(Seq::<Line>::empty(), source) + render_open(None) + normal_text(lines, false)
        =~= normal_text(lines, false));
}

/// The physical lines of the text that is written for `lines`.
pub open spec fn written_lines(lines: Seq<Seq<char>>, in_host: bool) -> Seq<Seq<char>>
    decreases lines.len(),
{
    if lines.len() == 0 {
        Seq::empty()
    } else {
        let rest = written_lines(lines.drop_first(), opens(lines[0], in_host));
        match normal_line(lines[0], in_host) {
            Some(body) => seq![strip_cr(body)] + rest,
            None => rest,
        }
    }
}

/// A line in its normal form holds no line feed, and only a comment can end
/// in a carriage return.
proof fn lemma_normal_line(line: Seq<char>, in_host: bool)
    requires
        one_line(line),
    ensures
        normal_line(line, in_host) matches Some(body) ==> one_line(body) && (classify(line)
            is Directive ==> strip_cr(body) == body),
{
    match classify(line) {
        LineKind::Directive { key, value } => {
            lemma_directive(line);
            let body = normal_line(line, in_host)->0;
            let word = match keyword_of(key) {
                Keyword::Host => host_word(),
                Keyword::Include => include_word(),
                Keyword::Other => if in_host {
                    indent() + key
                } else {
                    key
                },
            };
            assert(body =~= word + seq![' '] + value);
            assert(body.last() == value.last());
            assert forall|i: int| 0 <= i < body.len() implies body[i] != '\n' by {
                if i < word.len() {
                    if keyword_of(key) == Keyword::Other {
                        if in_host {
                            if i >= 4 {
                                assert(body[i] == key[i - 4]);
                            }
                        } else {
                            assert(body[i] == key[i]);
                        }
                    }
                } else if i > word.len() {
                    assert(body[i] == value[i - word.len() - 1]);
                }
            }
        },
        _ => {},
    }
}

/// The physical lines of the text written for `lines` are those lines in
/// their normal form.
pub proof fn lemma_written_lines(lines: Seq<Seq<char>>, in_host: bool)
    requires
        forall|i: int| 0 <= i < lines.len() ==> one_line(#[trigger] lines[i]),
    ensures
        split_lines(normal_text(lines, in_host)) == written_lines(lines, in_host),
    decreases lines.len(),
{
    if lines.len() > 0 {
        let next = opens(lines[0], in_host);
        assert forall|i: int| 0 <= i < lines.drop_first().len() implies one_line(
            #[trigger] lines.drop_first()[i],
        ) by {
            assert(lines.drop_first()[i] == lines[i + 1]);
        }
        lemma_written_lines(lines.drop_first(), next);
        lemma_normal_line(lines[0], in_host);
        match normal_line(lines[0], in_host) {
            Some(body) => {
                lemma_split_first(body, normal_text(lines.drop_first(), next));
            },
            None => {},
        }
    }
}

/// A line as it is read again after it was written: a comment has lost the
/// carriage return at its end, if it had one; every other line is as it was.
pub open spec fn settle(line: Line) -> Line {
    match line {
        Line::Comment { text, source } => Line::Comment { text: strip_cr(text), source },
        _ => line,
    }
}

/// The lines as they are read again after they were written.
pub open spec fn settle_all(lines: Seq<Line>) -> Seq<Line> {
    lines.map_values(|l: Line| settle(l))
}

/// Reading again goes line by line.
proof fn lemma_settle_push(lines: Seq<Line>, line: Line)
    ensures
        settle_all(lines.push(line)) == settle_all(lines).push(settle(line)),
{
    assert(settle_all(lines.push(line)) =~= settle_all(lines).push(settle(line)));
}

/// A host block is read again as it was.
proof fn lemma_settle_flush(out: Seq<Line>, open: Option<Host>, source: Seq<char>)
    ensures
        settle_all(flush(out, open, source)) == flush(settle_all(out), open, source),
{
    match open {
        Some(h) => {
            lemma_settle_push(
                out,
                Line::HostEntry { pattern: h.pattern, options: h.options, source },
            );
        },
        None => {},
    }
}

/// What a physical line does is what its written form does, up to the
/// carriage return at the end of a comment.
proof fn lemma_feed_written(
    out: Seq<Line>,
    open: Option<Host>,
    line: Seq<char>,
    source: Seq<char>,
)
    ensures
        ({
            let f = feed(out, open, line, source);
            match normal_line(line, open is Some) {
                Some(body) => feed(settle_all(out), open, strip_cr(body), source) == (Fed {
                    out: settle_all(f.out),
                    open: f.open,
                    wanted: f.wanted,
                }),
                None => f.out == out && f.open == open,
            }
        }),
{
    let f = feed(out, open, line, source);
    let flushed = flush(out, open, source);
    lemma_settle_flush(out, open, source);
    match classify(line) {
        LineKind::Comment => {
            if line.len() > 0 && line.last() == '\r' {
                assert(line =~= line.drop_last().push('\r'));
                lemma_trim_push_space(line.drop_last(), '\r');
            }
            assert(trim(strip_cr(line)) == trim(line));
            lemma_settle_push(flushed, Line::Comment { text: line, source });
        },
        LineKind::Blank => {
            let nothing = Seq::<char>::empty();
            assert(strip_cr(nothing) == nothing);
            assert(trim(nothing) =~= nothing);
            lemma_settle_push(flushed, Line::Empty { source });
        },
        LineKind::Malformed => {},
        LineKind::Directive { key, value } => {
            lemma_directive(line);
            let nothing = Seq::<char>::empty();
            match keyword_of(key) {
                Keyword::Host => {
                    let body = host_word() + seq![' '] + value;
                    lemma_classify_pair(nothing, host_word(), value);
                    assert(nothing + host_word() + seq![' '] + value =~= body);
                    assert(body.last() == value.last());
                    assert(keyword_of(host_word()) == Keyword::Host);
                },
                Keyword::Include => {
                    let body = include_word() + seq![' '] + value;
                    lemma_classify_pair(nothing, include_word(), value);
                    assert(nothing + include_word() + seq![' '] + value =~= body);
                    assert(body.last() == value.last());
                    assert(keyword_of(include_word()) == Keyword::Include);
                    lemma_settle_push(flushed, Line::Include { path: value, source });
                },
                Keyword::Other => match open {
                    Some(h) => {
                        let body = indent() + key + seq![' '] + value;
                        lemma_classify_pair(indent(), key, value);
                        assert(body.last() == value.last());
                    },
                    None => {
                        let body = key + seq![' '] + value;
                        lemma_classify_pair(nothing, key, value);
                        assert(nothing + key + seq![' '] + value =~= body);
                        assert(body.last() == value.last());
                        lemma_settle_push(out, Line::GlobalOption { key, value, source });
                    },
                },
            }
        },
    }
}

/// What physical lines do is what their written forms do, up to the
/// carriage return at the end of a comment.
proof fn lemma_feed_all_written(
    out: Seq<Line>,
    open: Option<Host>,
    lines: Seq<Seq<char>>,
    source: Seq<char>,
)
    ensures
        ({
            let end = feed_all(out, open, lines, source);
            feed_all(settle_all(out), open, written_lines(lines, open is Some), source) == (
                settle_all(end.0),
                end.1,
            )
        }),
    decreases lines.len(),
{
    if lines.len() > 0 {
        let f = feed(out, open, lines[0], source);
        lemma_feed_written(out, open, lines[0], source);
        lemma_render_feed(out, open, lines[0], source);
        lemma_feed_all_written(f.out, f.open, lines.drop_first(), source);
        let rest = written_lines(lines.drop_first(), f.open is Some);
        match normal_line(lines[0], open is Some) {
            Some(body) => {
                let all = seq![strip_cr(body)] + rest;
                assert(all[0] == strip_cr(body));
                assert(all.drop_first() =~= rest);
            },
            None => {},
        }
    }
}

/// A run over the written form of physical lines does what the run over the
/// lines themselves does, up to the carriage return at the end of a comment,
/// and stops at the same `Include` directive.
pub proof fn lemma_scan_written(
    out: Seq<Line>,
    open: Option<Host>,
    rest: Seq<Seq<char>>,
    source: Seq<char>,
)
    ensures
        ({
            let s = scan(out, open, rest, source);
            scan(settle_all(out), open, written_lines(rest, open is Some), source) == (Scanned {
                out: settle_all(s.out),
                rest: written_lines(s.rest, false),
                wanted: s.wanted,
            })
        }),
    decreases rest.len(),
{
    if rest.len() == 0 {
        lemma_settle_flush(out, open, source);
        assert(written_lines(rest, false) =~= written_lines(rest, open is Some));
    } else {
        let f = feed(out, open, rest[0], source);
        let tail = rest.drop_first();
        lemma_feed_written(out, open, rest[0], source);
        lemma_render_feed(out, open, rest[0], source);
        let more = written_lines(tail, f.open is Some);
        match normal_line(rest[0], open is Some) {
            Some(body) => {
                let all = seq![strip_cr(body)] + more;
                assert(all[0] == strip_cr(body));
                assert(all.drop_first() =~= more);
                if f.wanted is None {
                    lemma_scan_written(f.out, f.open, tail, source);
                }
            },
            None => {
                lemma_scan_written(f.out, f.open, tail, source);
            },
        }
    }
}

/// Writing a parsed file and reading what was written gives the document
/// again, line for line; only a comment that ended in a carriage return has
/// lost that one character.
pub proof fn law_reread(text: Seq<char>, source: Seq<char>)
    ensures
        parse_text(render(parse_text(text, source), source), source) == settle_all(
            parse_text(text, source),
        ),
{
    let lines = split_lines(text);
    lemma_split_lines_one_line(text);
    law_written_line_by_line(lines, source);
    lemma_written_lines(lines, false);
    lemma_feed_all_written(Seq::empty(), None, lines, source);
    assert(settle_all(Seq::<Line>::empty()) =~= Seq::<Line>::empty());
    let end = feed_all(Seq::empty(), None, lines, source);
    lemma_settle_flush(end.0, end.1, source);
}

/// Writing a parsed file and reading what was written gives the same host
/// blocks at the same places, each with its pattern and its options in
/// their order, and every other line but the comments as it was.
pub proof fn law_reread_keeps_hosts(text: Seq<char>, source: Seq<char>)
    ensures
        ({
            let first = parse_text(text, source);
            let second = parse_text(render(first, source), source);
            &&& second.len() == first.len()
            &&& forall|i: int|
                0 <= i < first.len() ==> (#[trigger] first[i] is HostEntry <==> second[i]
                    is HostEntry)
            &&& forall|i: int|
                0 <= i < first.len() && !(#[trigger] first[i] is Comment) ==> second[i] == first[i]
        }),
{
    law_reread(text, source);
}

} // verus!
