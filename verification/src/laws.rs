//! What holds of every document and of every session.

use crate::edit::with_option;
use crate::model::{lemma_with_entry_distinct, paths, Document, Included, Line};
use crate::parser::{feed, feed_all, flush, parse_text, scan, Host};
use crate::render::{indent, render, render_line, render_options, render_pair};
use crate::session::{Answer, Ask, State};
use crate::text::split_lines;
use vstd::prelude::*;

verus! {

/// The text of a file is the text of a first part of the document followed by
/// the text of the rest.
pub proof fn law_render_concat(a: Seq<Line>, b: Seq<Line>, target: Seq<char>)
    ensures
        render(a + b, target) == render(a, target) + render(b, target),
    decreases b.len(),
{
    if b.len() == 0 {
        assert(a + b =~= a);
        assert(render(a, target) + render(b, target) =~= render(a, target));
    } else {
        law_render_concat(a, b.drop_last(), target);
        assert((a + b).drop_last() =~= a + b.drop_last());
        assert((a + b).last() == b.last());
        if b.last().source() == target {
            assert(render(a + b, target) =~= render(a, target) + render(b, target));
        }
    }
}

/// Appending a line changes the text of the file it belongs to by the text of
/// that line, and the text of no other file.
pub proof fn law_append_is_local(lines: Seq<Line>, line: Line, target: Seq<char>)
    ensures
        line.source() == target ==> render(lines.push(line), target) == render(lines, target)
            + render_line(line),
        line.source() != target ==> render(lines.push(line), target) == render(lines, target),
{
    assert(lines.push(line).drop_last() =~= lines);
}

/// Replacing a line of one file by another line of that file leaves the text
/// of every other file as it was.
pub proof fn law_edit_is_local(lines: Seq<Line>, i: int, line: Line, target: Seq<char>)
    requires
        0 <= i < lines.len(),
        lines[i].source() != target,
        line.source() != target,
    ensures
        render(lines.update(i, line), target) == render(lines, target),
{
    let a = lines.take(i);
    let b = lines.skip(i + 1);
    assert(lines =~= a.push(lines[i]) + b);
    assert(lines.update(i, line) =~= a.push(line) + b);
    law_render_concat(a.push(lines[i]), b, target);
    law_render_concat(a.push(line), b, target);
    law_append_is_local(a, lines[i], target);
    law_append_is_local(a, line, target);
}

/// A host block with one more option is written as before, followed by the
/// new option on an indented line of its own.
pub proof fn law_added_option(
    pattern: Seq<char>,
    options: Seq<(Seq<char>, Seq<char>)>,
    source: Seq<char>,
    key: Seq<char>,
    value: Seq<char>,
)
    ensures
        render_line(Line::HostEntry { pattern, options: options.push((key, value)), source })
            == render_line(Line::HostEntry { pattern, options, source }) + indent() + render_pair(
            key,
            value,
        ),
{
    assert(options.push((key, value)).drop_last() =~= options);
    let head = render_line(Line::HostEntry { pattern, options: Seq::empty(), source });
    assert(render_options(Seq::empty()) =~= Seq::<char>::empty());
    assert(render_line(Line::HostEntry { pattern, options: options.push((key, value)), source })
        =~= render_line(Line::HostEntry { pattern, options, source }) + indent() + render_pair(
        key,
        value,
    ));
}

/// An option added to a host block shows in the text of the file of that
/// block, on an indented line of its own right after the block as it was
/// written before, and changes the text of no other file.
pub proof fn law_option_added_in_place(
    lines: Seq<Line>,
    i: int,
    key: Seq<char>,
    value: Seq<char>,
    target: Seq<char>,
)
    requires
        0 <= i < lines.len(),
        lines[i] is HostEntry,
    ensures
        ({
            let after = lines.update(i, with_option(lines[i], key, value));
            if lines[i].source() == target {
                render(after, target) == render(lines.take(i + 1), target) + indent() + render_pair(
                    key,
                    value,
                ) + render(lines.skip(i + 1), target)
            } else {
                render(after, target) == render(lines, target)
            }
        }),
{
    let line = with_option(lines[i], key, value);
    let after = lines.update(i, line);
    if lines[i].source() == target {
        let a = lines.take(i);
        let b = lines.skip(i + 1);
        assert(lines.take(i + 1) =~= a.push(lines[i]));
        assert(after =~= a.push(line) + b);
        law_render_concat(a.push(line), b, target);
        law_append_is_local(a, lines[i], target);
        law_append_is_local(a, line, target);
        law_added_option(
            lines[i]->HostEntry_pattern,
            lines[i]->HostEntry_options,
            lines[i]->HostEntry_source,
            key,
            value,
        );
        assert(render(a.push(line), target) =~= render(a.push(lines[i]), target) + indent()
            + render_pair(key, value));
    } else {
        law_edit_is_local(lines, i, line, target);
    }
}

/// Whether every line belongs to the file `source`.
pub open spec fn all_from(lines: Seq<Line>, source: Seq<char>) -> bool {
    forall|i: int| 0 <= i < lines.len() ==> (#[trigger] lines[i]).source() == source
}

proof fn lemma_feed_all_tags(
    out: Seq<Line>,
    open: Option<Host>,
    lines: Seq<Seq<char>>,
    source: Seq<char>,
)
    requires
        all_from(out, source),
    ensures
        all_from(feed_all(out, open, lines, source).0, source),
        all_from(
            flush(
                feed_all(out, open, lines, source).0,
                feed_all(out, open, lines, source).1,
                source,
            ),
            source,
        ),
    decreases lines.len(),
{
    if lines.len() > 0 {
        let f = feed(out, open, lines[0], source);
        assert(all_from(flush(out, open, source), source));
        assert(all_from(f.out, source));
        lemma_feed_all_tags(f.out, f.open, lines.drop_first(), source);
    }
}

/// Every line of the document of a file is tagged with that file.
pub proof fn law_lines_tagged(text: Seq<char>, source: Seq<char>)
    ensures
        all_from(parse_text(text, source), source),
{
    lemma_feed_all_tags(Seq::empty(), None, split_lines(text), source);
}

/// Going on marks no path, never ends in a request to read, and keeps the
/// files pulled in listed once each.
pub proof fn lemma_resume(s: State)
    ensures
        s.resume().visited == s.visited,
        s.resume().home == s.home,
        !(s.resume().ask is Read),
        s.doc.wf() ==> s.resume().doc.wf(),
    decreases s.stack.len(),
{
    if s.stack.len() > 0 {
        let top = s.stack.last();
        if top.candidates.len() == 0 {
            let sc = scan(s.doc.lines, None, top.rest, top.source);
            if sc.wanted is None {
                let doc = Document { lines: sc.out, ..s.doc };
                let next = State {
                    doc: if top.root {
                        doc
                    } else {
                        doc.record(top.source, top.content)
                    },
                    stack: s.stack.drop_last(),
                    ..s
                };
                if s.doc.wf() && !top.root {
                    lemma_record_wf(doc, top.source, top.content);
                }
                lemma_resume(next);
            }
        }
    }
}

/// Recording a file keeps each path listed once.
pub proof fn lemma_record_wf(doc: Document, path: Seq<char>, content: Seq<char>)
    requires
        doc.wf(),
    ensures
        doc.record(path, content).wf(),
{
    lemma_with_entry_distinct(doc.included, path, Included { content, lines: Seq::empty() });
}

/// A session begins in good order.
pub proof fn law_begin_in_order(
    path: Seq<char>,
    canonical: Option<Seq<char>>,
    content: Seq<char>,
    home: Option<Seq<char>>,
)
    ensures
        State::begin(path, canonical, content, home).in_order(),
{
    let first = match canonical {
        Some(c) => c,
        None => path,
    };
    let s = State {
        doc: Document::empty(),
        visited: seq![first],
        home,
        stack: Seq::empty(),
        ask: Ask::Done,
    }.enter(path, content, true);
    assert(paths(s.doc.included) =~= Seq::empty());
    lemma_resume(s);
}

/// Every reply leaves a session in good order.
pub proof fn law_advance_in_order(s: State, answer: Answer)
    requires
        s.in_order(),
    ensures
        s.advance(answer).in_order(),
{
    match (s.ask, answer) {
        (Ask::Expand { .. }, Answer::Matches { paths }) => {
            lemma_resume(s.with_candidates(paths));
        },
        (Ask::Expand { pattern }, Answer::BadPattern) => {
            lemma_resume(s.with_candidates(seq![pattern]));
        },
        (Ask::Probe { path }, Answer::Probed { is_file, canonical }) => {
            lemma_resume(s);
        },
        (Ask::Read { path }, Answer::Content { text: Some(content) }) => {
            lemma_resume(s.enter(path, content, false));
        },
        (Ask::Read { .. }, Answer::Content { text: None }) => {
            lemma_resume(s);
        },
        _ => {},
    }
}

/// No file is taken up twice. A reply brings on a request to read only when
/// it says of the candidate probed that it is a regular file whose canonical
/// path (the path itself, without one) is not yet marked; that path is then
/// marked. Every other reply leaves the marks as they were.
pub proof fn law_read_only_fresh(s: State, answer: Answer)
    ensures
        ({
            let t = s.advance(answer);
            let fresh = s.ask matches Ask::Probe { path } && answer matches Answer::Probed {
                is_file,
                canonical,
            } && is_file && !s.visited.contains(
                match canonical {
                    Some(c) => c,
                    None => path,
                },
            );
            if fresh {
                &&& t.ask == (Ask::Read { path: s.ask->Probe_path })
                &&& t.visited == s.visited.push(
                    match answer->Probed_canonical {
                        Some(c) => c,
                        None => s.ask->Probe_path,
                    },
                )
                &&& t.doc == s.doc
                &&& t.stack == s.stack
            } else {
                &&& t.visited == s.visited
                &&& t.ask is Read ==> t == s
            }
        }),
{
    match (s.ask, answer) {
        (Ask::Expand { .. }, Answer::Matches { paths }) => {
            lemma_resume(s.with_candidates(paths));
        },
        (Ask::Expand { pattern }, Answer::BadPattern) => {
            lemma_resume(s.with_candidates(seq![pattern]));
        },
        (Ask::Probe { path }, Answer::Probed { is_file, canonical }) => {
            lemma_resume(s);
        },
        (Ask::Read { path }, Answer::Content { text: Some(content) }) => {
            lemma_resume(s.enter(path, content, false));
        },
        (Ask::Read { .. }, Answer::Content { text: None }) => {
            lemma_resume(s);
        },
        _ => {},
    }
}

} // verus!
