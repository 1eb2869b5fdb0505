//! What the document of a session holds of each file: the lines of a file
//! stay together as the text of that file, however the files pulled in stand
//! between them.

use crate::model::{lemma_position, paths, position, Document, Included, Line};
use crate::parser::{parse_text, scan};
use crate::render::{render, save_plan};
use crate::roundtrip::{
    law_reread, law_written_line_by_line, lemma_normal_text_concat, lemma_render_scan, normal_text,
    open_after, settle_all,
};
use crate::session::{Ask, Reading, State};
use crate::text::split_lines;
use crate::world::World;
use vstd::prelude::*;

verus! {

/// The paths of the files in the course of being parsed.
pub open spec fn sources(stack: Seq<Reading>) -> Seq<Seq<char>> {
    stack.map_values(|r: Reading| r.source)
}

/// Whether a file is in the course of being parsed or was pulled in.
pub open spec fn known(s: State, path: Seq<char>) -> bool {
    sources(s.stack).contains(path) || paths(s.doc.included).contains(path)
}

/// A file in the course of being parsed has a first part of its physical
/// lines behind it; the text of the file in the document is what is written
/// for those lines, and no host block is open after them.
pub open spec fn reading_kept(lines: Seq<Line>, r: Reading) -> bool {
    let all = split_lines(r.content);
    let k = all.len() - r.rest.len();
    &&& 0 <= k
    &&& r.rest == all.skip(k)
    &&& render(lines, r.source) == normal_text(all.take(k), false)
    &&& !open_after(all.take(k), false)
}

/// The text in the document of a file that was pulled in is what is written
/// for the physical lines of the text that was read.
pub open spec fn entry_kept(lines: Seq<Line>, e: (Seq<char>, Included)) -> bool {
    render(lines, e.0) == normal_text(split_lines(e.1.content), false)
}

/// What holds of a session on the root file `root` with the text `content`
/// while it is driven against the file system `w`.
pub open spec fn kept(w: World, root: Seq<char>, content: Seq<char>, s: State) -> bool {
    &&& forall|i: int| 0 <= i < s.stack.len() ==> (#[trigger] s.stack[i]).root == (i == 0)
    &&& s.stack.len() > 0 ==> s.stack[0].source == root && s.stack[0].content == content
    &&& forall|i: int| 0 <= i < s.stack.len() ==> reading_kept(s.doc.lines, #[trigger] s.stack[i])
    &&& forall|i: int|
        1 <= i < s.stack.len() ==> (w.text)((#[trigger] s.stack[i]).source) == Some(
            s.stack[i].content,
        )
    &&& forall|j: int|
        0 <= j < s.doc.included.len() ==> entry_kept(s.doc.lines, #[trigger] s.doc.included[j])
    &&& forall|j: int|
        0 <= j < s.doc.included.len() ==> (w.text)((#[trigger] s.doc.included[j]).0) == Some(
            s.doc.included[j].1.content,
        )
    &&& forall|i: int, j: int|
        0 <= i < j < s.stack.len() ==> (#[trigger] s.stack[i]).source != (
        #[trigger] s.stack[j]).source
    &&& forall|i: int, j: int|
        0 <= i < j < s.doc.included.len() ==> (#[trigger] s.doc.included[i]).0 != (
        #[trigger] s.doc.included[j]).0
    &&& forall|i: int, j: int|
        0 <= i < s.stack.len() && 0 <= j < s.doc.included.len() ==> (#[trigger] s.stack[i]).source
            != (#[trigger] s.doc.included[j]).0
    &&& forall|j: int| 0 <= j < s.doc.included.len() ==> (#[trigger] s.doc.included[j]).0 != root
    &&& s.visited.contains(w.name(root))
    &&& forall|i: int|
        0 <= i < s.stack.len() ==> s.visited.contains(w.name((#[trigger] s.stack[i]).source))
    &&& forall|j: int|
        0 <= j < s.doc.included.len() ==> s.visited.contains(
            w.name((#[trigger] s.doc.included[j]).0),
        )
    &&& forall|q: Seq<char>|
        q != root && !known(s, q) ==> #[trigger] render(s.doc.lines, q) == Seq::<char>::empty()
    &&& s.stack.len() == 0 ==> render(s.doc.lines, root) == normal_text(
        split_lines(content),
        false,
    )
}

/// What holds of the request that is outstanding.
pub open spec fn asked_kept(w: World, root: Seq<char>, s: State) -> bool {
    match s.ask {
        Ask::Expand { .. } => s.stack.len() > 0,
        Ask::Probe { .. } => s.stack.len() > 0,
        Ask::Read { path } => {
            &&& s.stack.len() > 0
            &&& path != root
            &&& !known(s, path)
            &&& s.visited.contains(w.name(path))
        },
        Ask::Done => s.stack.len() == 0,
    }
}

proof fn lemma_known_sources(stack: Seq<Reading>, path: Seq<char>)
    ensures
        sources(stack).contains(path) <==> exists|i: int|
            0 <= i < stack.len() && (#[trigger] stack[i]).source == path,
{
    if sources(stack).contains(path) {
        let i = choose|i: int| 0 <= i < sources(stack).len() && sources(stack)[i] == path;
        assert(stack[i].source == path);
    }
    if exists|i: int| 0 <= i < stack.len() && (#[trigger] stack[i]).source == path {
        let i = choose|i: int| 0 <= i < stack.len() && (#[trigger] stack[i]).source == path;
        assert(sources(stack)[i] == path);
    }
}

proof fn lemma_known_paths(table: Seq<(Seq<char>, Included)>, path: Seq<char>)
    ensures
        paths(table).contains(path) <==> exists|j: int|
            0 <= j < table.len() && (#[trigger] table[j]).0 == path,
{
    if paths(table).contains(path) {
        let j = choose|j: int| 0 <= j < paths(table).len() && paths(table)[j] == path;
        assert(table[j].0 == path);
    }
    if exists|j: int| 0 <= j < table.len() && (#[trigger] table[j]).0 == path {
        let j = choose|j: int| 0 <= j < table.len() && (#[trigger] table[j]).0 == path;
        assert(paths(table)[j] == path);
    }
}

/// New candidates for the file being fed change nothing of what is kept.
proof fn lemma_candidates_kept(
    w: World,
    root: Seq<char>,
    content: Seq<char>,
    s: State,
    found: Seq<Seq<char>>,
)
    requires
        kept(w, root, content, s),
    ensures
        kept(w, root, content, s.with_candidates(found)),
{
    let t = s.with_candidates(found);
    if s.stack.len() > 0 {
        assert forall|i: int| 0 <= i < t.stack.len() implies (#[trigger] t.stack[i]).root == (i
            == 0) && reading_kept(t.doc.lines, t.stack[i]) && t.stack[i].source
            == s.stack[i].source && t.stack[i].content == s.stack[i].content by {
            assert(reading_kept(s.doc.lines, s.stack[i]));
        }
        assert(sources(t.stack) =~= sources(s.stack));
        assert forall|q: Seq<char>| q != root && !known(t, q) implies #[trigger] render(
            t.doc.lines,
            q,
        ) == Seq::<char>::empty() by {
            assert(!known(s, q));
        }
    }
}

/// A file that is not yet known, taken up for reading, keeps what is kept.
proof fn lemma_enter_kept(
    w: World,
    root: Seq<char>,
    content: Seq<char>,
    s: State,
    path: Seq<char>,
    text: Seq<char>,
)
    requires
        kept(w, root, content, s),
        s.stack.len() > 0,
        path != root,
        !known(s, path),
        s.visited.contains(w.name(path)),
        (w.text)(path) == Some(text),
    ensures
        kept(w, root, content, s.enter(path, text, false)),
{
    let t = s.enter(path, text, false);
    let n = s.stack.len() as int;
    let all = split_lines(text);
    lemma_known_sources(s.stack, path);
    lemma_known_paths(s.doc.included, path);
    assert(all.skip(0) =~= all);
    assert(all.take(0) =~= Seq::<Seq<char>>::empty());
    assert(reading_kept(t.doc.lines, t.stack[n]));
    assert forall|i: int| 0 <= i < t.stack.len() implies (#[trigger] t.stack[i]).root == (i == 0)
        && reading_kept(t.doc.lines, t.stack[i]) by {
        if i < n {
            assert(t.stack[i] == s.stack[i]);
        }
    }
    assert forall|i: int| 1 <= i < t.stack.len() implies (w.text)((#[trigger] t.stack[i]).source)
        == Some(t.stack[i].content) by {
        if i < n {
            assert(t.stack[i] == s.stack[i]);
        }
    }
    assert forall|i: int, j: int| 0 <= i < j < t.stack.len() implies (#[trigger] t.stack[i]).source
        != (#[trigger] t.stack[j]).source by {
        assert(t.stack[i] == s.stack[i]);
        if j < n {
            assert(t.stack[j] == s.stack[j]);
        }
    }
    assert forall|i: int, j: int|
        0 <= i < t.stack.len() && 0 <= j < t.doc.included.len() implies (
    #[trigger] t.stack[i]).source != (#[trigger] t.doc.included[j]).0 by {
        if i < n {
            assert(t.stack[i] == s.stack[i]);
        }
    }
    assert forall|i: int| 0 <= i < t.stack.len() implies t.visited.contains(
        w.name((#[trigger] t.stack[i]).source),
    ) by {
        if i < n {
            assert(t.stack[i] == s.stack[i]);
        }
    }
    assert forall|q: Seq<char>| q != root && !known(t, q) implies #[trigger] render(
        t.doc.lines,
        q,
    ) == Seq::<char>::empty() by {
        lemma_known_sources(s.stack, q);
        lemma_known_sources(t.stack, q);
        if known(s, q) {
            if sources(s.stack).contains(q) {
                let i = choose|i: int|
                    0 <= i < s.stack.len() && (#[trigger] s.stack[i]).source == q;
                assert(t.stack[i] == s.stack[i]);
            }
            assert(false);
        }
    }
    assert(t.stack[0] == s.stack[0]);
}

/// The state in which the first candidate of the file being fed is probed.
pub open spec fn probing(s: State) -> State {
    let top = s.stack.last();
    State {
        stack: s.stack.drop_last().push(
            Reading { candidates: top.candidates.drop_first(), ..top },
        ),
        ask: Ask::Probe { path: top.candidates[0] },
        ..s
    }
}

proof fn lemma_probing_kept(w: World, root: Seq<char>, content: Seq<char>, s: State)
    requires
        kept(w, root, content, s),
        s.stack.len() > 0,
    ensures
        kept(w, root, content, probing(s)),
{
    let t = probing(s);
    assert forall|i: int| 0 <= i < t.stack.len() implies (#[trigger] t.stack[i]).root == (i == 0)
        && reading_kept(t.doc.lines, t.stack[i]) && t.stack[i].source == s.stack[i].source
        && t.stack[i].content == s.stack[i].content by {
        assert(reading_kept(s.doc.lines, s.stack[i]));
    }
    assert(sources(t.stack) =~= sources(s.stack));
    assert forall|q: Seq<char>| q != root && !known(t, q) implies #[trigger] render(
        t.doc.lines,
        q,
    ) == Seq::<char>::empty() by {
        assert(!known(s, q));
    }
}

/// The state after the lines of the file being fed were fed up to an
/// `Include` directive, before the pattern of that directive is asked for.
pub open spec fn scanned(s: State) -> State {
    let top = s.stack.last();
    let sc = scan(s.doc.lines, None, top.rest, top.source);
    State {
        doc: Document { lines: sc.out, ..s.doc },
        stack: s.stack.drop_last().push(Reading { rest: sc.rest, ..top }),
        ..s
    }
}

/// A path that is not `path`.
spec fn unlike(path: Seq<char>) -> Seq<char> {
    path.push('/')
}

/// What a run over the lines of the file being fed does to the text of that
/// file, whether it stops at an `Include` directive or at the end.
proof fn lemma_scan_top(s: State)
    requires
        s.stack.len() > 0,
        reading_kept(s.doc.lines, s.stack.last()),
    ensures
        ({
            let top = s.stack.last();
            let sc = scan(s.doc.lines, None, top.rest, top.source);
            let all = split_lines(top.content);
            let k = all.len() - sc.rest.len();
            &&& 0 <= k <= all.len()
            &&& sc.rest == all.skip(k)
            &&& sc.wanted is None ==> k == all.len()
            &&& render(sc.out, top.source) == normal_text(all.take(k), false)
            &&& sc.wanted is Some ==> !open_after(all.take(k), false)
        }),
{
    let top = s.stack.last();
    let sc = scan(s.doc.lines, None, top.rest, top.source);
    let all = split_lines(top.content);
    let k0 = all.len() - top.rest.len();
    let c = top.rest.len() - sc.rest.len();
    assert(unlike(top.source).len() != top.source.len());
    lemma_render_scan(s.doc.lines, None, top.rest, top.source, unlike(top.source));
    let read = top.rest.take(c);
    assert(all.take(k0) + read =~= all.take(k0 + c));
    assert(top.rest.skip(c) =~= all.skip(k0 + c));
    lemma_normal_text_concat(all.take(k0), read, false);
    assert(render(s.doc.lines, top.source) + Seq::<char>::empty() + normal_text(read, false)
        =~= normal_text(all.take(k0), false) + normal_text(read, false));
    if sc.wanted is None {
        assert(all.take(all.len() as int) =~= all);
    }
}

proof fn lemma_scanned_kept(w: World, root: Seq<char>, content: Seq<char>, s: State)
    requires
        kept(w, root, content, s),
        s.stack.len() > 0,
        scan(s.doc.lines, None, s.stack.last().rest, s.stack.last().source).wanted is Some,
    ensures
        kept(w, root, content, scanned(s)),
{
    let t = scanned(s);
    let n = s.stack.len() as int;
    let top = s.stack.last();
    let sc = scan(s.doc.lines, None, top.rest, top.source);
    assert(reading_kept(s.doc.lines, s.stack[n - 1]));
    lemma_scan_top(s);
    assert forall|i: int| 0 <= i < t.stack.len() implies (#[trigger] t.stack[i]).root == (i == 0)
        && reading_kept(t.doc.lines, t.stack[i]) && t.stack[i].source == s.stack[i].source
        && t.stack[i].content == s.stack[i].content by {
        assert(reading_kept(s.doc.lines, s.stack[i]));
        if i < n - 1 {
            assert(t.stack[i] == s.stack[i]);
            assert(s.stack[i].source != s.stack[n - 1].source);
            lemma_render_scan(s.doc.lines, None, top.rest, top.source, s.stack[i].source);
        }
    }
    assert(sources(t.stack) =~= sources(s.stack));
    assert forall|j: int| 0 <= j < t.doc.included.len() implies entry_kept(
        t.doc.lines,
        #[trigger] t.doc.included[j],
    ) by {
        assert(entry_kept(s.doc.lines, s.doc.included[j]));
        assert(s.stack[n - 1].source != s.doc.included[j].0);
        lemma_render_scan(s.doc.lines, None, top.rest, top.source, s.doc.included[j].0);
    }
    assert forall|q: Seq<char>| q != root && !known(t, q) implies #[trigger] render(
        t.doc.lines,
        q,
    ) == Seq::<char>::empty() by {
        assert(!known(s, q));
        lemma_known_sources(s.stack, q);
        assert(s.stack[n - 1].source != q);
        lemma_render_scan(s.doc.lines, None, top.rest, top.source, q);
        assert(render(s.doc.lines, q) == Seq::<char>::empty());
    }
}

/// The state after the lines of the file being fed were fed to their end and
/// the file was recorded, before the file that named it goes on.
pub open spec fn finished(s: State) -> State {
    let top = s.stack.last();
    let sc = scan(s.doc.lines, None, top.rest, top.source);
    let doc = Document { lines: sc.out, ..s.doc };
    State {
        doc: if top.root {
            doc
        } else {
            doc.record(top.source, top.content)
        },
        stack: s.stack.drop_last(),
        ..s
    }
}

proof fn lemma_finished_kept(w: World, root: Seq<char>, content: Seq<char>, s: State)
    requires
        kept(w, root, content, s),
        s.stack.len() > 0,
        scan(s.doc.lines, None, s.stack.last().rest, s.stack.last().source).wanted is None,
    ensures
        kept(w, root, content, finished(s)),
{
    let t = finished(s);
    let n = s.stack.len() as int;
    let m = s.doc.included.len() as int;
    let top = s.stack.last();
    let sc = scan(s.doc.lines, None, top.rest, top.source);
    assert(top == s.stack[n - 1]);
    assert(reading_kept(s.doc.lines, s.stack[n - 1]));
    lemma_scan_top(s);
    assert(split_lines(top.content).take(split_lines(top.content).len() as int) =~= split_lines(
        top.content,
    ));
    assert(render(sc.out, top.source) == normal_text(split_lines(top.content), false));
    lemma_position(s.doc.included, top.source);
    if !top.root {
        assert(n - 1 != 0);
        if position(s.doc.included, top.source) < m {
            assert(s.stack[n - 1].source != s.doc.included[position(
                s.doc.included,
                top.source,
            )].0);
        }
        assert(t.doc.included == s.doc.included.push(
            (top.source, Included { content: top.content, lines: Seq::empty() }),
        ));
        assert(s.stack[0].source != s.stack[n - 1].source);
    } else {
        assert(n == 1);
        assert(t.doc.included == s.doc.included);
    }
    assert forall|i: int| 0 <= i < t.stack.len() implies (#[trigger] t.stack[i]).root == (i == 0)
        && reading_kept(t.doc.lines, t.stack[i]) && t.stack[i] == s.stack[i] by {
        assert(reading_kept(s.doc.lines, s.stack[i]));
        assert(s.stack[i].source != s.stack[n - 1].source);
        lemma_render_scan(s.doc.lines, None, top.rest, top.source, s.stack[i].source);
    }
    assert forall|j: int| 0 <= j < t.doc.included.len() implies entry_kept(
        t.doc.lines,
        #[trigger] t.doc.included[j],
    ) && (w.text)(t.doc.included[j].0) == Some(t.doc.included[j].1.content)
        && t.doc.included[j].0 != root && t.visited.contains(w.name(t.doc.included[j].0)) by {
        if j < m {
            assert(t.doc.included[j] == s.doc.included[j]);
            assert(entry_kept(s.doc.lines, s.doc.included[j]));
            assert(s.stack[n - 1].source != s.doc.included[j].0);
            lemma_render_scan(s.doc.lines, None, top.rest, top.source, s.doc.included[j].0);
        } else {
            assert(t.doc.included[j].0 == s.stack[n - 1].source);
        }
    }
    assert forall|i: int, j: int| 0 <= i < j < t.doc.included.len() implies (
    #[trigger] t.doc.included[i]).0 != (#[trigger] t.doc.included[j]).0 by {
        assert(t.doc.included[i] == s.doc.included[i]);
        if j < m {
            assert(t.doc.included[j] == s.doc.included[j]);
        } else {
            assert(s.stack[n - 1].source != s.doc.included[i].0);
        }
    }
    assert forall|i: int, j: int|
        0 <= i < t.stack.len() && 0 <= j < t.doc.included.len() implies (
    #[trigger] t.stack[i]).source != (#[trigger] t.doc.included[j]).0 by {
        assert(t.stack[i] == s.stack[i]);
        if j < m {
            assert(t.doc.included[j] == s.doc.included[j]);
        } else {
            assert(s.stack[i].source != s.stack[n - 1].source);
        }
    }
    assert forall|q: Seq<char>| q != root && !known(t, q) implies #[trigger] render(
        t.doc.lines,
        q,
    ) == Seq::<char>::empty() by {
        lemma_known_sources(s.stack, q);
        lemma_known_sources(t.stack, q);
        lemma_known_paths(s.doc.included, q);
        lemma_known_paths(t.doc.included, q);
        if q == top.source {
            if top.root {
                assert(false);
            } else {
                assert(t.doc.included[m].0 == q);
                assert(false);
            }
        }
        if known(s, q) {
            if sources(s.stack).contains(q) {
                let i = choose|i: int|
                    0 <= i < s.stack.len() && (#[trigger] s.stack[i]).source == q;
                assert(i < n - 1);
                assert(t.stack[i] == s.stack[i]);
            } else {
                let j = choose|j: int|
                    0 <= j < s.doc.included.len() && (#[trigger] s.doc.included[j]).0 == q;
                assert(t.doc.included[j] == s.doc.included[j]);
            }
            assert(false);
        }
        lemma_render_scan(s.doc.lines, None, top.rest, top.source, q);
    }
}

/// Going on keeps what is kept, and ends in a request of which the same
/// holds.
proof fn lemma_resume_kept(w: World, root: Seq<char>, content: Seq<char>, s: State)
    requires
        kept(w, root, content, s),
    ensures
        kept(w, root, content, s.resume()),
        asked_kept(w, root, s.resume()),
    decreases s.stack.len(),
{
    if s.stack.len() > 0 {
        let top = s.stack.last();
        if top.candidates.len() > 0 {
            lemma_probing_kept(w, root, content, s);
            assert(s.resume() == probing(s));
        } else {
            let sc = scan(s.doc.lines, None, top.rest, top.source);
            if sc.wanted is Some {
                lemma_scanned_kept(w, root, content, s);
                let t = scanned(s);
                assert(s.resume().doc == t.doc);
                assert(s.resume().stack == t.stack);
                assert(s.resume().visited == t.visited);
            } else {
                lemma_finished_kept(w, root, content, s);
                lemma_resume_kept(w, root, content, finished(s));
                assert(s.resume() == finished(s).resume());
            }
        }
    }
}

/// Every reply of the file system keeps what is kept.
proof fn lemma_advance_kept(w: World, root: Seq<char>, content: Seq<char>, s: State)
    requires
        kept(w, root, content, s),
        asked_kept(w, root, s),
    ensures
        kept(w, root, content, s.advance(w.reply(s.ask))),
        asked_kept(w, root, s.advance(w.reply(s.ask))),
{
    match s.ask {
        Ask::Expand { pattern } => {
            let found = match (w.expand)(pattern) {
                Some(paths) => paths,
                None => seq![pattern],
            };
            lemma_candidates_kept(w, root, content, s, found);
            lemma_resume_kept(w, root, content, s.with_candidates(found));
        },
        Ask::Probe { path } => {
            let c = w.name(path);
            if (w.is_file)(path) && !s.visited.contains(c) {
                let t = s.advance(w.reply(s.ask));
                assert(t.visited == s.visited.push(c));
                assert forall|x: Seq<char>| s.visited.contains(x) implies t.visited.contains(
                    x,
                ) by {
                    let i = choose|i: int| 0 <= i < s.visited.len() && s.visited[i] == x;
                    assert(t.visited[i] == x);
                }
                assert(t.visited[s.visited.len() as int] == c);
                lemma_known_sources(s.stack, path);
                lemma_known_paths(s.doc.included, path);
                assert forall|q: Seq<char>| q != root && !known(t, q) implies #[trigger] render(
                    t.doc.lines,
                    q,
                ) == Seq::<char>::empty() by {
                    assert(!known(s, q));
                }
            } else {
                lemma_resume_kept(w, root, content, s);
            }
        },
        Ask::Read { path } => {
            match (w.text)(path) {
                Some(text) => {
                    lemma_enter_kept(w, root, content, s, path, text);
                    lemma_resume_kept(w, root, content, s.enter(path, text, false));
                },
                None => {
                    lemma_resume_kept(w, root, content, s);
                },
            }
        },
        Ask::Done => {},
    }
}

/// A session begins with what is kept.
proof fn lemma_begin_kept(w: World, root: Seq<char>, content: Seq<char>, home: Option<Seq<char>>)
    ensures
        kept(w, root, content, State::begin(root, (w.canonical)(root), content, home)),
        asked_kept(w, root, State::begin(root, (w.canonical)(root), content, home)),
{
    let s = State {
        doc: Document::empty(),
        visited: seq![w.name(root)],
        home,
        stack: Seq::empty(),
        ask: Ask::Done,
    }.enter(root, content, true);
    let all = split_lines(content);
    assert(all.skip(0) =~= all);
    assert(all.take(0) =~= Seq::<Seq<char>>::empty());
    assert(reading_kept(s.doc.lines, s.stack[0]));
    assert(s.visited[0] == w.name(root));
    assert forall|q: Seq<char>| q != root && !known(s, q) implies #[trigger] render(
        s.doc.lines,
        q,
    ) == Seq::<char>::empty() by {}
    lemma_resume_kept(w, root, content, s);
}

proof fn lemma_run_kept(w: World, root: Seq<char>, content: Seq<char>, s: State, steps: nat)
    requires
        kept(w, root, content, s),
        asked_kept(w, root, s),
    ensures
        kept(w, root, content, w.run(s, steps)),
        asked_kept(w, root, w.run(s, steps)),
    decreases steps,
{
    if steps > 0 && !(s.ask is Done) {
        lemma_advance_kept(w, root, content, s);
        lemma_run_kept(w, root, content, s.advance(w.reply(s.ask)), (steps - 1) as nat);
    }
}

/// What the document of a session that has come to its end holds of each
/// file, whatever the file system was like.
///
/// The text of the root file, and of every file that was pulled in, is what
/// is written for the physical lines of the text that was read from it: the
/// lines of the other files that stand between its own do not show in it. A
/// file that was pulled in is listed once, with the text that the file
/// system gave for it, and the root file is not listed. No other file has
/// any text in the document.
pub proof fn law_files_kept(
    w: World,
    root: Seq<char>,
    content: Seq<char>,
    home: Option<Seq<char>>,
    steps: nat,
)
    ensures
        ({
            let end = w.run(State::begin(root, (w.canonical)(root), content, home), steps);
            end.ask is Done ==> {
                &&& render(end.doc.lines, root) == normal_text(split_lines(content), false)
                &&& forall|j: int|
                    0 <= j < end.doc.included.len() ==> {
                        let e = #[trigger] end.doc.included[j];
                        &&& e.0 != root
                        &&& (w.text)(e.0) == Some(e.1.content)
                        &&& render(end.doc.lines, e.0) == normal_text(
                            split_lines(e.1.content),
                            false,
                        )
                    }
                &&& end.doc.wf()
                &&& forall|q: Seq<char>|
                    q != root && !paths(end.doc.included).contains(q) ==> #[trigger] render(
                        end.doc.lines,
                        q,
                    ) == Seq::<char>::empty()
            }
        }),
{
    let begin = State::begin(root, (w.canonical)(root), content, home);
    let end = w.run(begin, steps);
    lemma_begin_kept(w, root, content, home);
    lemma_run_kept(w, root, content, begin, steps);
    if end.ask is Done {
        assert forall|j: int| 0 <= j < end.doc.included.len() implies {
            let e = #[trigger] end.doc.included[j];
            &&& e.0 != root
            &&& (w.text)(e.0) == Some(e.1.content)
            &&& render(end.doc.lines, e.0) == normal_text(split_lines(e.1.content), false)
        } by {
            assert(entry_kept(end.doc.lines, end.doc.included[j]));
        }
        assert forall|i: int, j: int|
            0 <= i < paths(end.doc.included).len() && 0 <= j < paths(end.doc.included).len() && i
                != j implies paths(end.doc.included)[i] != paths(end.doc.included)[j] by {
            if i < j {
                assert(end.doc.included[i].0 != end.doc.included[j].0);
            } else {
                assert(end.doc.included[j].0 != end.doc.included[i].0);
            }
        }
        assert forall|q: Seq<char>|
            q != root && !paths(end.doc.included).contains(q) implies #[trigger] render(
            end.doc.lines,
            q,
        ) == Seq::<char>::empty() by {
            assert(sources(end.stack) =~= Seq::<Seq<char>>::empty());
            assert(!known(end, q));
        }
    }
}

/// Saving right after loading: each file is written as it would be had it
/// been parsed standing alone, and reading a file that was written so gives
/// the document of that file again, up to the carriage return at the end of
/// a comment. The main file is written first, then the files that were
/// pulled in, each once.
pub proof fn law_saved_as_read(
    w: World,
    root: Seq<char>,
    content: Seq<char>,
    home: Option<Seq<char>>,
    steps: nat,
)
    ensures
        ({
            let end = w.run(State::begin(root, (w.canonical)(root), content, home), steps);
            let plan = save_plan(end.doc, root);
            end.ask is Done ==> {
                &&& plan.len() == end.doc.included.len() + 1
                &&& plan[0].0 == root
                &&& plan[0].1 == render(parse_text(content, root), root)
                &&& parse_text(plan[0].1, root) == settle_all(parse_text(content, root))
                &&& forall|j: int|
                    0 <= j < end.doc.included.len() ==> {
                        let e = #[trigger] end.doc.included[j];
                        let text = (w.text)(e.0)->Some_0;
                        &&& plan[j + 1].0 == e.0
                        &&& plan[j + 1].1 == render(parse_text(text, e.0), e.0)
                        &&& parse_text(plan[j + 1].1, e.0) == settle_all(parse_text(text, e.0))
                    }
            }
        }),
{
    let end = w.run(State::begin(root, (w.canonical)(root), content, home), steps);
    let plan = save_plan(end.doc, root);
    law_files_kept(w, root, content, home, steps);
    if end.ask is Done {
        law_written_line_by_line(split_lines(content), root);
        law_reread(content, root);
        assert forall|j: int| 0 <= j < end.doc.included.len() implies {
            let e = #[trigger] end.doc.included[j];
            let text = (w.text)(e.0)->Some_0;
            &&& plan[j + 1].0 == e.0
            &&& plan[j + 1].1 == render(parse_text(text, e.0), e.0)
            &&& parse_text(plan[j + 1].1, e.0) == settle_all(parse_text(text, e.0))
        } by {
            let e = end.doc.included[j];
            law_written_line_by_line(split_lines(e.1.content), e.0);
            law_reread(e.1.content, e.0);
        }
    }
}

} // verus!
