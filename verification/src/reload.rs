//! Loading again what was saved: a session on the written form of every file
//! goes the way of the session on the files themselves and ends with the
//! same document.

use crate::model::{lemma_position, position, Document, Included};
use crate::parser::scan;
use crate::roundtrip::{
    lemma_scan_written, lemma_written_lines, normal_text, settle_all, written_lines,
};
use crate::session::{Ask, Reading, State};
use crate::text::{lemma_split_lines_one_line, split_lines};
use crate::world::World;
use vstd::prelude::*;

verus! {

/// The text that is written back for a file that was read as `text`.
pub open spec fn written(text: Seq<char>) -> Seq<char> {
    normal_text(split_lines(text), false)
}

/// The file system once every file that can be read holds its written form.
pub open spec fn written_world(w: World) -> World {
    World {
        text: |path: Seq<char>|
            match (w.text)(path) {
                Some(text) => Some(written(text)),
                None => None,
            },
        ..w
    }
}

/// A file in the course of being parsed from its written form, as far on
/// as `r` is.
pub open spec fn written_reading(r: Reading) -> Reading {
    Reading { content: written(r.content), rest: written_lines(r.rest, false), ..r }
}

/// The record of a file that was pulled in from its written form.
pub open spec fn written_entry(e: (Seq<char>, Included)) -> (Seq<char>, Included) {
    (e.0, Included { content: written(e.1.content), lines: e.1.lines })
}

/// The state of the session on the written forms that goes with the state
/// `s` of the session on the files themselves.
pub open spec fn written_state(s: State) -> State {
    State {
        doc: Document {
            lines: settle_all(s.doc.lines),
            included: s.doc.included.map_values(|e: (Seq<char>, Included)| written_entry(e)),
        },
        stack: s.stack.map_values(|r: Reading| written_reading(r)),
        ..s
    }
}

proof fn lemma_position_written(table: Seq<(Seq<char>, Included)>, path: Seq<char>)
    ensures
        position(table.map_values(|e: (Seq<char>, Included)| written_entry(e)), path) == position(
            table,
            path,
        ),
    decreases table.len(),
{
    let other = table.map_values(|e: (Seq<char>, Included)| written_entry(e));
    if table.len() > 0 {
        assert(other[0].0 == table[0].0);
        if table[0].0 != path {
            assert(other.drop_first() =~= table.drop_first().map_values(
                |e: (Seq<char>, Included)| written_entry(e),
            ));
            lemma_position_written(table.drop_first(), path);
        }
    }
}

/// Going on from states that go together leads to states that go together.
proof fn lemma_resume_written(s: State)
    ensures
        written_state(s).resume() == written_state(s.resume()),
    decreases s.stack.len(),
{
    let t = written_state(s);
    if s.stack.len() == 0 {
        assert(t.resume() =~= written_state(s.resume()));
    } else {
        let top = s.stack.last();
        let below = s.stack.drop_last();
        assert(t.stack.last() == written_reading(top));
        assert(t.stack.drop_last() =~= below.map_values(|r: Reading| written_reading(r)));
        if top.candidates.len() > 0 {
            let next = Reading { candidates: top.candidates.drop_first(), ..top };
            assert(t.stack.drop_last().push(written_reading(next)) =~= below.push(next).map_values(
                |r: Reading| written_reading(r),
            ));
            assert(t.resume() =~= written_state(s.resume()));
        } else {
            let sc = scan(s.doc.lines, None, top.rest, top.source);
            lemma_scan_written(s.doc.lines, None, top.rest, top.source);
            match sc.wanted {
                Some(raw) => {
                    let next = Reading { rest: sc.rest, ..top };
                    assert(t.stack.drop_last().push(written_reading(next)) =~= below.push(
                        next,
                    ).map_values(|r: Reading| written_reading(r)));
                    assert(t.resume() =~= written_state(s.resume()));
                },
                None => {
                    let doc = Document { lines: sc.out, ..s.doc };
                    let after = State {
                        doc: if top.root {
                            doc
                        } else {
                            doc.record(top.source, top.content)
                        },
                        stack: below,
                        ..s
                    };
                    let data = Included { content: top.content, lines: Seq::empty() };
                    let entry = (top.source, data);
                    lemma_position_written(s.doc.included, top.source);
                    lemma_position(s.doc.included, top.source);
                    let table = s.doc.included.map_values(
                        |e: (Seq<char>, Included)| written_entry(e),
                    );
                    let i = position(s.doc.included, top.source);
                    if i < s.doc.included.len() {
                        assert(table.update(i, written_entry(entry)) =~= s.doc.included.update(
                            i,
                            entry,
                        ).map_values(|e: (Seq<char>, Included)| written_entry(e)));
                    } else {
                        assert(table.push(written_entry(entry)) =~= s.doc.included.push(
                            entry,
                        ).map_values(|e: (Seq<char>, Included)| written_entry(e)));
                    }
                    let mirrored = State {
                        doc: if top.root {
                            Document { lines: settle_all(sc.out), ..t.doc }
                        } else {
                            Document { lines: settle_all(sc.out), ..t.doc }.record(
                                top.source,
                                written(top.content),
                            )
                        },
                        stack: t.stack.drop_last(),
                        ..t
                    };
                    assert(mirrored =~= written_state(after));
                    lemma_resume_written(after);
                    assert(t.resume() == mirrored.resume());
                    assert(s.resume() == after.resume());
                },
            }
        }
    }
}

/// A reply of the file system to the session on the files and the reply of
/// the file system with the written forms lead from states that go together
/// to states that go together.
proof fn lemma_advance_written(w: World, s: State)
    ensures
        written_state(s).advance(written_world(w).reply(s.ask)) == written_state(
            s.advance(w.reply(s.ask)),
        ),
{
    let t = written_state(s);
    let w2 = written_world(w);
    match s.ask {
        Ask::Expand { pattern } => {
            let found = match (w.expand)(pattern) {
                Some(paths) => paths,
                None => seq![pattern],
            };
            let next = s.with_candidates(found);
            assert(t.with_candidates(found) =~= written_state(next)) by {
                if s.stack.len() > 0 {
                    assert(t.with_candidates(found).stack =~= next.stack.map_values(
                        |r: Reading| written_reading(r),
                    ));
                }
            }
            lemma_resume_written(next);
        },
        Ask::Probe { path } => {
            let c = w.name(path);
            if (w.is_file)(path) && !s.visited.contains(c) {
                assert(t.advance(w2.reply(s.ask)) =~= written_state(s.advance(w.reply(s.ask))));
            } else {
                lemma_resume_written(s);
            }
        },
        Ask::Read { path } => {
            match (w.text)(path) {
                Some(text) => {
                    let next = s.enter(path, text, false);
                    lemma_split_lines_one_line(text);
                    lemma_written_lines(split_lines(text), false);
                    assert(t.enter(path, written(text), false).stack =~= next.stack.map_values(
                        |r: Reading| written_reading(r),
                    ));
                    assert(t.enter(path, written(text), false) =~= written_state(next));
                    lemma_resume_written(next);
                },
                None => {
                    lemma_resume_written(s);
                },
            }
        },
        Ask::Done => {},
    }
}

proof fn lemma_run_written(w: World, s: State, steps: nat)
    ensures
        written_world(w).run(written_state(s), steps) == written_state(w.run(s, steps)),
    decreases steps,
{
    if steps > 0 && !(s.ask is Done) {
        lemma_advance_written(w, s);
        lemma_run_written(w, s.advance(w.reply(s.ask)), (steps - 1) as nat);
    }
}

/// Loading again what was saved gives the same document. Where every file
/// holds its written form, the session on the written form of the root file
/// makes the same requests as the session on the files themselves, marks the
/// same files, lists the same files as pulled in, each with its written
/// form as its text, and holds the same lines, every host block with its
/// pattern and its options in their order; only a comment that ended in a
/// carriage return has lost that one character.
pub proof fn law_reload(
    w: World,
    root: Seq<char>,
    canonical: Option<Seq<char>>,
    content: Seq<char>,
    home: Option<Seq<char>>,
    steps: nat,
)
    ensures
        written_world(w).run(State::begin(root, canonical, written(content), home), steps)
            == written_state(w.run(State::begin(root, canonical, content, home), steps)),
{
    let first = match canonical {
        Some(c) => c,
        None => root,
    };
    let blank = State {
        doc: Document::empty(),
        visited: seq![first],
        home,
        stack: Seq::empty(),
        ask: Ask::Done,
    };
    let s = blank.enter(root, content, true);
    lemma_split_lines_one_line(content);
    lemma_written_lines(split_lines(content), false);
    assert(blank.enter(root, written(content), true).stack =~= s.stack.map_values(
        |r: Reading| written_reading(r),
    ));
    assert(written_state(s).doc.lines =~= Document::empty().lines);
    assert(written_state(s).doc.included =~= Document::empty().included);
    assert(blank.enter(root, written(content), true) =~= written_state(s));
    lemma_resume_written(s);
    lemma_run_written(w, s.resume(), steps);
}

} // verus!
