//! Every session comes to an end where the file system holds finitely many
//! files.

use crate::model::Document;
use crate::parser::{lemma_scan_feeds, scan};
use crate::session::{Ask, Reading, State};
use crate::world::World;
use vstd::prelude::*;

verus! {

/// The physical lines not yet fed, over all files in the course of being
/// parsed.
pub open spec fn lines_left(stack: Seq<Reading>) -> nat
    decreases stack.len(),
{
    if stack.len() == 0 {
        0
    } else {
        lines_left(stack.drop_last()) + stack.last().rest.len()
    }
}

/// The candidates not yet taken up, over all files in the course of being
/// parsed.
pub open spec fn candidates_left(stack: Seq<Reading>) -> nat
    decreases stack.len(),
{
    if stack.len() == 0 {
        0
    } else {
        candidates_left(stack.drop_last()) + stack.last().candidates.len()
    }
}

/// How many of `names` are not yet marked as taken up.
pub open spec fn unmarked(names: Set<Seq<char>>, visited: Seq<Seq<char>>) -> nat {
    names.difference(visited.to_set()).len()
}

/// What is still ahead of a session, most weighty first: the files that may
/// yet be taken up, the lines to feed, the candidates to probe, the files
/// to finish. The request that is outstanding counts as one of its kind.
pub open spec fn weight(names: Set<Seq<char>>, s: State) -> (nat, nat, nat, nat) {
    (
        unmarked(names, s.visited) + if s.ask is Read {
            1nat
        } else {
            0nat
        },
        lines_left(s.stack) + if s.ask is Expand {
            1nat
        } else {
            0nat
        },
        candidates_left(s.stack) + if s.ask is Probe {
            1nat
        } else {
            0nat
        },
        s.stack.len(),
    )
}

/// What is ahead of a session with no request outstanding.
pub open spec fn bare_weight(names: Set<Seq<char>>, s: State) -> (nat, nat, nat, nat) {
    (unmarked(names, s.visited), lines_left(s.stack), candidates_left(s.stack), s.stack.len())
}

/// Whether `a` comes before `b`, the first place where they differ deciding.
pub open spec fn lighter(a: (nat, nat, nat, nat), b: (nat, nat, nat, nat)) -> bool {
    ||| a.0 < b.0
    ||| a.0 == b.0 && a.1 < b.1
    ||| a.0 == b.0 && a.1 == b.1 && a.2 < b.2
    ||| a.0 == b.0 && a.1 == b.1 && a.2 == b.2 && a.3 < b.3
}

proof fn lemma_left_push(below: Seq<Reading>, top: Reading)
    ensures
        lines_left(below.push(top)) == lines_left(below) + top.rest.len(),
        candidates_left(below.push(top)) == candidates_left(below) + top.candidates.len(),
{
    assert(below.push(top).drop_last() =~= below);
}

proof fn lemma_left_split(stack: Seq<Reading>)
    requires
        stack.len() > 0,
    ensures
        lines_left(stack) == lines_left(stack.drop_last()) + stack.last().rest.len(),
        candidates_left(stack) == candidates_left(stack.drop_last())
            + stack.last().candidates.len(),
{
}

/// Going on makes a session no heavier.
proof fn lemma_resume_weight(names: Set<Seq<char>>, s: State)
    ensures
        lighter(weight(names, s.resume()), bare_weight(names, s)) || weight(names, s.resume())
            == bare_weight(names, s),
    decreases s.stack.len(),
{
    if s.stack.len() > 0 {
        let top = s.stack.last();
        let below = s.stack.drop_last();
        lemma_left_split(s.stack);
        if top.candidates.len() > 0 {
            lemma_left_push(below, Reading { candidates: top.candidates.drop_first(), ..top });
        } else {
            let sc = scan(s.doc.lines, None, top.rest, top.source);
            lemma_scan_feeds(s.doc.lines, None, top.rest, top.source);
            match sc.wanted {
                Some(raw) => {
                    lemma_left_push(below, Reading { rest: sc.rest, ..top });
                },
                None => {
                    let doc = Document { lines: sc.out, ..s.doc };
                    let after = State {
                        doc: if top.root {
                            doc
                        } else {
                            doc.record(top.source, top.content)
                        },
                        stack: below,
                        ..s
                    };
                    lemma_resume_weight(names, after);
                },
            }
        }
    }
}

proof fn lemma_left_candidates(s: State, found: Seq<Seq<char>>)
    ensures
        lines_left(s.with_candidates(found).stack) == lines_left(s.stack),
        s.with_candidates(found).stack.len() == s.stack.len(),
{
    if s.stack.len() > 0 {
        let t = s.with_candidates(found);
        assert(t.stack.drop_last() =~= s.stack.drop_last());
    }
}

/// Marking one of the names that was not yet marked leaves one name less
/// unmarked.
proof fn lemma_unmarked_push(names: Set<Seq<char>>, visited: Seq<Seq<char>>, c: Seq<char>)
    requires
        names.finite(),
        names.contains(c),
        !visited.contains(c),
    ensures
        unmarked(names, visited.push(c)) + 1 == unmarked(names, visited),
{
    let before = names.difference(visited.to_set());
    let after = names.difference(visited.push(c).to_set());
    assert forall|x: Seq<char>| after.contains(x) == before.remove(c).contains(x) by {
        if visited.contains(x) {
            let i = choose|i: int| 0 <= i < visited.len() && visited[i] == x;
            assert(visited.push(c)[i] == x);
        }
        if visited.push(c).contains(x) && x != c {
            let i = choose|i: int| 0 <= i < visited.push(c).len() && visited.push(c)[i] == x;
            assert(visited[i] == x);
        }
        assert(visited.push(c)[visited.len() as int] == c);
    }
    assert(after =~= before.remove(c));
    assert(before.contains(c));
}

/// Every reply of the file system makes a session lighter, as long as each
/// regular file goes by one of the names `names`.
proof fn lemma_advance_weight(w: World, names: Set<Seq<char>>, s: State)
    requires
        names.finite(),
        forall|path: Seq<char>| #[trigger] (w.is_file)(path) ==> names.contains(w.name(path)),
        !(s.ask is Done),
    ensures
        lighter(weight(names, s.advance(w.reply(s.ask))), weight(names, s)),
{
    match s.ask {
        Ask::Expand { pattern } => {
            let found = match (w.expand)(pattern) {
                Some(paths) => paths,
                None => seq![pattern],
            };
            lemma_left_candidates(s, found);
            lemma_resume_weight(names, s.with_candidates(found));
        },
        Ask::Probe { path } => {
            let c = w.name(path);
            if (w.is_file)(path) && !s.visited.contains(c) {
                lemma_unmarked_push(names, s.visited, c);
            } else {
                lemma_resume_weight(names, s);
            }
        },
        Ask::Read { path } => {
            match (w.text)(path) {
                Some(text) => {
                    lemma_resume_weight(names, s.enter(path, text, false));
                },
                None => {
                    lemma_resume_weight(names, s);
                },
            }
        },
        Ask::Done => {},
    }
}

/// Cycle safety: on a file system whose regular files go by finitely many
/// names, a session comes to its end after finitely many requests, however
/// the files name each other.
pub proof fn law_session_ends(w: World, names: Set<Seq<char>>, s: State)
    requires
        names.finite(),
        forall|path: Seq<char>| #[trigger] (w.is_file)(path) ==> names.contains(w.name(path)),
    ensures
        exists|steps: nat| (#[trigger] w.run(s, steps)).ask is Done,
    decreases weight(names, s).0, weight(names, s).1, weight(names, s).2, weight(names, s).3,
{
    if s.ask is Done {
        assert(w.run(s, 0).ask is Done);
    } else {
        let t = s.advance(w.reply(s.ask));
        lemma_advance_weight(w, names, s);
        law_session_ends(w, names, t);
        let k = choose|k: nat| (#[trigger] w.run(t, k)).ask is Done;
        assert(w.run(s, k + 1) == w.run(t, k));
    }
}

} // verus!
