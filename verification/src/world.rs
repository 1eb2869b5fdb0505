//! A session driven against a file system.

use crate::model::{Document, Included};
use crate::parser::{feed_all, flush, lemma_scan_feeds, parse_text, scan};
use crate::session::{Answer, Ask, Reading, State};
use crate::text::split_lines;
use vstd::prelude::*;

verus! {

/// A file system as a session sees it.
pub struct World {
    /// The paths that match a glob pattern, in order; `None` for what is no
    /// valid pattern.
    pub expand: spec_fn(Seq<char>) -> Option<Seq<Seq<char>>>,
    /// Whether a path is a regular file.
    pub is_file: spec_fn(Seq<char>) -> bool,
    /// The canonical path of a path, where there is one.
    pub canonical: spec_fn(Seq<char>) -> Option<Seq<char>>,
    /// The text of the file at a path, where it can be read.
    pub text: spec_fn(Seq<char>) -> Option<Seq<char>>,
}

impl World {
    /// What the file system gives for a request.
    pub open spec fn reply(self, ask: Ask) -> Answer {
        match ask {
            Ask::Expand { pattern } => match (self.expand)(pattern) {
                Some(paths) => Answer::Matches { paths },
                None => Answer::BadPattern,
            },
            Ask::Probe { path } => Answer::Probed {
                is_file: (self.is_file)(path),
                canonical: (self.canonical)(path),
            },
            Ask::Read { path } => Answer::Content { text: (self.text)(path) },
            Ask::Done => Answer::BadPattern,
        }
    }

    /// The name under which a file is marked as taken up: its canonical
    /// path, or the path itself where it has none.
    pub open spec fn name(self, path: Seq<char>) -> Seq<char> {
        match (self.canonical)(path) {
            Some(c) => c,
            None => path,
        }
    }

    /// The session after `steps` requests, or as many as it makes, each
    /// answered by the file system.
    pub open spec fn run(self, s: State, steps: nat) -> State
        decreases steps,
    {
        if steps == 0 || s.ask is Done {
            s
        } else {
            self.run(s.advance(self.reply(s.ask)), (steps - 1) as nat)
        }
    }
}

/// A file that stands alone, on a file system where no pattern matches.
proof fn lemma_alone(w: World, s: State, steps: nat)
    requires
        forall|pattern: Seq<char>|
            #[trigger] (w.expand)(pattern) == Some(Seq::<Seq<char>>::empty()),
        s.stack.len() == 1,
        s.stack[0].root,
        s.stack[0].candidates.len() == 0,
        steps >= s.stack[0].rest.len(),
    ensures
        ({
            let top = s.stack[0];
            let end = w.run(s.resume(), steps);
            let all = feed_all(s.doc.lines, None, top.rest, top.source);
            &&& end.ask is Done
            &&& end.doc.lines == flush(all.0, all.1, top.source)
            &&& end.doc.included == s.doc.included
            &&& end.visited == s.visited
        }),
    decreases s.stack[0].rest.len(),
{
    let top = s.stack[0];
    let sc = scan(s.doc.lines, None, top.rest, top.source);
    lemma_scan_feeds(s.doc.lines, None, top.rest, top.source);
    assert(s.stack.drop_last() =~= Seq::<Reading>::empty());
    assert(s.stack.last() == top);
    assert(top.candidates =~= Seq::<Seq<char>>::empty());
    if sc.wanted is Some {
        let r = s.resume();
        let waiting = r.with_candidates(Seq::empty());
        assert(r.stack =~= seq![Reading { rest: sc.rest, ..top }]);
        assert(waiting.stack =~= seq![Reading { rest: sc.rest, ..top }]);
        assert(w.reply(r.ask) == Answer::Matches { paths: Seq::empty() });
        assert(r.advance(w.reply(r.ask)) == waiting.resume());
        lemma_alone(w, waiting, (steps - 1) as nat);
        assert(w.run(r, steps) == w.run(waiting.resume(), (steps - 1) as nat));
    } else {
        let done = State {
            doc: Document { lines: sc.out, ..s.doc },
            stack: s.stack.drop_last(),
            ..s
        };
        assert(done.resume() == State { ask: Ask::Done, ..done });
        assert(s.resume() == done.resume());
    }
}

/// Where no pattern matches anything, a file parses as if it stood alone:
/// each `Include` directive is a line of the document, no file is recorded
/// as pulled in, and no path but that of the file itself is marked.
pub proof fn law_unmatched_includes(
    w: World,
    path: Seq<char>,
    canonical: Option<Seq<char>>,
    content: Seq<char>,
    home: Option<Seq<char>>,
)
    requires
        forall|pattern: Seq<char>|
            #[trigger] (w.expand)(pattern) == Some(Seq::<Seq<char>>::empty()),
    ensures
        ({
            let end = w.run(
                State::begin(path, canonical, content, home),
                split_lines(content).len(),
            );
            &&& end.ask is Done
            &&& end.doc.lines == parse_text(content, path)
            &&& end.doc.included == Seq::<(Seq<char>, Included)>::empty()
            &&& end.visited == seq![
                match canonical {
                    Some(c) => c,
                    None => path,
                },
            ]
        }),
{
    let first = match canonical {
        Some(c) => c,
        None => path,
    };
    let s = State {
        doc: Document::empty(),
        visited: seq![first],
        home,
        stack: Seq::empty(),
        ask: Ask::Done,
    }.enter(path, content, true);
    lemma_alone(w, s, split_lines(content).len());
}

} // verus!
