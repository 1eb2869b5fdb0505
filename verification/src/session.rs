//! Parsing a root file together with the files that its `Include` directives
//! pull in.
//!
//! The library never touches the file system. A parse is a session that asks
//! for what it needs and is handed the answers: the matches of a pattern,
//! whether a path is a regular file and what its canonical path is, and the
//! text of a file. Whoever drives the session performs each request and calls
//! `advance` with the reply, until the request is `Done`.

use crate::laws::{law_advance_in_order, law_begin_in_order};
use crate::model::{Document, SshConfig};
use crate::parser::{scan, scan_lines};
use crate::resolver::{home_directory, resolve, search_pattern};
use crate::text::{lines_of, split_lines};
use vstd::prelude::*;

verus! {

/// What a session needs next from the file system.
#[derive(Debug, Clone, PartialEq, Eq)]
pub enum Request {
    /// The paths that match the glob pattern `pattern`, in order.
    Expand { pattern: String },
    /// Whether `path` is a regular file, and its canonical path.
    Probe { path: String },
    /// The text of the file at `path`.
    Read { path: String },
    /// Nothing: the document is complete.
    Done,
}

/// What a `Request` stands for.
pub enum Ask {
    Expand { pattern: Seq<char> },
    Probe { path: Seq<char> },
    Read { path: Seq<char> },
    Done,
}

impl View for Request {
    type V = Ask;

    open spec fn view(&self) -> Ask {
        match self {
            Request::Expand { pattern } => Ask::Expand { pattern: pattern@ },
            Request::Probe { path } => Ask::Probe { path: path@ },
            Request::Read { path } => Ask::Read { path: path@ },
            Request::Done => Ask::Done,
        }
    }
}

/// What the file system gave for a request.
#[derive(Debug, Clone, PartialEq, Eq)]
pub enum Reply {
    /// The paths that match the pattern, in order; none where nothing matches.
    Matches { paths: Vec<String> },
    /// The pattern is no valid glob pattern.
    BadPattern,
    /// Whether the path is a regular file; its canonical path where the file
    /// system could give one.
    Probed { is_file: bool, canonical: Option<String> },
    /// The text of the file; `None` where it could not be read.
    Content { text: Option<String> },
}

/// What a `Reply` stands for.
pub enum Answer {
    Matches { paths: Seq<Seq<char>> },
    BadPattern,
    Probed { is_file: bool, canonical: Option<Seq<char>> },
    Content { text: Option<Seq<char>> },
}

impl View for Reply {
    type V = Answer;

    open spec fn view(&self) -> Answer {
        match self {
            Reply::Matches { paths } => Answer::Matches { paths: paths.deep_view() },
            Reply::BadPattern => Answer::BadPattern,
            Reply::Probed { is_file, canonical } => Answer::Probed {
                is_file: *is_file,
                canonical: canonical.deep_view(),
            },
            Reply::Content { text } => Answer::Content { text: text.deep_view() },
        }
    }
}

/// A file in the course of being parsed.
pub struct Reading {
    /// The path of the file, as its lines are tagged.
    pub source: Seq<char>,
    /// The text of the file as it was read.
    pub content: Seq<char>,
    /// Whether this is the root file, which is not listed among the files
    /// pulled in.
    pub root: bool,
    /// The physical lines not yet fed.
    pub rest: Seq<Seq<char>>,
    /// The matches of the last `Include` directive that are not yet taken up.
    pub candidates: Seq<Seq<char>>,
}

/// The state of a session.
pub struct State {
    /// The document so far.
    pub doc: Document,
    /// The canonical paths of the files taken up so far.
    pub visited: Seq<Seq<char>>,
    /// The home directory, if there is one.
    pub home: Option<Seq<char>>,
    /// The files in the course of being parsed: the root file first, the file
    /// whose lines are being fed last.
    pub stack: Seq<Reading>,
    /// The request that is outstanding.
    pub ask: Ask,
}

impl State {
    /// A session in good order: no file is listed twice among the files
    /// pulled in, and no canonical path is marked twice as taken up.
    pub open spec fn in_order(self) -> bool {
        &&& self.doc.wf()
        &&& self.visited.no_duplicates()
    }

    /// The state with `paths` as the candidates of the file being fed.
    pub open spec fn with_candidates(self, paths: Seq<Seq<char>>) -> State {
        if self.stack.len() == 0 {
            self
        } else {
            State {
                stack: self.stack.update(
                    self.stack.len() - 1,
                    Reading { candidates: paths, ..self.stack.last() },
                ),
                ..self
            }
        }
    }

    /// The state with the file at `path`, whose text is `content`, as the
    /// file being fed.
    pub open spec fn enter(self, path: Seq<char>, content: Seq<char>, root: bool) -> State {
        State {
            stack: self.stack.push(
                Reading {
                    source: path,
                    content,
                    root,
                    rest: split_lines(content),
                    candidates: Seq::empty(),
                },
            ),
            ..self
        }
    }

    /// Goes on until something is needed from the file system.
    ///
    /// While the file being fed has candidates, the first of them is probed.
    /// Else its lines are fed up to the next `Include` directive, whose
    /// pattern is then to be expanded. At the end of its lines the file is
    /// done: unless it is the root file it is recorded among the files pulled
    /// in, and the file that named it goes on. When no file is left, the
    /// session is done.
    pub open spec fn resume(self) -> State
        decreases self.stack.len(),
    {
        if self.stack.len() == 0 {
            State { ask: Ask::Done, ..self }
        } else {
            let top = self.stack.last();
            let below = self.stack.drop_last();
            if top.candidates.len() > 0 {
                State {
                    stack: below.push(
                        Reading { candidates: top.candidates.drop_first(), ..top },
                    ),
                    ask: Ask::Probe { path: top.candidates[0] },
                    ..self
                }
            } else {
                let s = scan(self.doc.lines, None, top.rest, top.source);
                let doc = Document { lines: s.out, ..self.doc };
                match s.wanted {
                    Some(raw) => State {
                        doc,
                        stack: below.push(Reading { rest: s.rest, ..top }),
                        ask: Ask::Expand { pattern: search_pattern(raw, top.source, self.home) },
                        ..self
                    },
                    None => State {
                        doc: if top.root {
                            doc
                        } else {
                            doc.record(top.source, top.content)
                        },
                        stack: below,
                        ..self
                    }.resume(),
                }
            }
        }
    }

    /// The state of a session on the root file at `path`, whose text is
    /// `content`, as it waits for its first reply. The root file counts as
    /// taken up, under its canonical path or, without one, under `path`.
    pub open spec fn begin(
        path: Seq<char>,
        canonical: Option<Seq<char>>,
        content: Seq<char>,
        home: Option<Seq<char>>,
    ) -> State {
        State {
            doc: Document::empty(),
            visited: seq![
                match canonical {
                    Some(c) => c,
                    None => path,
                },
            ],
            home,
            stack: Seq::empty(),
            ask: Ask::Done,
        }.enter(path, content, true).resume()
    }

    /// The state after the reply `answer`.
    ///
    /// The matches of a pattern become the candidates of the file being fed;
    /// a pattern that is no valid glob pattern is its own single candidate. A
    /// candidate that is a regular file and whose canonical path (the path
    /// itself, without one) is not yet taken up is marked as taken up, and its
    /// text is asked for; any other candidate is passed over. A file that was
    /// read becomes the file being fed; one that could not be read is passed
    /// over. A reply that does not answer the outstanding request changes
    /// nothing.
    pub open spec fn advance(self, answer: Answer) -> State {
        match (self.ask, answer) {
            (Ask::Expand { .. }, Answer::Matches { paths }) => self.with_candidates(paths).resume(),
            (Ask::Expand { pattern }, Answer::BadPattern) => self.with_candidates(
                seq![pattern],
            ).resume(),
            (Ask::Probe { path }, Answer::Probed { is_file, canonical }) => {
                let c = match canonical {
                    Some(c) => c,
                    None => path,
                };
                if is_file && !self.visited.contains(c) {
                    State { visited: self.visited.push(c), ask: Ask::Read { path }, ..self }
                } else {
                    self.resume()
                }
            },
            (Ask::Read { path }, Answer::Content { text: Some(content) }) => self.enter(
                path,
                content,
                false,
            ).resume(),
            (Ask::Read { .. }, Answer::Content { text: None }) => self.resume(),
            _ => self,
        }
    }
}

/// A file in the course of being parsed.
struct Frame {
    source: String,
    content: String,
    root: bool,
    lines: Vec<String>,
    next: usize,
    candidates: Vec<String>,
    next_candidate: usize,
}

impl View for Frame {
    type V = Reading;

    closed spec fn view(&self) -> Reading {
        Reading {
            source: self.source@,
            content: self.content@,
            root: self.root,
            rest: if self.next <= self.lines.len() {
                self.lines.deep_view().skip(self.next as int)
            } else {
                Seq::empty()
            },
            candidates: if self.next_candidate <= self.candidates.len() {
                self.candidates.deep_view().skip(self.next_candidate as int)
            } else {
                Seq::empty()
            },
        }
    }
}

impl DeepView for Frame {
    type V = Reading;

    closed spec fn deep_view(&self) -> Reading {
        self@
    }
}

/// A parse in progress.
pub struct ParseSession {
    config: SshConfig,
    visited: Vec<String>,
    home: Option<String>,
    stack: Vec<Frame>,
    ask: Request,
}

impl View for ParseSession {
    type V = State;

    closed spec fn view(&self) -> State {
        State {
            doc: self.config@,
            visited: self.visited.deep_view(),
            home: self.home.deep_view(),
            stack: self.stack.deep_view(),
            ask: self.ask@,
        }
    }
}

/// A copy of a request.
fn copy_request(request: &Request) -> (copy: Request)
    ensures
        copy@ == request@,
{
    match request {
        Request::Expand { pattern } => Request::Expand { pattern: pattern.clone() },
        Request::Probe { path } => Request::Probe { path: path.clone() },
        Request::Read { path } => Request::Read { path: path.clone() },
        Request::Done => Request::Done,
    }
}

/// Whether `path` is among `paths`.
fn holds(paths: &Vec<String>, path: &String) -> (found: bool)
    ensures
        found == paths.deep_view().contains(path@),
{
    let mut i: usize = 0;
    while i < paths.len()
        invariant
            i <= paths.len(),
            forall|j: int| 0 <= j < i ==> paths.deep_view()[j] != path@,
        decreases paths.len() - i,
    {
        if paths[i] == *path {
            assert(paths.deep_view()[i as int] == path@);
            return true;
        }
        i += 1;
    }
    false
}

impl ParseSession {
    /// Makes `paths` the candidates of the file being fed.
    fn set_candidates(&mut self, paths: Vec<String>)
        ensures
            final(self)@ == old(self)@.with_candidates(paths.deep_view()),
    {
        let ghost before = self.stack.deep_view();
        match self.stack.pop() {
            Some(top) => {
                let Frame { source, content, root, lines, next, candidates: _, next_candidate: _ } =
                    top;
                let frame = Frame {
                    source,
                    content,
                    root,
                    lines,
                    next,
                    candidates: paths,
                    next_candidate: 0,
                };
                assert(frame@.candidates =~= paths.deep_view());
                self.stack.push(frame);
                assert(self.stack.deep_view() =~= before.update(
                    before.len() - 1,
                    Reading { candidates: paths.deep_view(), ..before.last() },
                ));
            },
            None => {
                assert(self.stack.deep_view() =~= before);
            },
        }
    }

    /// Makes the file at `path`, whose text is `content`, the file being fed.
    fn enter(&mut self, path: String, content: String, root: bool)
        ensures
            final(self)@ == old(self)@.enter(path@, content@, root),
    {
        let ghost before = self.stack.deep_view();
        let lines = lines_of(content.as_str());
        let frame = Frame {
            source: path,
            content,
            root,
            lines,
            next: 0,
            candidates: Vec::new(),
            next_candidate: 0,
        };
        assert(frame@.rest =~= split_lines(content@));
        assert(frame@.candidates =~= Seq::empty());
        self.stack.push(frame);
        assert(self.stack.deep_view() =~= before.push(frame@));
    }

    /// Goes on until something is needed from the file system.
    fn resume(&mut self)
        ensures
            final(self)@ == old(self)@.resume(),
    {
        loop
            invariant
                self@.resume() == old(self)@.resume(),
            decreases self.stack.len(),
        {
            let ghost before = self.stack.deep_view();
            match self.stack.pop() {
                None => {
                    assert(self.stack.deep_view() =~= before);
                    self.ask = Request::Done;
                    return ;
                },
                Some(top) => {
                    assert(self.stack.deep_view() =~= before.drop_last());
                    assert(top@ == before.last());
                    let Frame { source, content, root, lines, next, candidates, next_candidate } =
                        top;
                    if next_candidate < candidates.len() {
                        let path = candidates[next_candidate].clone();
                        let frame = Frame {
                            source,
                            content,
                            root,
                            lines,
                            next,
                            candidates,
                            next_candidate: next_candidate + 1,
                        };
                        assert(top@.candidates[0] == path@);
                        assert(frame@.candidates =~= top@.candidates.drop_first());
                        self.stack.push(frame);
                        assert(self.stack.deep_view() =~= before.drop_last().push(frame@));
                        self.ask = Request::Probe { path };
                        return ;
                    }
                    assert(top@.candidates.len() == 0);
                    let start: usize = if next <= lines.len() {
                        next
                    } else {
                        lines.len()
                    };
                    assert(lines.deep_view().skip(start as int) =~= top@.rest);
                    let after = scan_lines(&mut self.config.lines, &lines, start, source.as_str());
                    match after.1 {
                        Some(raw) => {
                            let pattern = resolve(raw.as_str(), source.as_str(), &self.home);
                            let frame = Frame {
                                source,
                                content,
                                root,
                                lines,
                                next: after.0,
                                candidates,
                                next_candidate,
                            };
                            assert(frame@.candidates =~= top@.candidates);
                            self.stack.push(frame);
                            assert(self.stack.deep_view() =~= before.drop_last().push(frame@));
                            self.ask = Request::Expand { pattern };
                            return ;
                        },
                        None => {
                            if !root {
                                self.config.record_included(source, content);
                            }
                        },
                    }
                },
            }
        }
    }

    /// Begins a session on the root file at `path`, whose text is `content`.
    /// `canonical` is the canonical path of the root file where the file
    /// system gave one, and `home` the home directory where there is one.
    pub fn start(
        path: &str,
        canonical: Option<String>,
        content: &str,
        home: Option<String>,
    ) -> (session: Self)
        ensures
            session@ == State::begin(path@, canonical.deep_view(), content@, home.deep_view()),
            session@.in_order(),
    {
        proof {
            law_begin_in_order(path@, canonical.deep_view(), content@, home.deep_view());
        }
        let mut visited: Vec<String> = Vec::new();
        let first = match canonical {
            Some(c) => c,
            None => path.to_owned(),
        };
        visited.push(first);
        assert(visited.deep_view() =~= seq![first@]);
        let stack: Vec<Frame> = Vec::new();
        assert(stack.deep_view() =~= Seq::empty());
        let mut session = ParseSession {
            config: SshConfig::new(),
            visited,
            home,
            stack,
            ask: Request::Done,
        };
        session.enter(path.to_owned(), content.to_owned(), true);
        session.resume();
        session
    }

    /// Begins a session as `start` does, with the home directory of the user
    /// who runs the program.
    pub fn start_for_user(path: &str, canonical: Option<String>, content: &str) -> (session: Self)
        ensures
            exists|home: Option<Seq<char>>|
                session@ == #[trigger] State::begin(path@, canonical.deep_view(), content@, home),
            session@.in_order(),
    {
        let home = home_directory();
        let session = ParseSession::start(path, canonical, content, home);
        assert(session@ == State::begin(path@, canonical.deep_view(), content@, home.deep_view()));
        session
    }

    /// The request that is outstanding.
    pub fn request(&self) -> (request: Request)
        ensures
            request@ == self@.ask,
    {
        copy_request(&self.ask)
    }

    /// Takes the reply to the outstanding request and returns the next one.
    pub fn advance(&mut self, reply: Reply) -> (request: Request)
        ensures
            final(self)@ == old(self)@.advance(reply@),
            request@ == final(self)@.ask,
            old(self)@.in_order() ==> final(self)@.in_order(),
    {
        proof {
            if self@.in_order() {
                law_advance_in_order(self@, reply@);
            }
        }
        let ask = copy_request(&self.ask);
        match (ask, reply) {
            (Request::Expand { .. }, Reply::Matches { paths }) => {
                self.set_candidates(paths);
                self.resume();
            },
            (Request::Expand { pattern }, Reply::BadPattern) => {
                let mut paths: Vec<String> = Vec::new();
                paths.push(pattern);
                assert(paths.deep_view() =~= seq![pattern@]);
                self.set_candidates(paths);
                self.resume();
            },
            (Request::Probe { path }, Reply::Probed { is_file, canonical }) => {
                let c = match canonical {
                    Some(c) => c,
                    None => path.clone(),
                };
                if is_file && !holds(&self.visited, &c) {
                    let ghost before = self.visited.deep_view();
                    self.visited.push(c);
                    assert(self.visited.deep_view() =~= before.push(c@));
                    self.ask = Request::Read { path };
                } else {
                    self.resume();
                }
            },
            (Request::Read { path }, Reply::Content { text: Some(content) }) => {
                self.enter(path, content, false);
                self.resume();
            },
            (Request::Read { .. }, Reply::Content { text: None }) => {
                self.resume();
            },
            _ => {},
        }
        copy_request(&self.ask)
    }

    /// Whether the document is complete.
    pub fn is_done(&self) -> (done: bool)
        ensures
            done == (self@.ask is Done),
    {
        match self.ask {
            Request::Done => true,
            _ => false,
        }
    }

    /// The document, once it is complete.
    pub fn finish(self) -> (config: Option<SshConfig>)
        ensures
            config is Some <==> self@.ask is Done,
            config matches Some(c) ==> c@ == self@.doc,
    {
        if self.is_done() {
            Some(self.config)
        } else {
            None
        }
    }
}

} // verus!
