//! The document builder: what each physical line of a file adds to the
//! document, and how the options after a `Host` line gather into one entry.

use crate::line::{classify, classify_line, keyword, keyword_of, Keyword, LineClass, LineKind};
use crate::model::{ConfigLine, Line, SshConfig};
use crate::text::{lines_of, split_lines};
use vstd::prelude::*;

verus! {

/// A host block that is still open: further options may join it.
#[derive(Debug, Clone, PartialEq, Eq)]
pub struct OpenHost {
    pub pattern: String,
    pub options: Vec<(String, String)>,
}

/// What an `OpenHost` stands for.
pub struct Host {
    pub pattern: Seq<char>,
    pub options: Seq<(Seq<char>, Seq<char>)>,
}

impl View for OpenHost {
    type V = Host;

    open spec fn view(&self) -> Host {
        Host { pattern: self.pattern@, options: self.options.deep_view() }
    }
}

impl DeepView for OpenHost {
    type V = Host;

    open spec fn deep_view(&self) -> Host {
        self@
    }
}

/// The lines once the open host block, if there is one, is closed and
/// appended as an entry of the file `source`.
pub open spec fn flush(out: Seq<Line>, open: Option<Host>, source: Seq<char>) -> Seq<Line> {
    match open {
        Some(h) => out.push(Line::HostEntry { pattern: h.pattern, options: h.options, source }),
        None => out,
    }
}

/// The state after one physical line: the lines so far, the open host block,
/// and the argument of the line if it is an `Include` directive.
pub struct Fed {
    pub out: Seq<Line>,
    pub open: Option<Host>,
    pub wanted: Option<Seq<char>>,
}

/// What the physical line `line` of the file `source` does to the lines so
/// far and to the open host block.
///
/// A comment or a blank line closes the open block and is appended. A `Host`
/// directive closes it and opens a new one. An `Include` directive closes it
/// and is appended. Any other directive joins the open block, or is appended
/// as a global option where none is open. A key without a value is dropped.
pub open spec fn feed(
    out: Seq<Line>,
    open: Option<Host>,
    line: Seq<char>,
    source: Seq<char>,
) -> Fed {
    match classify(line) {
        LineKind::Comment => Fed {
            out: flush(out, open, source).push(Line::Comment { text: line, source }),
            open: None,
            wanted: None,
        },
        LineKind::Blank => Fed {
            out: flush(out, open, source).push(Line::Empty { source }),
            open: None,
            wanted: None,
        },
        LineKind::Malformed => Fed { out, open, wanted: None },
        LineKind::Directive { key, value } => match keyword_of(key) {
            Keyword::Host => Fed {
                out: flush(out, open, source),
                open: Some(Host { pattern: value, options: Seq::empty() }),
                wanted: None,
            },
            Keyword::Include => Fed {
                out: flush(out, open, source).push(Line::Include { path: value, source }),
                open: None,
                wanted: Some(value),
            },
            Keyword::Other => match open {
                Some(h) => Fed {
                    out,
                    open: Some(Host { pattern: h.pattern, options: h.options.push((key, value)) }),
                    wanted: None,
                },
                None => Fed {
                    out: out.push(Line::GlobalOption { key, value, source }),
                    open: None,
                    wanted: None,
                },
            },
        },
    }
}

/// The lines so far and the open host block after the physical lines `lines`
/// of the file `source`, no `Include` being followed.
pub open spec fn feed_all(
    out: Seq<Line>,
    open: Option<Host>,
    lines: Seq<Seq<char>>,
    source: Seq<char>,
) -> (Seq<Line>, Option<Host>)
    decreases lines.len(),
{
    if lines.len() == 0 {
        (out, open)
    } else {
        let f = feed(out, open, lines[0], source);
        feed_all(f.out, f.open, lines.drop_first(), source)
    }
}

/// The document of a file that stands alone: its physical lines fed in order,
/// and the host block that is open at its end closed.
pub open spec fn parse_lines(lines: Seq<Seq<char>>, source: Seq<char>) -> Seq<Line> {
    let end = feed_all(Seq::empty(), None, lines, source);
    flush(end.0, end.1, source)
}

/// The document of a text that stands alone.
pub open spec fn parse_text(text: Seq<char>, source: Seq<char>) -> Seq<Line> {
    parse_lines(split_lines(text), source)
}

/// What a run over the physical lines of a file comes to: the lines so far,
/// the physical lines not yet read, and the argument of the `Include`
/// directive at which the run stopped. No host block is open then.
pub struct Scanned {
    pub out: Seq<Line>,
    pub rest: Seq<Seq<char>>,
    pub wanted: Option<Seq<char>>,
}

/// Feeds the physical lines `rest` of the file `source` up to and with the
/// first `Include` directive. Where there is none, all lines are fed and the
/// host block that is open at the end is closed.
pub open spec fn scan(
    out: Seq<Line>,
    open: Option<Host>,
    rest: Seq<Seq<char>>,
    source: Seq<char>,
) -> Scanned
    decreases rest.len(),
{
    if rest.len() == 0 {
        Scanned { out: flush(out, open, source), rest, wanted: None }
    } else {
        let f = feed(out, open, rest[0], source);
        if f.wanted is Some {
            Scanned { out: f.out, rest: rest.drop_first(), wanted: f.wanted }
        } else {
            scan(f.out, f.open, rest.drop_first(), source)
        }
    }
}

/// A run that stops at an `Include` directive has fed the lines before it as
/// `feed_all` does; one that reaches the end has built what `feed_all` builds,
/// with the last host block closed.
pub proof fn lemma_scan_feeds(
    out: Seq<Line>,
    open: Option<Host>,
    rest: Seq<Seq<char>>,
    source: Seq<char>,
)
    ensures
        ({
            let s = scan(out, open, rest, source);
            let all = feed_all(out, open, rest, source);
            if s.wanted is Some {
                &&& s.rest.len() < rest.len()
                &&& feed_all(s.out, None, s.rest, source) == all
            } else {
                &&& s.out == flush(all.0, all.1, source)
                &&& s.rest.len() == 0
            }
        }),
    decreases rest.len(),
{
    if rest.len() > 0 {
        let f = feed(out, open, rest[0], source);
        if f.wanted is None {
            lemma_scan_feeds(f.out, f.open, rest.drop_first(), source);
        }
    }
}

/// Closes the open host block, if there is one, and appends it as an entry of
/// the file `source`.
pub fn flush_host(lines: &mut Vec<ConfigLine>, open: Option<OpenHost>, source: &str)
    ensures
        final(lines).deep_view() == flush(old(lines).deep_view(), open.deep_view(), source@),
{
    match open {
        Some(host) => {
            let entry = ConfigLine::HostEntry {
                pattern: host.pattern,
                options: host.options,
                source_file: source.to_owned(),
            };
            lines.push(entry);
            assert(lines.deep_view() =~= old(lines).deep_view().push(entry@));
        },
        None => {},
    }
}

/// Appends one line.
fn append_line(lines: &mut Vec<ConfigLine>, entry: ConfigLine)
    ensures
        final(lines).deep_view() == old(lines).deep_view().push(entry@),
{
    lines.push(entry);
    assert(lines.deep_view() =~= old(lines).deep_view().push(entry@));
}

/// Feeds one physical line of the file `source` into the lines so far.
/// Returns the host block that is open afterwards, and the argument of the
/// line if it is an `Include` directive.
pub fn feed_line(
    lines: &mut Vec<ConfigLine>,
    open: Option<OpenHost>,
    line: &str,
    source: &str,
) -> (after: (Option<OpenHost>, Option<String>))
    ensures
        final(lines).deep_view() == feed(
            old(lines).deep_view(),
            open.deep_view(),
            line@,
            source@,
        ).out,
        after.0.deep_view() == feed(old(lines).deep_view(), open.deep_view(), line@, source@).open,
        after.1.deep_view() == feed(
            old(lines).deep_view(),
            open.deep_view(),
            line@,
            source@,
        ).wanted,
{
    match classify_line(line) {
        LineClass::Comment => {
            flush_host(lines, open, source);
            append_line(
                lines,
                ConfigLine::Comment { text: line.to_owned(), source_file: source.to_owned() },
            );
            (None, None)
        },
        LineClass::Blank => {
            flush_host(lines, open, source);
            append_line(lines, ConfigLine::Empty { source_file: source.to_owned() });
            (None, None)
        },
        LineClass::Malformed => (open, None),
        LineClass::Directive { key, value } => match keyword(key.as_str()) {
            Keyword::Host => {
                flush_host(lines, open, source);
                let host = OpenHost { pattern: value, options: Vec::new() };
                assert(host@.options =~= Seq::empty());
                (Some(host), None)
            },
            Keyword::Include => {
                flush_host(lines, open, source);
                append_line(
                    lines,
                    ConfigLine::Include { path: value.clone(), source_file: source.to_owned() },
                );
                (None, Some(value))
            },
            Keyword::Other => match open {
                Some(host) => {
                    let ghost before = host@;
                    let mut host = host;
                    host.options.push((key, value));
                    assert(host@.options =~= before.options.push((key@, value@)));
                    (Some(host), None)
                },
                None => {
                    append_line(
                        lines,
                        ConfigLine::GlobalOption { key, value, source_file: source.to_owned() },
                    );
                    (None, None)
                },
            },
        },
    }
}

/// Feeds the physical lines `lines[next..]` of the file `source`, no host
/// block being open, up to and with the first `Include` directive; at the
/// end of the lines, closes the open host block. Returns the index of the
/// first line not yet read, and the argument of the directive at which it
/// stopped.
pub(crate) fn scan_lines(
    out: &mut Vec<ConfigLine>,
    lines: &Vec<String>,
    next: usize,
    source: &str,
) -> (after: (usize, Option<String>))
    requires
        next <= lines.len(),
    ensures
        next <= after.0 <= lines.len(),
        ({
            let s = scan(
                old(out).deep_view(),
                None,
                lines.deep_view().skip(next as int),
                source@,
            );
            &&& final(out).deep_view() == s.out
            &&& lines.deep_view().skip(after.0 as int) == s.rest
            &&& after.1.deep_view() == s.wanted
        }),
{
    let ghost all = lines.deep_view();
    let ghost goal = scan(old(out).deep_view(), None, all.skip(next as int), source@);
    let mut open: Option<OpenHost> = None;
    let mut i: usize = next;
    while i < lines.len()
        invariant
            next <= i <= lines.len(),
            all == lines.deep_view(),
            goal == scan(old(out).deep_view(), None, all.skip(next as int), source@),
            scan(out.deep_view(), open.deep_view(), all.skip(i as int), source@) == goal,
        decreases lines.len() - i,
    {
        let ghost rest = all.skip(i as int);
        assert(rest.drop_first() =~= all.skip(i + 1));
        assert(rest[0] == lines[i as int]@);
        let fed = feed_line(out, open, lines[i].as_str(), source);
        i += 1;
        if fed.1.is_some() {
            return (i, fed.1);
        }
        open = fed.0;
    }
    assert(all.skip(i as int) =~= Seq::<Seq<char>>::empty());
    flush_host(out, open, source);
    (i, None)
}

impl SshConfig {
    /// Appends the document of the text `content`, taken as the file
    /// `base_path` standing alone: an `Include` directive becomes a line of
    /// the document, and no file is pulled in for it.
    pub fn parse_content(&mut self, content: &str, base_path: &str)
        ensures
            final(self)@.included == old(self)@.included,
            final(self)@.lines == old(self)@.lines + parse_text(content@, base_path@),
    {
        let lines = lines_of(content);
        let ghost all = lines.deep_view();
        let ghost goal = feed_all(Seq::empty(), None, all, base_path@);
        let mut fresh: Vec<ConfigLine> = Vec::new();
        let mut next: usize = 0;
        let mut closed = false;
        assert(fresh.deep_view() =~= Seq::<Line>::empty());
        assert(all.skip(0) =~= all);
        while !closed
            invariant
                next <= lines.len(),
                all == lines.deep_view(),
                !closed ==> feed_all(fresh.deep_view(), None, all.skip(next as int), base_path@)
                    == goal,
                closed ==> fresh.deep_view() == flush(goal.0, goal.1, base_path@),
            decreases lines.len() - next + if closed { 0int } else { 1int },
        {
            proof {
                lemma_scan_feeds(fresh.deep_view(), None, all.skip(next as int), base_path@);
            }
            let after = scan_lines(&mut fresh, &lines, next, base_path);
            next = after.0;
            closed = after.1.is_none();
        }
        let ghost before = self.lines.deep_view();
        self.lines.append(&mut fresh);
        assert(self.lines.deep_view() =~= before + parse_text(content@, base_path@));
    }
}

} // verus!
