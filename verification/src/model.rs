//! The document: an ordered sequence of lines, each tagged with the file it
//! was read from, and the table of the files that were pulled in.

use vstd::prelude::*;

verus! {

/// One entry of a document.
#[derive(Debug, Clone, PartialEq, Eq)]
pub enum ConfigLine {
    /// A comment; `text` is the whole physical line, `#` and indentation kept.
    Comment { text: String, source_file: String },
    /// A line that holds white space only.
    Empty { source_file: String },
    /// An `Include` directive; `path` is its argument as written.
    Include { path: String, source_file: String },
    /// A `Host` line with the options that follow it, in order.
    HostEntry { pattern: String, options: Vec<(String, String)>, source_file: String },
    /// A directive outside any host block.
    GlobalOption { key: String, value: String, source_file: String },
}

/// What a `ConfigLine` stands for.
pub enum Line {
    Comment { text: Seq<char>, source: Seq<char> },
    Empty { source: Seq<char> },
    Include { path: Seq<char>, source: Seq<char> },
    HostEntry { pattern: Seq<char>, options: Seq<(Seq<char>, Seq<char>)>, source: Seq<char> },
    GlobalOption { key: Seq<char>, value: Seq<char>, source: Seq<char> },
}

impl Line {
    /// The file that the line belongs to.
    pub open spec fn source(self) -> Seq<char> {
        match self {
            Line::Comment { source, .. } => source,
            Line::Empty { source } => source,
            Line::Include { source, .. } => source,
            Line::HostEntry { source, .. } => source,
            Line::GlobalOption { source, .. } => source,
        }
    }
}

impl View for ConfigLine {
    type V = Line;

    open spec fn view(&self) -> Line {
        match self {
            ConfigLine::Comment { text, source_file } => Line::Comment {
                text: text@,
                source: source_file@,
            },
            ConfigLine::Empty { source_file } => Line::Empty { source: source_file@ },
            ConfigLine::Include { path, source_file } => Line::Include {
                path: path@,
                source: source_file@,
            },
            ConfigLine::HostEntry { pattern, options, source_file } => Line::HostEntry {
                pattern: pattern@,
                options: options.deep_view(),
                source: source_file@,
            },
            ConfigLine::GlobalOption { key, value, source_file } => Line::GlobalOption {
                key: key@,
                value: value@,
                source: source_file@,
            },
        }
    }
}

impl DeepView for ConfigLine {
    type V = Line;

    open spec fn deep_view(&self) -> Line {
        self@
    }
}

impl ConfigLine {
    /// The file that the line belongs to.
    pub fn source_file(&self) -> (s: &String)
        ensures
            s@ == self@.source(),
    {
        match self {
            ConfigLine::Comment { source_file, .. } => source_file,
            ConfigLine::Empty { source_file } => source_file,
            ConfigLine::Include { source_file, .. } => source_file,
            ConfigLine::HostEntry { source_file, .. } => source_file,
            ConfigLine::GlobalOption { source_file, .. } => source_file,
        }
    }
}

/// What is kept of a file that an `Include` pulled in.
#[derive(Debug, Clone, PartialEq, Eq)]
pub struct IncludedFileData {
    /// The file's text as it was read.
    pub content: String,
    /// Reserved for the file's own lines; parsing leaves it empty.
    pub lines: Vec<ConfigLine>,
}

/// What an `IncludedFileData` stands for.
pub struct Included {
    pub content: Seq<char>,
    pub lines: Seq<Line>,
}

impl View for IncludedFileData {
    type V = Included;

    open spec fn view(&self) -> Included {
        Included { content: self.content@, lines: self.lines.deep_view() }
    }
}

impl DeepView for IncludedFileData {
    type V = Included;

    open spec fn deep_view(&self) -> Included {
        self@
    }
}

/// A configuration spread over a main file and the files it pulls in.
#[derive(Debug, Clone)]
pub struct SshConfig {
    /// Every line, in the order met; a pulled-in file's lines stand right
    /// after the `Include` line that named it.
    pub lines: Vec<ConfigLine>,
    /// The files pulled in, each path once, in the order their parsing ended.
    pub included_files: Vec<(String, IncludedFileData)>,
}

/// What an `SshConfig` stands for.
pub struct Document {
    pub lines: Seq<Line>,
    pub included: Seq<(Seq<char>, Included)>,
}

/// The index of the first entry of `table` under `path`; its length where
/// there is none.
pub open spec fn position(table: Seq<(Seq<char>, Included)>, path: Seq<char>) -> int
    decreases table.len(),
{
    if table.len() == 0 || table[0].0 == path {
        0
    } else {
        1 + position(table.drop_first(), path)
    }
}

/// `table` with `data` under `path`: in place of the entry that was there, or
/// as a new last entry.
pub open spec fn with_entry(
    table: Seq<(Seq<char>, Included)>,
    path: Seq<char>,
    data: Included,
) -> Seq<(Seq<char>, Included)> {
    let i = position(table, path);
    if 0 <= i < table.len() {
        table.update(i, (path, data))
    } else {
        table.push((path, data))
    }
}

/// The paths of a table of files, in order.
pub open spec fn paths(table: Seq<(Seq<char>, Included)>) -> Seq<Seq<char>> {
    table.map_values(|e: (Seq<char>, Included)| e.0)
}

impl Document {
    /// The document without lines or files.
    pub open spec fn empty() -> Document {
        Document { lines: Seq::empty(), included: Seq::empty() }
    }

    /// No file is listed twice.
    pub open spec fn wf(self) -> bool {
        paths(self.included).no_duplicates()
    }

    /// The document once the file at `path` is recorded with its text.
    pub open spec fn record(self, path: Seq<char>, content: Seq<char>) -> Document {
        Document {
            included: with_entry(
                self.included,
                path,
                Included { content, lines: Seq::empty() },
            ),
            ..self
        }
    }
}

impl View for SshConfig {
    type V = Document;

    open spec fn view(&self) -> Document {
        Document {
            lines: self.lines.deep_view(),
            included: self.included_files.deep_view(),
        }
    }
}

pub proof fn lemma_position(table: Seq<(Seq<char>, Included)>, path: Seq<char>)
    ensures
        0 <= position(table, path) <= table.len(),
        position(table, path) < table.len() ==> table[position(table, path)].0 == path,
        forall|i: int| 0 <= i < position(table, path) ==> (#[trigger] table[i]).0 != path,
    decreases table.len(),
{
    if table.len() == 0 || table[0].0 == path {
    } else {
        let rest = table.drop_first();
        lemma_position(rest, path);
        assert forall|i: int| 0 <= i < position(table, path) implies (#[trigger] table[i]).0
            != path by {
            if i > 0 {
                assert(table[i] == rest[i - 1]);
            }
        }
    }
}

/// Recording a file keeps each path listed once.
pub proof fn lemma_with_entry_distinct(
    table: Seq<(Seq<char>, Included)>,
    path: Seq<char>,
    data: Included,
)
    requires
        paths(table).no_duplicates(),
    ensures
        paths(with_entry(table, path, data)).no_duplicates(),
{
    lemma_position(table, path);
    let i = position(table, path);
    let after = with_entry(table, path, data);
    if i < table.len() {
        assert(paths(after) =~= paths(table));
    } else {
        assert forall|a: int, b: int|
            0 <= a < paths(after).len() && 0 <= b < paths(after).len() && a != b implies paths(
            after,
        )[a] != paths(after)[b] by {
            if a < table.len() && b < table.len() {
                assert(paths(table)[a] != paths(table)[b]);
            } else if a < table.len() {
                assert(table[a].0 != path);
            } else {
                assert(table[b].0 != path);
            }
        }
    }
}

impl SshConfig {
    /// A document without lines or files.
    pub fn new() -> (config: Self)
        ensures
            config@ == Document::empty(),
    {
        let config = SshConfig { lines: Vec::new(), included_files: Vec::new() };
        assert(config@.lines =~= Seq::empty());
        assert(config@.included =~= Seq::empty());
        config
    }

    /// Records the file at `path` with its text, in place of an earlier
    /// record under the same path if there is one.
    pub(crate) fn record_included(&mut self, path: String, content: String)
        ensures
            final(self)@ == old(self)@.record(path@, content@),
    {
        let ghost table = self@.included;
        let data = IncludedFileData { content, lines: Vec::new() };
        assert(data@.lines =~= Seq::empty());
        let mut i: usize = 0;
        assert(table.skip(0) =~= table);
        while i < self.included_files.len() && self.included_files[i].0 != path
            invariant
                i <= self.included_files.len(),
                *self == *old(self),
                table == self@.included,
                position(table, path@) == i + position(table.skip(i as int), path@),
            decreases self.included_files.len() - i,
        {
            assert(table.skip(i as int).drop_first() =~= table.skip(i + 1));
            i += 1;
        }
        assert(position(table, path@) == i);
        if i < self.included_files.len() {
            self.included_files.set(i, (path, data));
            assert(self@.included =~= table.update(i as int, (path@, data@)));
        } else {
            self.included_files.push((path, data));
            assert(self@.included =~= table.push((path@, data@)));
        }
    }
}

} // verus!
