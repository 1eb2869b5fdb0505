//! The text of one file, rebuilt from the lines of the document that belong
//! to it, and the files to write when the document is saved.

use crate::model::{ConfigLine, Document, Included, Line, SshConfig};
use crate::text::push_char;
use vstd::prelude::*;
use vstd::string::StringExecFns;

verus! {

/// The word `Host` and the space after it.
pub open spec fn host_prefix() -> Seq<char> {
    seq!['H', 'o', 's', 't', ' ']
}

/// The word `Include` and the space after it.
pub open spec fn include_prefix() -> Seq<char> {
    seq!['I', 'n', 'c', 'l', 'u', 'd', 'e', ' ']
}

/// The four spaces in front of an option of a host block.
pub open spec fn indent() -> Seq<char> {
    seq![' ', ' ', ' ', ' ']
}

/// A key, a space, the value and a line feed.
pub open spec fn render_pair(key: Seq<char>, value: Seq<char>) -> Seq<char> {
    key + seq![' '] + value + seq!['\n']
}

/// The options of a host block, one indented line each, in order.
pub open spec fn render_options(options: Seq<(Seq<char>, Seq<char>)>) -> Seq<char>
    decreases options.len(),
{
    if options.len() == 0 {
        Seq::empty()
    } else {
        render_options(options.drop_last()) + indent() + render_pair(
            options.last().0,
            options.last().1,
        )
    }
}

/// The text of one line of the document.
pub open spec fn render_line(line: Line) -> Seq<char> {
    match line {
        Line::Comment { text, .. } => text + seq!['\n'],
        Line::Empty { .. } => seq!['\n'],
        Line::Include { path, .. } => include_prefix() + path + seq!['\n'],
        Line::HostEntry { pattern, options, .. } => host_prefix() + pattern + seq!['\n']
            + render_options(options),
        Line::GlobalOption { key, value, .. } => render_pair(key, value),
    }
}

/// The text of the file `target`: the lines that belong to it, in the order of
/// the document, each as `render_line` gives it.
pub open spec fn render(lines: Seq<Line>, target: Seq<char>) -> Seq<char>
    decreases lines.len(),
{
    if lines.len() == 0 {
        Seq::empty()
    } else if lines.last().source() == target {
        render(lines.drop_last(), target) + render_line(lines.last())
    } else {
        render(lines.drop_last(), target)
    }
}

/// The files to write on saving, in order, each with its new text: the main
/// file first, then every file that was pulled in.
pub open spec fn save_plan(doc: Document, main: Seq<char>) -> Seq<(Seq<char>, Seq<char>)> {
    seq![(main, render(doc.lines, main))] + doc.included.map_values(
        |e: (Seq<char>, Included)| (e.0, render(doc.lines, e.0)),
    )
}

/// Appends a key, a space, the value and a line feed.
fn push_pair(out: &mut String, key: &String, value: &String)
    ensures
        final(out)@ == old(out)@ + render_pair(key@, value@),
{
    out.append(key.as_str());
    push_char(out, ' ');
    out.append(value.as_str());
    push_char(out, '\n');
    assert(out@ =~= old(out)@ + render_pair(key@, value@));
}

/// Appends the options of a host block.
fn push_options(out: &mut String, options: &Vec<(String, String)>)
    ensures
        final(out)@ == old(out)@ + render_options(options.deep_view()),
{
    let ghost all = options.deep_view();
    let mut j: usize = 0;
    assert(out@ =~= old(out)@ + render_options(all.take(0)));
    while j < options.len()
        invariant
            j <= options.len(),
            all == options.deep_view(),
            out@ == old(out)@ + render_options(all.take(j as int)),
        decreases options.len() - j,
    {
        let ghost before = out@;
        out.append("    ");
        proof {
            reveal_strlit("    ");
            assert("    "@ =~= indent());
        }
        push_pair(out, &options[j].0, &options[j].1);
        proof {
            let next = all.take(j + 1);
            assert(next.drop_last() =~= all.take(j as int));
            assert(next.last() == all[j as int]);
            assert(out@ =~= old(out)@ + render_options(next));
        }
        j += 1;
    }
    assert(all.take(options.len() as int) =~= all);
}

/// Appends the text of one line.
fn push_line(out: &mut String, line: &ConfigLine)
    ensures
        final(out)@ == old(out)@ + render_line(line@),
{
    match line {
        ConfigLine::Comment { text, .. } => {
            out.append(text.as_str());
            push_char(out, '\n');
            assert(out@ =~= old(out)@ + render_line(line@));
        },
        ConfigLine::Empty { .. } => {
            push_char(out, '\n');
            assert(out@ =~= old(out)@ + render_line(line@));
        },
        ConfigLine::Include { path, .. } => {
            out.append("Include ");
            proof {
                reveal_strlit("Include ");
                assert("Include "@ =~= include_prefix());
            }
            out.append(path.as_str());
            push_char(out, '\n');
            assert(out@ =~= old(out)@ + render_line(line@));
        },
        ConfigLine::HostEntry { pattern, options, .. } => {
            out.append("Host ");
            proof {
                reveal_strlit("Host ");
                assert("Host "@ =~= host_prefix());
            }
            out.append(pattern.as_str());
            push_char(out, '\n');
            push_options(out, options);
            assert(out@ =~= old(out)@ + render_line(line@));
        },
        ConfigLine::GlobalOption { key, value, .. } => {
            push_pair(out, key, value);
        },
    }
}

impl SshConfig {
    /// The text of the file at `file_path`, rebuilt from the lines that belong
    /// to it. Comments keep their text, a blank line becomes an empty one, and
    /// a directive is written as its key, one space and its value; the options
    /// of a host block are indented by four spaces.
    pub fn to_string(&self, file_path: &str) -> (text: String)
        ensures
            text@ == render(self@.lines, file_path@),
    {
        let target = file_path.to_owned();
        let ghost all = self@.lines;
        let mut text = String::new();
        let mut i: usize = 0;
        assert(all.take(0) =~= Seq::empty());
        while i < self.lines.len()
            invariant
                i <= self.lines.len(),
                all == self.lines.deep_view(),
                target@ == file_path@,
                text@ == render(all.take(i as int), file_path@),
            decreases self.lines.len() - i,
        {
            let line = &self.lines[i];
            proof {
                let next = all.take(i + 1);
                assert(next.drop_last() =~= all.take(i as int));
                assert(next.last() == line@);
            }
            if *line.source_file() == target {
                push_line(&mut text, line);
            }
            i += 1;
        }
        assert(all.take(self.lines.len() as int) =~= all);
        text
    }

    /// The files to write on saving, in order, each with its new text: the
    /// file at `main_path` first, then every file that was pulled in.
    pub fn save_plan(&self, main_path: &str) -> (plan: Vec<(String, String)>)
        ensures
            plan.deep_view() == save_plan(self@, main_path@),
    {
        let ghost want = save_plan(self@, main_path@);
        let mut plan: Vec<(String, String)> = Vec::new();
        plan.push((main_path.to_owned(), self.to_string(main_path)));
        assert(plan.deep_view() =~= want.take(1));
        let mut i: usize = 0;
        while i < self.included_files.len()
            invariant
                i <= self.included_files.len(),
                want == save_plan(self@, main_path@),
                plan.deep_view() == want.take(i + 1),
            decreases self.included_files.len() - i,
        {
            let ghost before = plan.deep_view();
            let path = &self.included_files[i].0;
            let text = self.to_string(path.as_str());
            let entry = (path.clone(), text);
            assert(self@.included[i as int].0 == path@);
            assert(want[i + 1] == entry.deep_view());
            plan.push(entry);
            assert(plan.deep_view() =~= before.push(entry.deep_view()));
            assert(plan.deep_view() =~= want.take(i + 2));
            i += 1;
        }
        assert(want.take(self.included_files.len() + 1) =~= want);
        plan
    }
}

} // verus!
