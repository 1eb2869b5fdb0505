//! Changes to a document: a new host block at the end of a file, and a new
//! option at the end of a host block.

use crate::model::{ConfigLine, Line, SshConfig};
use vstd::prelude::*;

verus! {

/// `line` with one more option, where it is a host block.
pub open spec fn with_option(line: Line, key: Seq<char>, value: Seq<char>) -> Line {
    match line {
        Line::HostEntry { pattern, options, source } => Line::HostEntry {
            pattern,
            options: options.push((key, value)),
            source,
        },
        _ => line,
    }
}

impl SshConfig {
    /// Appends a host block without options, for `pattern`, as the last line
    /// of the file `target_file`. Returns its index among the lines.
    pub fn add_host(&mut self, pattern: String, target_file: String) -> (index: usize)
        ensures
            index == old(self)@.lines.len(),
            final(self)@.lines == old(self)@.lines.push(
                Line::HostEntry { pattern: pattern@, options: Seq::empty(), source: target_file@ },
            ),
            final(self)@.included == old(self)@.included,
    {
        let index = self.lines.len();
        let entry =
            ConfigLine::HostEntry { pattern, options: Vec::new(), source_file: target_file };
        assert(entry@ == Line::HostEntry {
            pattern: pattern@,
            options: Seq::empty(),
            source: target_file@,
        }) by {
            assert(entry@->HostEntry_options =~= Seq::empty());
        }
        self.lines.push(entry);
        assert(self@.lines =~= old(self)@.lines.push(entry@));
        index
    }

    /// Appends an option to the host block at `index`. Where `index` is no
    /// line of the document, or the line there is no host block, nothing
    /// changes and the result is `false`.
    pub fn add_option(&mut self, index: usize, key: String, value: String) -> (added: bool)
        ensures
            added == (index < old(self)@.lines.len() && old(self)@.lines[index as int]
                is HostEntry),
            added ==> final(self)@.lines == old(self)@.lines.update(
                index as int,
                with_option(old(self)@.lines[index as int], key@, value@),
            ),
            !added ==> final(self)@.lines == old(self)@.lines,
            final(self)@.included == old(self)@.included,
    {
        if index >= self.lines.len() {
            return false;
        }
        let ghost before = self@.lines;
        let ghost pair = (key@, value@);
        let added = match &mut self.lines[index] {
            ConfigLine::HostEntry { options, .. } => {
                let ghost had = options.deep_view();
                options.push((key, value));
                assert(options.deep_view() =~= had.push(pair));
                true
            },
            _ => false,
        };
        assert(added ==> self@.lines =~= before.update(
            index as int,
            with_option(before[index as int], pair.0, pair.1),
        ));
        assert(!added ==> self@.lines =~= before);
        added
    }
}

} // verus!
