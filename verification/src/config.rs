//! The settings of one run, and what they make of each line that is read.

use vstd::prelude::*;
use crate::line::{cut, find_delimiter, has_delimiter, join_line, keep_selected, split_chars};
use crate::text::chars_of;

verus! {

/// The settings of a run, fixed once they are made: the delimiter, whether
/// lines without the delimiter are dropped, and the list of fields to keep.
/// The delimiter is never empty.
#[derive(Debug)]
pub struct RunConfig {
    delimiter: Vec<char>,
    separated_only: bool,
    fields: Vec<u32>,
}

/// The settings of a run as plain values.
pub struct RunConfigView {
    pub delimiter: Seq<char>,
    pub separated_only: bool,
    pub fields: Seq<u32>,
}

/// What to do after a read from the input.
#[derive(Debug, PartialEq, Eq)]
pub enum Action {
    /// The input has ended: read no more.
    Stop,
    /// The line is dropped: write nothing and read on.
    Skip,
    /// Write the text and read on.
    Print(String),
}

/// The delimiter of a run: the one that was given or, without one, a tab.
pub open spec fn chosen_delimiter(given: Option<&str>) -> Seq<char> {
    match given {
        Some(delimiter) => delimiter@,
        None => seq!['\t'],
    }
}

impl RunConfigView {
    /// What is written for `line`: nothing where only separated lines are
    /// wanted and the line does not hold the delimiter, else its selected
    /// chunks and a newline.
    pub open spec fn output_for(self, line: Seq<char>) -> Option<Seq<char>> {
        if self.separated_only && !has_delimiter(line, self.delimiter) {
            None
        } else {
            Some(cut(line, self.delimiter, self.fields))
        }
    }
}

impl View for RunConfig {
    type V = RunConfigView;

    closed spec fn view(&self) -> RunConfigView {
        RunConfigView {
            delimiter: self.delimiter@,
            separated_only: self.separated_only,
            fields: self.fields@,
        }
    }
}

impl RunConfig {
    #[verifier::type_invariant]
    spec fn delimiter_is_not_empty(self) -> bool {
        self.delimiter@.len() > 0
    }

    /// Makes the settings of a run. Without a delimiter the tab is taken.
    /// An empty delimiter is refused.
    pub fn new(delimiter: Option<&str>, separated_only: bool, fields: Vec<u32>) -> (config: Option<
        RunConfig,
    >)
        ensures
            config is Some <==> chosen_delimiter(delimiter).len() > 0,
            config matches Some(made) ==> made@ == (RunConfigView {
                delimiter: chosen_delimiter(delimiter),
                separated_only,
                fields: fields@,
            }),
    {
        let chars: Vec<char> = match delimiter {
            Some(given) => chars_of(given),
            None => {
                let mut tab: Vec<char> = Vec::new();
                tab.push('\t');
                assert(tab@ == seq!['\t']);
                tab
            },
        };
        if chars.len() == 0 {
            None
        } else {
            Some(RunConfig { delimiter: chars, separated_only, fields })
        }
    }

    /// What is written for one line, or `None` where the line is dropped.
    pub fn process_line(&self, line: &str) -> (out: Option<String>)
        ensures
            match out {
                Some(text) => Some(text@),
                None => None,
            } == self@.output_for(line@),
    {
        proof {
            use_type_invariant(self);
        }
        let chars: Vec<char> = chars_of(line);
        assert(chars@.subrange(0, chars.len() as int) == line@);
        if self.separated_only && find_delimiter(&chars, &self.delimiter, 0).is_none() {
            return None;
        }
        let chunks: Vec<String> = split_chars(&chars, &self.delimiter);
        let kept: Vec<String> = keep_selected(&chunks, &self.fields);
        Some(join_line(&kept))
    }

    /// What to do with what one read of a line gave. A read that gave
    /// nothing, not even a line terminator, is the end of the input.
    pub fn react(&self, line: &str) -> (action: Action)
        ensures
            match action {
                Action::Stop => line@.len() == 0,
                Action::Skip => line@.len() > 0 && self@.output_for(line@) is None,
                Action::Print(text) => line@.len() > 0 && self@.output_for(line@) == Some(text@),
            },
    {
        if line.is_empty() {
            Action::Stop
        } else {
            match self.process_line(line) {
                Some(text) => Action::Print(text),
                None => Action::Skip,
            }
        }
    }
}

/// Where only separated lines are wanted, nothing is written for a line
/// that does not hold the delimiter: no chunk and no newline.
pub proof fn lemma_undelimited_line_is_dropped(config: RunConfigView, line: Seq<char>)
    requires
        config.separated_only,
        !has_delimiter(line, config.delimiter),
    ensures
        config.output_for(line) is None,
{
}

} // verus!
