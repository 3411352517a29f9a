//! Human-facing status output.
//!
//! [`Out`] centralises status/progress messages with a [`Verbosity`] gate. It
//! decides what is shown and how it reads; what is to be shown is appended to a
//! list of [`Print`]s, which a program writes out in order.
//!
//! *Canonical payloads* — the JSON/YAML a command exists to produce (`schema`,
//! `catalog`, `resolve`, `show`) — never go through [`Out`], so that output is
//! byte-for-byte stable regardless of verbosity.

use vstd::prelude::*;
use vstd::string::*;

verus! {

/// How chatty status output is. Does not affect canonical payloads.
#[derive(Copy, Clone, Debug, Eq, PartialEq, Structural)]
pub enum Verbosity {
    /// Errors only.
    Quiet,
    /// Errors, warnings, and normal status lines.
    Normal,
    /// Everything, including per-step detail.
    Verbose,
}

impl Default for Verbosity {
    fn default() -> (r: Verbosity)
        ensures
            r == Verbosity::Normal,
    {
        Verbosity::Normal
    }
}

/// One piece of output.
#[derive(Debug, Clone, PartialEq, Eq)]
pub enum Print {
    /// A line for standard output.
    Line(String),
    /// A text for standard output, as it is.
    Text(String),
    /// A line for standard error.
    Complaint(String),
}

/// What a [`Print`] reads.
pub enum Shown {
    Line(Seq<char>),
    Text(Seq<char>),
    Complaint(Seq<char>),
}

impl View for Print {
    type V = Shown;

    open spec fn view(&self) -> Shown {
        match *self {
            Print::Line(s) => Shown::Line(s@),
            Print::Text(s) => Shown::Text(s@),
            Print::Complaint(s) => Shown::Complaint(s@),
        }
    }
}

/// What a list of prints reads.
pub open spec fn shown(prints: Seq<Print>) -> Seq<Shown> {
    Seq::new(prints.len(), |i: int| prints[i]@)
}

/// Append one print.
pub fn add_print(sink: &mut Vec<Print>, p: Print)
    ensures
        shown(final(sink)@) == shown(old(sink)@).push(p@),
{
    let ghost before = shown(sink@);
    sink.push(p);
    assert(shown(sink@) =~= before.push(p@));
}

/// What a status line shows.
pub open spec fn status(v: Verbosity, message: Seq<char>) -> Seq<Shown> {
    if v == Verbosity::Quiet {
        seq![]
    } else {
        seq![Shown::Line(message)]
    }
}

/// What a detail line shows.
pub open spec fn detail_line(v: Verbosity, message: Seq<char>) -> Seq<Shown> {
    if v == Verbosity::Verbose {
        seq![Shown::Line(message)]
    } else {
        seq![]
    }
}

/// What a warning shows.
pub open spec fn warning(message: Seq<char>) -> Shown {
    Shown::Complaint("warning: "@ + message)
}

/// What an error shows.
pub open spec fn failure(message: Seq<char>) -> Shown {
    Shown::Complaint("error: "@ + message)
}

/// Status/progress sink. Status lines go to stdout; warnings/errors to stderr.
#[derive(Debug, Clone, Copy)]
pub struct Out {
    pub verbosity: Verbosity,
}

impl Default for Out {
    fn default() -> (r: Out)
        ensures
            r.verbosity == Verbosity::Normal,
    {
        Out { verbosity: Verbosity::Normal }
    }
}

impl Out {
    pub fn new(verbosity: Verbosity) -> (r: Self)
        ensures
            r.verbosity == verbosity,
    {
        Self { verbosity }
    }

    pub fn is_quiet(&self) -> (r: bool)
        ensures
            r == (self.verbosity == Verbosity::Quiet),
    {
        self.verbosity == Verbosity::Quiet
    }

    pub fn is_verbose(&self) -> (r: bool)
        ensures
            r == (self.verbosity == Verbosity::Verbose),
    {
        self.verbosity == Verbosity::Verbose
    }

    /// Normal-priority status line (stdout). Suppressed when quiet.
    pub fn info(&self, sink: &mut Vec<Print>, message: &str)
        ensures
            shown(final(sink)@) == shown(old(sink)@) + status(self.verbosity, message@),
    {
        let ghost before = shown(sink@);
        if !self.is_quiet() {
            add_print(sink, Print::Line(message.to_owned()));
        }
        assert(shown(sink@) =~= before + status(self.verbosity, message@));
    }

    /// Verbose-only detail (stdout). Suppressed unless verbose.
    pub fn detail(&self, sink: &mut Vec<Print>, message: &str)
        ensures
            shown(final(sink)@) == shown(old(sink)@) + detail_line(self.verbosity, message@),
    {
        let ghost before = shown(sink@);
        if self.is_verbose() {
            add_print(sink, Print::Line(message.to_owned()));
        }
        assert(shown(sink@) =~= before + detail_line(self.verbosity, message@));
    }

    /// Warning (stderr). Always shown.
    pub fn warn(&self, sink: &mut Vec<Print>, message: &str)
        ensures
            shown(final(sink)@) == shown(old(sink)@).push(warning(message@)),
    {
        let mut text = "warning: ".to_owned();
        text.append(message);
        add_print(sink, Print::Complaint(text));
    }

    /// Error (stderr). Always shown.
    pub fn error(&self, sink: &mut Vec<Print>, message: &str)
        ensures
            shown(final(sink)@) == shown(old(sink)@).push(failure(message@)),
    {
        let mut text = "error: ".to_owned();
        text.append(message);
        add_print(sink, Print::Complaint(text));
    }
}

}
