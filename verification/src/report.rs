//! What a run tells its operator: log entries and a description, kept in a
//! journal that the driver owns and hands to whoever reports.

use vstd::prelude::*;

verus! {

/// How much a plain run prints.
#[derive(Copy, Clone, PartialEq, Eq, Hash)]
pub enum Info {
    Verbose,
    Normal,
}

/// How the inputs of an exploration are combined: `Exaustive` takes every
/// combination, `Matched` the inputs of equal index.
#[derive(Copy, Clone, Debug, PartialEq, Eq, Hash)]
pub enum ExploreMode {
    Exaustive,
    Matched,
}

/// The kinds of log entries.
#[derive(Copy, Clone, Debug)]
pub enum LogType {
    Info,
    Warning,
    Error,
    Critical,
}

impl LogType {
    /// The text that a log line of this kind begins with.
    pub open spec fn prefix_text(self) -> Seq<char> {
        match self {
            LogType::Info => "Info: "@,
            LogType::Warning => "Warning: "@,
            LogType::Error => "Error: "@,
            LogType::Critical => "Critical: "@,
        }
    }

    /// The text that a log line of this kind begins with.
    pub fn prefix(&self) -> (s: String)
        ensures
            s@ == self.prefix_text(),
    {
        match self {
            LogType::Info => "Info: ".to_owned(),
            LogType::Warning => "Warning: ".to_owned(),
            LogType::Error => "Error: ".to_owned(),
            LogType::Critical => "Critical: ".to_owned(),
        }
    }
}

/// A log entry.
pub struct Log {
    /// The kind of the entry.
    pub ltype: LogType,
    /// The message.
    pub body: String,
}

/// The log and the description of a run. There is one per run, made by the
/// driver and passed to whoever reports; none is reachable otherwise.
pub struct Journal {
    logs: Vec<Log>,
    description: String,
}

impl Journal {
    /// The log entries, newest first.
    pub closed spec fn entries(&self) -> Seq<Log> {
        self.logs@
    }

    /// The description of the model.
    pub closed spec fn description_text(&self) -> Seq<char> {
        self.description@
    }

    /// A journal without entries and with an empty description.
    pub fn new() -> (j: Self)
        ensures
            j.entries() == Seq::<Log>::empty(),
            j.description_text() == Seq::<char>::empty(),
    {
        Journal { logs: Vec::new(), description: String::new() }
    }

    /// Puts an entry in front of the log.
    pub fn log(&mut self, ltype: LogType, body: String)
        ensures
            final(self).entries() == seq![Log { ltype, body }] + old(self).entries(),
            final(self).description_text() == old(self).description_text(),
    {
        self.logs.insert(0, Log { ltype, body });
        assert(self.logs@ =~= seq![Log { ltype, body }] + old(self).logs@);
    }

    /// Replaces the description of the model.
    pub fn describe(&mut self, description: String)
        ensures
            final(self).description_text() == description@,
            final(self).entries() == old(self).entries(),
    {
        self.description = description;
    }

    /// Number of log entries.
    pub fn len(&self) -> (n: usize)
        ensures
            n == self.entries().len(),
    {
        self.logs.len()
    }

    /// The `i`-th newest log entry.
    pub fn entry(&self, i: usize) -> (r: Option<&Log>)
        ensures
            r == (if i < self.entries().len() {
                Some(&self.entries()[i as int])
            } else {
                None
            }),
    {
        if i < self.logs.len() {
            Some(&self.logs[i])
        } else {
            None
        }
    }

    /// The description of the model.
    pub fn description(&self) -> (s: &String)
        ensures
            s@ == self.description_text(),
    {
        &self.description
    }
}

} // verus!
