//! Progress lines for long stages: at most one per interval.

use vstd::prelude::*;

use crate::groups::{plus_wrapping, wrapped};
use crate::text::{decimal, decimal_text};

verus! {

/// How many nanoseconds lie between two progress lines at least.
pub const PROGRESS_INTERVAL: u64 = 200_000_000;

/// The progress of one stage. On a terminal it is one line, written over again
/// and again; elsewhere each report is a line of its own.
#[derive(Debug)]
pub struct Progress {
    pub label: String,
    pub total: Option<u64>,
    pub enabled: bool,
    pub is_tty: bool,
    pub count: u64,
    /// When a line was last written, if ever.
    pub last_emit: Option<u64>,
}

pub struct ProgressV {
    pub label: Seq<char>,
    pub total: Option<u64>,
    pub enabled: bool,
    pub is_tty: bool,
    pub count: u64,
    pub last_emit: Option<u64>,
}

impl View for Progress {
    type V = ProgressV;

    open spec fn view(&self) -> ProgressV {
        ProgressV {
            label: self.label@,
            total: self.total,
            enabled: self.enabled,
            is_tty: self.is_tty,
            count: self.count,
            last_emit: self.last_emit,
        }
    }
}

/// What a report says.
pub open spec fn progress_text(label: Seq<char>, count: u64, total: Option<u64>) -> Seq<char> {
    match total {
        Some(t) => label + ": "@ + decimal(count as nat) + "/"@ + decimal(t as nat),
        None => label + ": "@ + decimal(count as nat),
    }
}

impl ProgressV {
    /// What is written for a count.
    pub open spec fn line(self, count: u64) -> Seq<char> {
        let text = progress_text(self.label, count, self.total);
        if self.is_tty {
            "\r\x1b[K"@ + text
        } else {
            text + "\n"@
        }
    }

    /// Whether a report is due: always for the first, then once per interval.
    pub open spec fn due(self, now: u64) -> bool {
        match self.last_emit {
            None => true,
            Some(last) => now >= last && now - last >= PROGRESS_INTERVAL,
        }
    }
}

impl Progress {
    /// The progress of a stage that has not begun. A stage whose progress is
    /// not shown counts as being on no terminal.
    pub fn new(label: &str, total: Option<u64>, enabled: bool, is_tty: bool) -> (r: Progress)
        ensures
            r@ == (ProgressV {
                label: label@,
                total,
                enabled,
                is_tty: enabled && is_tty,
                count: 0,
                last_emit: None,
            }),
    {
        Progress {
            label: label.to_string(),
            total,
            enabled,
            is_tty: enabled && is_tty,
            count: 0,
            last_emit: None,
        }
    }

    fn emit(&self, count: u64) -> (r: String)
        ensures
            r@ == self@.line(count),
    {
        let mut text = self.label.clone();
        text.append(": ");
        text.append(decimal_text(count).as_str());
        match self.total {
            Some(t) => {
                text.append("/");
                text.append(decimal_text(t).as_str());
            },
            None => {},
        }
        if self.is_tty {
            let mut line = "\r\x1b[K".to_string();
            line.append(text.as_str());
            line
        } else {
            text.append("\n");
            text
        }
    }

    /// The stage has come on by `n` at the time `now`; gives what is to be
    /// written, if a report is due. The count goes on whether or not it is shown.
    pub fn update(&mut self, n: u64, now: u64) -> (r: Option<String>)
        ensures
            final(self)@.count == wrapped(old(self)@.count + n),
            final(self)@ == (ProgressV {
                count: final(self)@.count,
                last_emit: if old(self)@.enabled && old(self)@.due(now) {
                    Some(now)
                } else {
                    old(self)@.last_emit
                },
                ..old(self)@
            }),
            match r {
                Some(line) => old(self)@.enabled && old(self)@.due(now) && line@ == old(self)@.line(
                    wrapped(old(self)@.count + n),
                ),
                None => !(old(self)@.enabled && old(self)@.due(now)),
            },
    {
        self.count = plus_wrapping(self.count, n);
        if !self.enabled {
            return None;
        }
        let due: bool = match self.last_emit {
            None => true,
            Some(last) => now >= last && now - last >= PROGRESS_INTERVAL,
        };
        if due {
            self.last_emit = Some(now);
            let count: u64 = self.count;
            Some(self.emit(count))
        } else {
            None
        }
    }

    /// How far the stage has come.
    pub fn count(&self) -> (r: u64)
        ensures
            r == self@.count,
    {
        self.count
    }

    /// What is written at the end of the stage: the last count, and on a
    /// terminal the end of its line.
    pub fn close(&self) -> (r: Option<String>)
        ensures
            match r {
                Some(line) => self@.enabled && line@ == (if self@.is_tty {
                    self@.line(self@.count) + "\n"@
                } else {
                    self@.line(self@.count)
                }),
                None => !self@.enabled,
            },
    {
        if !self.enabled {
            return None;
        }
        let mut line = self.emit(self.count);
        if self.is_tty {
            line.append("\n");
        }
        Some(line)
    }
}

/// After a report none is due until the interval has passed.
pub proof fn law_reports_are_spaced(p: ProgressV, first: u64, second: u64)
    requires
        second < first + PROGRESS_INTERVAL,
    ensures
        !(ProgressV { last_emit: Some(first), ..p }).due(second),
{
}

} // verus!
