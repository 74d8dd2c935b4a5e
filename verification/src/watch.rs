//! What the mapping watcher reports as it checks the live keymap again and
//! again: each failure once, until something else happens.

use vstd::prelude::*;
use vstd::string::*;
use crate::text::{decimal, decimal_of, string_of};

verus! {

/// What the watcher does after a check of the live keymap.
pub enum Verdict {
    /// Nothing to do.
    Quiet,
    /// Some mappings drifted: wait a moment, read the rules again and
    /// check again before reconciling.
    Recheck,
    /// Print this line.
    Report(String),
}

/// The watcher's memory: the last failure it reported.
pub struct Watch {
    last_error: String,
}

/// The line printed after reconciling.
pub open spec fn reapplied_text(changed: nat) -> Seq<char> {
    "Reapplied "@ + decimal(changed) + " saved key mapping(s)."@
}

/// The line printed when the live keymap could not be checked.
pub open spec fn inspect_failed_text(e: Seq<char>) -> Seq<char> {
    "Could not inspect saved mappings: "@ + e
}

/// The line printed when reconciling failed.
pub open spec fn reapply_failed_text(e: Seq<char>) -> Seq<char> {
    "Could not reapply saved mappings: "@ + e
}

impl Watch {
    /// The last failure reported, or empty.
    pub closed spec fn last(&self) -> Seq<char> {
        self.last_error@
    }

    /// A watcher that has reported nothing.
    pub fn new() -> (w: Watch)
        ensures
            w.last() == Seq::<char>::empty(),
    {
        Watch { last_error: String::new() }
    }

    /// After a check of the live keymap: no drift forgets the last failure;
    /// drift calls for a second check; a failure is reported unless it is
    /// the one reported last.
    pub fn inspected(&mut self, found: &Result<Vec<u16>, String>) -> (v: Verdict)
        ensures
            match found {
                Ok(d) => if d@.len() == 0 {
                    v is Quiet && final(self).last() == Seq::<char>::empty()
                } else {
                    v is Recheck && final(self).last() == old(self).last()
                },
                Err(e) => if e@ == old(self).last() {
                    v is Quiet && final(self).last() == old(self).last()
                } else {
                    (v matches Verdict::Report(line) && line@ == inspect_failed_text(e@))
                        && final(self).last() == e@
                },
            },
    {
        match found {
            Ok(d) => {
                if d.len() == 0 {
                    self.last_error = String::new();
                    Verdict::Quiet
                } else {
                    Verdict::Recheck
                }
            },
            Err(e) => {
                if *e == self.last_error {
                    Verdict::Quiet
                } else {
                    self.last_error = e.clone();
                    let mut line = "Could not inspect saved mappings: ".to_owned();
                    line.append(e.as_str());
                    Verdict::Report(line)
                }
            },
        }
    }

    /// After reconciling: success is reported and forgets the last failure;
    /// a failure is reported unless it is the one reported last.
    pub fn reconciled(&mut self, result: &Result<usize, String>) -> (line: Option<String>)
        ensures
            match result {
                Ok(c) => (line matches Some(l) && l@ == reapplied_text(*c as nat)) && final(self).last()
                    == Seq::<char>::empty(),
                Err(e) => if e@ == old(self).last() {
                    line is None && final(self).last() == old(self).last()
                } else {
                    (line matches Some(l) && l@ == reapply_failed_text(e@)) && final(self).last()
                        == e@
                },
            },
    {
        match result {
            Ok(c) => {
                self.last_error = String::new();
                let mut l = "Reapplied ".to_owned();
                l.append(string_of(&decimal_of(*c as u64)).as_str());
                l.append(" saved key mapping(s).");
                Some(l)
            },
            Err(e) => {
                if *e == self.last_error {
                    None
                } else {
                    self.last_error = e.clone();
                    let mut l = "Could not reapply saved mappings: ".to_owned();
                    l.append(e.as_str());
                    Some(l)
                }
            },
        }
    }
}

} // verus!
