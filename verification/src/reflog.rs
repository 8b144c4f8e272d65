//! The text form of a log entry: one line of the log of a reference.

use vstd::prelude::*;
use vstd::string::StringExecFns;
use crate::object_id::hex_text;
use crate::refs::{LogEntryModel, ReflogEntry};
use crate::time::raw_text;

verus! {

/// The id that an entry names as the previous one, as text: the id itself,
/// or, where there was none, as many zeros as the new id has digits.
pub open spec fn previous_text(entry: LogEntryModel) -> Seq<char> {
    match entry.old {
        Some(id) => hex_text(id),
        None => hex_text(Seq::new(entry.new.len(), |i: int| 0u8)),
    }
}

/// The line of an entry: the previous id, the new id, who made the change,
/// the time in raw form, a tab, the message and a newline.
pub open spec fn reflog_line(entry: LogEntryModel, actor: Seq<char>) -> Seq<char> {
    previous_text(entry) + seq![' '] + hex_text(entry.new) + seq![' '] + actor + seq![' ']
        + raw_text(entry.timestamp) + seq!['\t'] + entry.message + seq!['\n']
}

impl ReflogEntry {
    /// The line that records this entry in a log, with `actor` as the one
    /// who made the change.
    pub fn to_line(&self, actor: &str) -> (line: String)
        ensures
            line@ == reflog_line(self@, actor@),
    {
        proof {
            reveal_strlit(" ");
            reveal_strlit("\t");
            reveal_strlit("\n");
        }
        let mut line = match &self.old {
            Some(id) => id.to_hex(),
            None => self.new.null_like().to_hex(),
        };
        assert(line@ == previous_text(self@));
        line.append(" ");
        line.append(self.new.to_hex().as_str());
        line.append(" ");
        line.append(actor);
        line.append(" ");
        line.append(self.timestamp.to_raw().as_str());
        line.append("\t");
        line.append(self.message.as_str());
        line.append("\n");
        assert(line@ =~= reflog_line(self@, actor@));
        line
    }
}

} // verus!
