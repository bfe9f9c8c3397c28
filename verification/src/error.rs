//! The failures that end a routing pass.

use vstd::prelude::*;
use crate::decimal::{append_decimal, append_signed_decimal, decimal, signed_decimal};

verus! {

/// Why a split of FASTQ files could not be made.
#[derive(Debug, Clone, Copy, PartialEq, Eq, Structural)]
pub enum SplitError {
    /// The number of bins is zero.
    NoBins,
    /// The identifier of the record at position `record` of the input at
    /// position `file` is too long to be hashed.
    IdTooLong { file: usize, record: usize },
}

/// Why a pass over aligned reads failed.
#[derive(Debug, Clone, Copy, PartialEq, Eq, Structural)]
pub enum RouteError {
    /// The record at position `record` cites the reference index `tid`, which
    /// is no position of a target table with `targets` entries. The input and
    /// its header do not belong together.
    OutOfRangeReference { record: usize, tid: i32, targets: usize },
}

impl SplitError {
    /// The failure in words.
    pub open spec fn text(self) -> Seq<char> {
        match self {
            SplitError::NoBins => "the number of bins must be positive"@,
            SplitError::IdTooLong { file, record } => "the identifier of record "@ + decimal(
                record as nat,
            ) + " of input "@ + decimal(file as nat) + " is too long to be hashed"@,
        }
    }

    /// Tells the failure in words.
    pub fn message(&self) -> (msg: String)
        ensures
            msg@ == self.text(),
    {
        match self {
            SplitError::NoBins => String::from_str("the number of bins must be positive"),
            SplitError::IdTooLong { file, record } => {
                let mut msg = String::from_str("the identifier of record ");
                append_decimal(&mut msg, *record as u64);
                msg.append(" of input ");
                append_decimal(&mut msg, *file as u64);
                msg.append(" is too long to be hashed");
                msg
            },
        }
    }
}

impl RouteError {
    /// The failure in words.
    pub open spec fn text(self) -> Seq<char> {
        match self {
            RouteError::OutOfRangeReference { record, tid, targets } => "record "@ + decimal(
                record as nat,
            ) + " cites reference index "@ + signed_decimal(tid as int)
                + ", but the target table has "@ + decimal(targets as nat) + " entries"@,
        }
    }

    /// Tells the failure in words.
    pub fn message(&self) -> (msg: String)
        ensures
            msg@ == self.text(),
    {
        match self {
            RouteError::OutOfRangeReference { record, tid, targets } => {
                let mut msg = String::from_str("record ");
                append_decimal(&mut msg, *record as u64);
                msg.append(" cites reference index ");
                append_signed_decimal(&mut msg, *tid);
                msg.append(", but the target table has ");
                append_decimal(&mut msg, *targets as u64);
                msg.append(" entries");
                msg
            },
        }
    }
}

} // verus!
