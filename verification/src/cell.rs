//! The cell variant type and the placement conflict error.

use vstd::prelude::*;

use crate::digits::dec_str;
use crate::digits::push_dec;
use vstd::string::StringExecFns;

verus! {

/// One grid position: empty, the anchor of a rectangular span holding a value,
/// or a non-owning back-reference to the anchor whose span covers it.
#[derive(Clone, Debug)]
pub enum Cell<T> {
    Empty,
    Occupied { value: T, colspan: u32, rowspan: u32 },
    Shadowed { col: u32, row: u32 },
}

/// The one recoverable failure: the anchor position of a placement is already
/// covered by the span anchored at `(row, col)`.
#[derive(Debug)]
pub enum Error {
    Shadowed { col: u32, row: u32 },
}

/// The human-readable rendering of the conflict error naming the blocking anchor.
pub open spec fn message_spec(col: u32, row: u32) -> Seq<char> {
    "shadowed by cell at row "@ + dec_str(row as nat) + ", col "@ + dec_str(col as nat)
}

impl Error {
    /// A human-readable message naming the anchor that blocks the placement.
    pub fn message(&self) -> (s: String)
        ensures
            self matches Error::Shadowed { col, row } && s@ == message_spec(*col, *row),
    {
        match self {
            Error::Shadowed { col, row } => {
                let mut s = String::from_str("shadowed by cell at row ");
                push_dec(&mut s, *row);
                s.append(", col ");
                push_dec(&mut s, *col);
                proof {
                    assert(s@ =~= message_spec(*col, *row));
                }
                s
            },
        }
    }
}

} // verus!
