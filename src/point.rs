use crate::timestamp::Timestamp;
use vstd::prelude::*;

verus! {

/// A cursor location in a document, and when it was recorded.
///
/// `line` and `column` count from 1 by convention; nothing here enforces it.
#[derive(Clone, Debug)]
pub struct JumpPoint {
    /// The full path to the document.
    pub filename: String,
    /// The line of the cursor.
    pub line: i64,
    /// The column of the cursor.
    pub column: i64,
    /// When the point was recorded.
    pub added: Timestamp,
}

/// The mathematical value of a [`JumpPoint`].
pub struct PointView {
    pub filename: Seq<char>,
    pub line: i64,
    pub column: i64,
    pub added: Timestamp,
}

impl View for JumpPoint {
    type V = PointView;

    open spec fn view(&self) -> PointView {
        PointView {
            filename: self.filename@,
            line: self.line,
            column: self.column,
            added: self.added,
        }
    }
}

impl JumpPoint {
    pub fn new(filename: String, line: i64, column: i64, added: Timestamp) -> (r: JumpPoint)
        ensures
            r.filename@ == filename@,
            r.line == line,
            r.column == column,
            r.added == added,
    {
        JumpPoint { filename, line, column, added }
    }
}

impl PartialEq for JumpPoint {
    fn eq(&self, other: &JumpPoint) -> (r: bool) {
        self.filename == other.filename && self.line == other.line && self.column
            == other.column && self.added == other.added
    }
}

impl vstd::std_specs::cmp::PartialEqSpecImpl for JumpPoint {
    open spec fn obeys_eq_spec() -> bool {
        true
    }

    open spec fn eq_spec(&self, other: &JumpPoint) -> bool {
        self@ == other@
    }
}

} // verus!
