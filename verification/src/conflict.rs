use vstd::prelude::*;

use crate::position::Position;
use crate::position::Span;

verus! {

/// Mathematical model of one side of a conflict: the line of the marker that
/// opens the region, the line of the marker that terminates it, and the
/// optional label trailing the opening (or, for the lower side, closing)
/// marker.
pub ghost struct RegionModel {
    pub start: int,
    pub end: int,
    pub name: Option<Seq<u8>>,
}

/// Mathematical model of a whole conflict.
pub ghost struct ConflictModel {
    pub ours: RegionModel,
    pub theirs: RegionModel,
    pub ancestor: Option<RegionModel>,
    pub last_len: int,
}

/// One region of a conflict, delimited by marker lines.
///
/// `start` and `end` are 0-based line indices of the marker lines that open
/// and terminate the region; the region's content lines lie strictly between
/// them. `name` is the branch or other label trailing the marker, if any.
#[derive(Clone, Debug, PartialEq, Eq)]
pub struct ConflictRegion {
    pub start: u32,
    pub end: u32,
    pub name: Option<Vec<u8>>,
}

impl View for ConflictRegion {
    type V = RegionModel;

    open spec fn view(&self) -> RegionModel {
        RegionModel {
            start: self.start as int,
            end: self.end as int,
            name: match self.name {
                Some(n) => Some(n@),
                None => None,
            },
        }
    }
}

/// A merge conflict: an upper (ours) and a lower (theirs) region and, for the
/// diff3 style, the ancestor region between them.
///
/// The whole conflict spans the lines `ours.start ..= theirs.end`, marker
/// lines included. `last_char` is the byte length of the final marker line,
/// recorded so that the conflict's end position points one past that marker's
/// text.
#[derive(Clone, Debug, PartialEq, Eq)]
pub struct Conflict {
    pub ours: ConflictRegion,
    pub theirs: ConflictRegion,
    pub ancestor: Option<ConflictRegion>,
    pub last_char: u32,
}

impl View for Conflict {
    type V = ConflictModel;

    open spec fn view(&self) -> ConflictModel {
        ConflictModel {
            ours: self.ours@,
            theirs: self.theirs@,
            ancestor: match self.ancestor {
                Some(a) => Some(a@),
                None => None,
            },
            last_len: self.last_char as int,
        }
    }
}

/// Structural validity of a conflict: the regions are properly nested and
/// adjacent. The upper region ends where the ancestor (if any) starts, the
/// ancestor ends where the lower region starts, and every line index leaves
/// room for the one-past-the-end line of the diagnostic span.
pub open spec fn conflict_wf(c: ConflictModel) -> bool {
    &&& c.ours.start < c.ours.end <= c.theirs.start < c.theirs.end < u32::MAX
    &&& match c.ancestor {
        Some(a) => c.ours.end == a.start && a.end == c.theirs.start,
        None => c.ours.end == c.theirs.start,
    }
    &&& 0 <= c.ours.start
    &&& 0 <= c.last_len
}

/// The view of a sequence of conflicts, element by element.
pub open spec fn seq_models(s: Seq<Conflict>) -> Seq<ConflictModel> {
    s.map_values(|c: Conflict| c@)
}

pub proof fn lemma_seq_models_push(s: Seq<Conflict>, c: Conflict)
    ensures
        seq_models(s.push(c)) == seq_models(s).push(c@),
{
    assert(seq_models(s.push(c)) =~= seq_models(s).push(c@));
}

impl Conflict {
    /// Builds a classic two-sided conflict, checking the structural
    /// invariants.
    pub fn new(ours: ConflictRegion, theirs: ConflictRegion, last_char: u32) -> (r: Result<
        Self,
        InvalidConflict,
    >)
        ensures
            match r {
                Ok(c) => {
                    &&& c@ == (ConflictModel {
                        ours: ours@,
                        theirs: theirs@,
                        ancestor: None,
                        last_len: last_char as int,
                    })
                    &&& conflict_wf(c@)
                },
                Err(_) => !conflict_wf(
                    ConflictModel {
                        ours: ours@,
                        theirs: theirs@,
                        ancestor: None,
                        last_len: last_char as int,
                    },
                ),
            },
    {
        if ours.start < ours.end && ours.end == theirs.start && theirs.start < theirs.end
            && theirs.end < u32::MAX {
            Ok(Conflict { ours, theirs, ancestor: None, last_char })
        } else {
            Err(InvalidConflict)
        }
    }

    /// Builds a diff3-style conflict with an ancestor region, checking the
    /// structural invariants.
    pub fn new_with_ancestor(
        ours: ConflictRegion,
        theirs: ConflictRegion,
        ancestor: ConflictRegion,
        last_char: u32,
    ) -> (r: Result<Self, InvalidConflict>)
        ensures
            match r {
                Ok(c) => {
                    &&& c@ == (ConflictModel {
                        ours: ours@,
                        theirs: theirs@,
                        ancestor: Some(ancestor@),
                        last_len: last_char as int,
                    })
                    &&& conflict_wf(c@)
                },
                Err(_) => !conflict_wf(
                    ConflictModel {
                        ours: ours@,
                        theirs: theirs@,
                        ancestor: Some(ancestor@),
                        last_len: last_char as int,
                    },
                ),
            },
    {
        if ours.start < ours.end && ours.end == ancestor.start && ancestor.end == theirs.start
            && ours.end <= theirs.start && theirs.start < theirs.end && theirs.end < u32::MAX {
            Ok(Conflict { ours, theirs, ancestor: Some(ancestor), last_char })
        } else {
            Err(InvalidConflict)
        }
    }

    /// The position where the conflict begins: the first character of the
    /// opening marker line.
    pub fn start(&self) -> (r: Position)
        ensures
            r.line == self@.ours.start,
            r.character == 0,
    {
        Position { line: self.ours.start, character: 0 }
    }

    /// The position where the conflict ends: one past the last character of
    /// the closing marker's text.
    pub fn end(&self) -> (r: Position)
        ensures
            r.line == self@.theirs.end,
            r.character == self@.last_len,
    {
        Position { line: self.theirs.end, character: self.last_char }
    }

    /// Whether a requested span falls within this conflict: the span must
    /// start no earlier than the opening marker line and end no later than
    /// one line past the closing marker (or, past that, no later than the end
    /// position itself).
    pub fn is_in_range(&self, range: &Span) -> (r: bool)
        ensures
            r == spec_in_range(self@, *range),
    {
        if self.ours.start > range.start.line || self.theirs.end < range.start.line {
            return false;
        }
        if range.end.character == 0 && self.theirs.end as u64 + 1 >= range.end.line as u64 {
            return true;
        }
        self.theirs.end > range.end.line || (self.theirs.end == range.end.line && self.last_char
            >= range.end.character)
    }
}

/// Whether `range` is contained in the conflict `c`, as `is_in_range`
/// decides it.
pub open spec fn spec_in_range(c: ConflictModel, range: Span) -> bool {
    &&& c.ours.start <= range.start.line
    &&& range.start.line <= c.theirs.end
    &&& {
        ||| (range.end.character == 0 && c.theirs.end + 1 >= range.end.line)
        ||| (c.theirs.end > range.end.line)
        ||| (c.theirs.end == range.end.line && c.last_len >= range.end.character)
    }
}

/// Error returned when a conflict's regions do not satisfy the structural
/// invariants.
#[derive(Clone, Copy, Debug, PartialEq, Eq, Structural)]
pub struct InvalidConflict;

/// The span a diagnostic for this conflict covers: from the first character
/// of the opening marker line to the first character one line past the
/// closing marker line, so that replacing the span removes the marker lines
/// without leaving a dangling blank line.
pub fn range_for_diagnostic_conflict(conflict: &Conflict) -> (r: Span)
    requires
        conflict_wf(conflict@),
    ensures
        r == spec_diagnostic_span(conflict@),
{
    Span {
        start: Position { line: conflict.ours.start, character: 0 },
        end: Position { line: conflict.theirs.end + 1, character: 0 },
    }
}

/// The diagnostic span of a conflict: its whole extent, marker lines
/// included, plus one further line.
pub open spec fn spec_diagnostic_span(c: ConflictModel) -> Span {
    Span {
        start: Position { line: c.ours.start as u32, character: 0 },
        end: Position { line: (c.theirs.end + 1) as u32, character: 0 },
    }
}

/// Byte-wise equality of two vectors.
pub fn bytes_eq(a: &Vec<u8>, b: &Vec<u8>) -> (r: bool)
    ensures
        r == (a@ == b@),
{
    if a.len() != b.len() {
        assert(a@ != b@);
        return false;
    }
    let n = a.len();
    let mut i: usize = 0;
    while i < n
        invariant
            n == a@.len() == b@.len(),
            0 <= i <= n,
            forall|k: int| 0 <= k < i ==> a@[k] == b@[k],
        decreases n - i,
    {
        if a[i] != b[i] {
            return false;
        }
        i = i + 1;
    }
    proof {
        assert(a@ =~= b@);
    }
    true
}

/// Equality of two optional labels, by content.
pub fn names_eq(a: &Option<Vec<u8>>, b: &Option<Vec<u8>>) -> (r: bool)
    ensures
        r == (spec_name_model(*a) == spec_name_model(*b)),
{
    match (a, b) {
        (None, None) => true,
        (Some(x), Some(y)) => {
            let same = bytes_eq(x, y);
            proof {
                if !same {
                    assert(spec_name_model(*a) != spec_name_model(*b));
                }
            }
            same
        },
        _ => false,
    }
}

/// The model of an optional label.
pub open spec fn spec_name_model(n: Option<Vec<u8>>) -> Option<Seq<u8>> {
    match n {
        Some(v) => Some(v@),
        None => None,
    }
}

/// Equality of two regions, by content.
pub fn regions_eq(a: &ConflictRegion, b: &ConflictRegion) -> (r: bool)
    ensures
        r == (a@ == b@),
{
    let same = a.start == b.start && a.end == b.end && names_eq(&a.name, &b.name);
    proof {
        if !same {
            assert(a@ != b@);
        }
    }
    same
}

/// Equality of two conflicts, by content.
pub fn conflicts_eq(a: &Conflict, b: &Conflict) -> (r: bool)
    ensures
        r == (a@ == b@),
{
    let ancestors_same = match (&a.ancestor, &b.ancestor) {
        (None, None) => true,
        (Some(x), Some(y)) => regions_eq(x, y),
        _ => false,
    };
    let same = regions_eq(&a.ours, &b.ours) && regions_eq(&a.theirs, &b.theirs) && ancestors_same
        && a.last_char == b.last_char;
    proof {
        if !same {
            assert(a@ != b@);
        }
    }
    same
}

/// Equality of two conflict lists, by content.
pub fn conflict_lists_eq(a: &Vec<Conflict>, b: &Vec<Conflict>) -> (r: bool)
    ensures
        r == (seq_models(a@) == seq_models(b@)),
{
    if a.len() != b.len() {
        assert(seq_models(a@).len() != seq_models(b@).len());
        return false;
    }
    let n = a.len();
    let mut i: usize = 0;
    while i < n
        invariant
            n == a@.len() == b@.len(),
            0 <= i <= n,
            forall|k: int| 0 <= k < i ==> seq_models(a@)[k] == seq_models(b@)[k],
        decreases n - i,
    {
        if !conflicts_eq(&a[i], &b[i]) {
            assert(seq_models(a@)[i as int] != seq_models(b@)[i as int]);
            return false;
        }
        i = i + 1;
    }
    proof {
        assert(seq_models(a@) =~= seq_models(b@));
    }
    true
}

} // verus!
