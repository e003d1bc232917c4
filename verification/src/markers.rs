use vstd::prelude::*;

use crate::conflict::{ConflictModel, seq_models, spec_name_model};
use crate::edits::copy_bytes;
use crate::position::{Position, Span};
use crate::scanner::{lines_of, scan, scan_complete, scan_spec};

verus! {

/// One conflict, recorded as the lines of its marker lines: the opening
/// marker (`head`), the separator (`branch`), the optional diff3 ancestor
/// marker, and the closing marker (`end`).
#[derive(Clone, Copy, Debug, PartialEq, Eq)]
pub struct ConflictRegion {
    pub head: u32,
    pub branch: u32,
    pub ancestor: Option<u32>,
    pub end: u32,
}

/// The marker-line record of a scanned conflict.
pub open spec fn marker_of(c: ConflictModel) -> ConflictRegion {
    ConflictRegion {
        head: c.ours.start as u32,
        branch: c.theirs.start as u32,
        ancestor: match c.ancestor {
            Some(a) => Some(a.start as u32),
            None => None,
        },
        end: c.theirs.end as u32,
    }
}

impl ConflictRegion {
    /// The lines of the upper side: from the opening marker to the ancestor
    /// marker if present, else to the separator.
    pub fn head_range(&self) -> (r: (u32, u32))
        ensures
            r.0 == self.head,
            r.1 == match self.ancestor {
                Some(a) => a,
                None => self.branch,
            },
    {
        let end = match self.ancestor {
            Some(a) => a,
            None => self.branch,
        };
        (self.head, end)
    }

    /// The lines of the lower side: from the separator to the closing
    /// marker.
    pub fn branch_range(&self) -> (r: (u32, u32))
        ensures
            r.0 == self.branch,
            r.1 == self.end,
    {
        (self.branch, self.end)
    }

    /// The lines of the ancestor side, when the conflict has one: from the
    /// ancestor marker to the separator.
    pub fn ancestor_range(&self) -> (r: Option<(u32, u32)>)
        ensures
            r == match self.ancestor {
                Some(a) => Some((a, self.branch)),
                None => None::<(u32, u32)>,
            },
    {
        match self.ancestor {
            Some(a) => Some((a, self.branch)),
            None => None,
        }
    }

    /// Whether a requested span falls within this conflict: it must start
    /// between the opening and closing marker lines and end no later than
    /// one line past the closing marker.
    pub fn is_in_range(&self, range: &Span) -> (r: bool)
        ensures
            r == spec_marker_in_range(*self, *range),
    {
        self.head <= range.start.line && self.end >= range.start.line && (self.end as u64 + 1
            >= range.end.line as u64)
    }
}

/// Whether `range` is contained in the marker region `c`, as `is_in_range`
/// decides it.
pub open spec fn spec_marker_in_range(c: ConflictRegion, range: Span) -> bool {
    &&& c.head <= range.start.line
    &&& range.start.line <= c.end
    &&& c.end + 1 >= range.end.line
}

/// The span a diagnostic for this conflict covers: from the first character
/// of the opening marker line to the first character one line past the
/// closing marker line.
pub fn range_for_diagnostic_conflict(conflict: &ConflictRegion) -> (r: Span)
    requires
        conflict.end < u32::MAX,
    ensures
        r.start.line == conflict.head,
        r.start.character == 0,
        r.end.line == conflict.end + 1,
        r.end.character == 0,
{
    Span {
        start: Position { line: conflict.head, character: 0 },
        end: Position { line: conflict.end + 1, character: 0 },
    }
}

/// All conflicts of a document, with the first label seen for each marker
/// role. The labels are shared over the whole document: the first non-empty
/// label of an opening marker, of a closing marker, and of an ancestor
/// marker.
#[derive(Clone, Debug, PartialEq, Eq)]
pub struct MergeConflict {
    pub head: Option<Vec<u8>>,
    pub branch: Option<Vec<u8>>,
    pub ancestor: Option<Vec<u8>>,
    pub conflicts: Vec<ConflictRegion>,
}

impl MergeConflict {
    /// The marker regions, in ascending document order.
    pub fn conflicts(&self) -> (r: &Vec<ConflictRegion>)
        ensures
            r@ == self.conflicts@,
    {
        &self.conflicts
    }
}

/// The label of the ancestor marker of a conflict, when both exist.
pub open spec fn ancestor_name_of(c: ConflictModel) -> Option<Seq<u8>> {
    match c.ancestor {
        Some(a) => a.name,
        None => None,
    }
}

/// The first opening-marker label of the conflicts of `cs`, in document
/// order.
pub open spec fn first_head_name(cs: Seq<ConflictModel>) -> Option<Seq<u8>>
    decreases cs.len(),
{
    if cs.len() == 0 {
        None
    } else if cs[0].ours.name is Some {
        cs[0].ours.name
    } else {
        first_head_name(cs.skip(1))
    }
}

/// The first closing-marker label of the conflicts of `cs`, in document
/// order.
pub open spec fn first_branch_name(cs: Seq<ConflictModel>) -> Option<Seq<u8>>
    decreases cs.len(),
{
    if cs.len() == 0 {
        None
    } else if cs[0].theirs.name is Some {
        cs[0].theirs.name
    } else {
        first_branch_name(cs.skip(1))
    }
}

/// The first ancestor-marker label of the conflicts of `cs`, in document
/// order.
pub open spec fn first_ancestor_name(cs: Seq<ConflictModel>) -> Option<Seq<u8>>
    decreases cs.len(),
{
    if cs.len() == 0 {
        None
    } else if ancestor_name_of(cs[0]) is Some {
        ancestor_name_of(cs[0])
    } else {
        first_ancestor_name(cs.skip(1))
    }
}

/// Error: the document's tail opened a conflict whose markers never close.
#[derive(Clone, Copy, Debug, PartialEq, Eq, Structural)]
pub struct IncompleteConflict;

/// Scans `text` and returns its conflicts as marker records, or nothing
/// when the document holds none; a document whose trailing conflict never
/// closes is rejected as a whole.
pub fn parse(text: &Vec<u8>) -> (r: Result<Option<MergeConflict>, IncompleteConflict>)
    requires
        text@.len() < u32::MAX,
    ensures
        ({
            let cs = scan_spec(lines_of(text@));
            match r {
                Err(_) => !scan_complete(lines_of(text@)),
                Ok(None) => scan_complete(lines_of(text@)) && cs.len() == 0,
                Ok(Some(mc)) => {
                    &&& scan_complete(lines_of(text@))
                    &&& cs.len() > 0
                    &&& mc.conflicts@.len() == cs.len()
                    &&& forall|i: int|
                        0 <= i < cs.len() ==> #[trigger] mc.conflicts@[i] == marker_of(cs[i])
                    &&& spec_name_model(mc.head) == first_head_name(cs)
                    &&& spec_name_model(mc.branch) == first_branch_name(cs)
                    &&& spec_name_model(mc.ancestor) == first_ancestor_name(cs)
                },
            }
        }),
{
    let (found, complete) = scan(text);
    let ghost cs = seq_models(found@);
    if !complete {
        return Err(IncompleteConflict);
    }
    if found.len() == 0 {
        return Ok(None);
    }
    proof {
        assert(cs.skip(0) =~= cs);
    }
    let mut regions: Vec<ConflictRegion> = Vec::new();
    let mut head: Option<Vec<u8>> = None;
    let mut branch: Option<Vec<u8>> = None;
    let mut ancestor: Option<Vec<u8>> = None;
    let n = found.len();
    let mut i: usize = 0;
    while i < n
        invariant
            n == found@.len(),
            0 <= i <= n,
            cs == seq_models(found@),
            cs.len() == n,
            regions@.len() == i,
            forall|k: int| 0 <= k < i ==> #[trigger] regions@[k] == marker_of(cs[k]),
            spec_name_model(head) is Some ==> first_head_name(cs) == spec_name_model(head),
            spec_name_model(head) is None ==> first_head_name(cs) == first_head_name(
                cs.skip(i as int),
            ),
            spec_name_model(branch) is Some ==> first_branch_name(cs) == spec_name_model(branch),
            spec_name_model(branch) is None ==> first_branch_name(cs) == first_branch_name(
                cs.skip(i as int),
            ),
            spec_name_model(ancestor) is Some ==> first_ancestor_name(cs) == spec_name_model(
                ancestor,
            ),
            spec_name_model(ancestor) is None ==> first_ancestor_name(cs) == first_ancestor_name(
                cs.skip(i as int),
            ),
        decreases n - i,
    {
        proof {
            let rest = cs.skip(i as int);
            assert(rest[0] == cs[i as int]);
            assert(rest.skip(1) =~= cs.skip(i as int + 1));
            assert(cs[i as int] == found@[i as int]@);
        }
        let c = &found[i];
        let anc = match &c.ancestor {
            Some(a) => Some(a.start),
            None => None,
        };
        regions.push(
            ConflictRegion { head: c.ours.start, branch: c.theirs.start, ancestor: anc, end: c.theirs.end },
        );
        proof {
            assert(regions@[i as int] == marker_of(cs[i as int]));
        }
        if head.is_none() {
            match &c.ours.name {
                Some(nm) => {
                    head = Some(copy_bytes(nm));
                },
                None => {},
            }
        }
        if branch.is_none() {
            match &c.theirs.name {
                Some(nm) => {
                    branch = Some(copy_bytes(nm));
                },
                None => {},
            }
        }
        if ancestor.is_none() {
            match &c.ancestor {
                Some(a) => {
                    match &a.name {
                        Some(nm) => {
                            ancestor = Some(copy_bytes(nm));
                        },
                        None => {},
                    }
                },
                None => {},
            }
        }
        i = i + 1;
    }
    proof {
        assert(cs.skip(n as int) =~= Seq::<ConflictModel>::empty());
    }
    Ok(Some(MergeConflict { head, branch, ancestor, conflicts: regions }))
}

} // verus!
