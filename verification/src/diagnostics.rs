use vstd::prelude::*;

use crate::conflict::{
    Conflict, ConflictModel, conflict_lists_eq, conflict_wf, range_for_diagnostic_conflict,
    seq_models, spec_diagnostic_span,
};
use crate::position::Span;
use crate::store::{CacheModel, ConflictCache, cache_wf};

verus! {

/// One diagnostic: the span of a conflict, marker lines included, plus one
/// further line. The transport layer attaches the fixed message, source and
/// severity when it puts the diagnostic on the wire.
#[derive(Clone, Copy, Debug, PartialEq, Eq, Structural)]
pub struct Diagnostic {
    pub range: Span,
}

/// Whether a fresh parse must be republished, given what was last
/// published. Nothing is sent while no conflicts have ever been seen; an
/// empty list is sent once when conflicts disappear; a non-empty list is
/// sent whenever it differs from the last one sent.
pub open spec fn spec_should_publish(prev: CacheModel, cur: Seq<ConflictModel>) -> bool {
    match prev {
        CacheModel::Unparsed => cur.len() > 0,
        CacheModel::Empty => cur.len() > 0,
        CacheModel::Found(cs) => cur.len() == 0 || cs != cur,
    }
}

/// What the cache holds after reconciling a fresh parse: an empty result
/// collapses to `Unparsed` unless conflicts were just cleared, a non-empty
/// result is recorded as found.
pub open spec fn spec_next_cache(prev: CacheModel, cur: Seq<ConflictModel>) -> CacheModel {
    if cur.len() == 0 {
        if prev is Found {
            CacheModel::Empty
        } else {
            CacheModel::Unparsed
        }
    } else {
        CacheModel::Found(cur)
    }
}

/// Decides whether the fresh parse `current` must be published, given the
/// last-published cache `previous`.
pub fn should_publish(previous: &ConflictCache, current: &Vec<Conflict>) -> (r: bool)
    ensures
        r == spec_should_publish(previous@, seq_models(current@)),
{
    match previous {
        ConflictCache::Unparsed => current.len() > 0,
        ConflictCache::Empty => current.len() > 0,
        ConflictCache::Found(cs) => {
            if current.len() == 0 {
                true
            } else {
                !conflict_lists_eq(cs, current)
            }
        },
    }
}

/// Reconciles the cache with a fresh parse, consuming the parse.
pub fn next_cache(previous: &ConflictCache, current: Vec<Conflict>) -> (r: ConflictCache)
    requires
        forall|i: int| 0 <= i < current@.len() ==> conflict_wf(#[trigger] current@[i]@),
        forall|i: int|
            0 <= i && i + 1 < current@.len() ==> #[trigger] current@[i]@.theirs.end < current@[i
                + 1]@.ours.start,
    ensures
        r@ == spec_next_cache(previous@, seq_models(current@)),
        cache_wf(r@),
{
    if current.len() == 0 {
        match previous {
            ConflictCache::Found(_) => ConflictCache::Empty,
            _ => ConflictCache::Unparsed,
        }
    } else {
        proof {
            assert forall|i: int| 0 <= i < seq_models(current@).len() implies conflict_wf(
                #[trigger] seq_models(current@)[i],
            ) by {
                assert(seq_models(current@)[i] == current@[i]@);
            }
            assert forall|i: int|
                0 <= i && i + 1 < seq_models(current@).len() implies #[trigger] seq_models(
                current@,
            )[i].theirs.end < seq_models(current@)[i + 1].ours.start by {
                assert(seq_models(current@)[i] == current@[i]@);
                assert(seq_models(current@)[i + 1] == current@[i + 1]@);
            }
        }
        ConflictCache::Found(current)
    }
}

/// Builds one diagnostic per conflict, in order.
pub fn build_diagnostics(conflicts: &Vec<Conflict>) -> (r: Vec<Diagnostic>)
    requires
        forall|i: int| 0 <= i < conflicts@.len() ==> conflict_wf(#[trigger] conflicts@[i]@),
    ensures
        r@.len() == conflicts@.len(),
        forall|i: int|
            0 <= i < conflicts@.len() ==> #[trigger] r@[i].range == spec_diagnostic_span(
                conflicts@[i]@,
            ),
{
    let mut out: Vec<Diagnostic> = Vec::new();
    let n = conflicts.len();
    let mut i: usize = 0;
    while i < n
        invariant
            0 <= i <= n,
            n == conflicts@.len(),
            forall|k: int| 0 <= k < n ==> conflict_wf(#[trigger] conflicts@[k]@),
            out@.len() == i,
            forall|k: int|
                0 <= k < i ==> #[trigger] out@[k].range == spec_diagnostic_span(conflicts@[k]@),
        decreases n - i,
    {
        let span = range_for_diagnostic_conflict(&conflicts[i]);
        out.push(Diagnostic { range: span });
        i = i + 1;
    }
    out
}

/// No publication happens when a fresh parse repeats what the cache already
/// holds: a parse equal to the conflicts last published, or an empty parse
/// when none were published. An edit that leaves the set of conflicts
/// unchanged therefore never triggers a notification.
pub proof fn lemma_unchanged_conflicts_no_publish(prev: CacheModel, cur: Seq<ConflictModel>)
    requires
        cache_wf(prev),
        prev == CacheModel::Found(cur) || (cur.len() == 0 && (prev is Empty || prev is Unparsed)),
    ensures
        !spec_should_publish(prev, cur),
{
}

} // verus!
