use vstd::prelude::*;

use crate::actions::{CodeAction, actions_match, conflict_as_code_actions};
use crate::conflict::{Conflict, ConflictModel, spec_diagnostic_span, spec_in_range};
use crate::diagnostics::{
    Diagnostic, build_diagnostics, next_cache, should_publish, spec_next_cache,
    spec_should_publish,
};
use crate::edits::{TextChange, apply_changes, change_models, spec_apply_changes};
use crate::position::Span;
use crate::scanner::{lines_of, scan, scan_spec};
use crate::store::{
    CacheModel, ConflictCache, DocModel, Document, DocumentState, DocumentStore, cache_wf,
};

verus! {

/// What a finished reparse asks the transport layer to send: the version
/// the diagnostics were computed for, and one diagnostic per conflict.
#[derive(Debug)]
pub struct DiagnosticsUpdate {
    pub version: i32,
    pub diagnostics: Vec<Diagnostic>,
}

/// The conflicts a cache records as found, or the empty sequence.
pub open spec fn found_list(c: CacheModel) -> Seq<ConflictModel> {
    match c {
        CacheModel::Found(cs) => cs,
        _ => Seq::empty(),
    }
}

/// The first conflict of `cs` whose span contains `range`, by index.
pub open spec fn spec_first_in_range(cs: Seq<ConflictModel>, range: Span) -> Option<int>
    decreases cs.len(),
{
    if cs.len() == 0 {
        None
    } else if spec_in_range(cs[0], range) {
        Some(0int)
    } else {
        match spec_first_in_range(cs.skip(1), range) {
            Some(k) => Some(k + 1),
            None => None,
        }
    }
}

/// The session engine: the open documents and whether shutdown has been
/// requested. The transport layer drives it from the single inbound reader,
/// shares the store with reparse workers under one lock, and performs the
/// sends it decides on.
#[derive(Debug)]
pub struct MergeConflictAssistant {
    pub shutdown_requested: bool,
    pub documents: DocumentStore,
}

impl MergeConflictAssistant {
    pub open spec fn wf(&self) -> bool {
        self.documents.wf()
    }

    /// A fresh session: no documents, shutdown not requested.
    pub fn new() -> (r: MergeConflictAssistant)
        ensures
            r.wf(),
            !r.shutdown_requested,
            r.documents.docs@.len() == 0,
    {
        MergeConflictAssistant { shutdown_requested: false, documents: DocumentStore::new() }
    }

    /// A document was opened: track it, unparsed, unless the identifier is
    /// already tracked — a duplicate open never clobbers existing state.
    /// The caller enqueues a reparse either way.
    pub fn on_did_open(&mut self, uri: Vec<u8>, version: i32, text: Vec<u8>)
        requires
            old(self).wf(),
        ensures
            final(self).wf(),
            final(self).shutdown_requested == old(self).shutdown_requested,
            old(self).documents.spec_contains(uri@) ==> final(self).documents == old(self).documents,
            !old(self).documents.spec_contains(uri@) ==> {
                &&& final(self).documents.spec_contains(uri@)
                &&& final(self).documents.spec_get(uri@) == (DocModel {
                    content: text@,
                    version: version as int,
                    cache: CacheModel::Unparsed,
                })
            },
            forall|u: Seq<u8>|
                u != uri@ ==> final(self).documents.spec_contains(u) == old(self).documents.spec_contains(u),
            forall|u: Seq<u8>|
                u != uri@ && old(self).documents.spec_contains(u) ==> final(self).documents.spec_get(u) == old(self).documents.spec_get(u),
    {
        match self.documents.index_of(&uri) {
            Some(_) => {},
            None => {
                let n = self.documents.docs.len();
                self.documents.insert_at(
                    n,
                    Document {
                        uri,
                        state: DocumentState {
                            content: text,
                            version,
                            conflicts: ConflictCache::Unparsed,
                        },
                    },
                );
            },
        }
    }

    /// A document changed: apply the batch of edits and record the new
    /// version, then let the caller enqueue a reparse. A change for an
    /// untracked document, or one whose version is older than the stored
    /// one, is ignored and leaves the stored content untouched.
    pub fn on_did_change(&mut self, uri: &Vec<u8>, version: i32, changes: &Vec<TextChange>) -> (accepted:
        bool)
        requires
            old(self).wf(),
        ensures
            final(self).wf(),
            final(self).shutdown_requested == old(self).shutdown_requested,
            accepted == (old(self).documents.spec_contains(uri@) && (version as int) >= old(self).documents.spec_get(uri@).version),
            forall|u: Seq<u8>|
                final(self).documents.spec_contains(u) == old(self).documents.spec_contains(u),
            forall|u: Seq<u8>|
                u != uri@ && old(self).documents.spec_contains(u) ==> final(self).documents.spec_get(u) == old(self).documents.spec_get(u),
            !accepted && old(self).documents.spec_contains(uri@) ==> final(self).documents.spec_get(uri@) == old(self).documents.spec_get(uri@),
            accepted ==> final(self).documents.spec_get(uri@) == (DocModel {
                content: spec_apply_changes(
                    old(self).documents.spec_get(uri@).content,
                    change_models(changes@),
                ),
                version: version as int,
                cache: old(self).documents.spec_get(uri@).cache,
            }),
    {
        match self.documents.index_of(uri) {
            None => false,
            Some(i) => {
                proof {
                    self.documents.lemma_get_at(i as int);
                }
                let dref = &self.documents.docs[i];
                if version < dref.state.version {
                    return false;
                }
                let d = self.documents.remove_at(i);
                let new_content = apply_changes(&d.state.content, changes);
                let nd = Document {
                    uri: d.uri,
                    state: DocumentState {
                        content: new_content,
                        version,
                        conflicts: d.state.conflicts,
                    },
                };
                self.documents.insert_at(i, nd);
                true
            },
        }
    }

    /// A document was closed: forget it entirely. A reparse worker that
    /// still holds its identifier finds no entry and does nothing.
    pub fn on_did_close(&mut self, uri: &Vec<u8>)
        requires
            old(self).wf(),
        ensures
            final(self).wf(),
            final(self).shutdown_requested == old(self).shutdown_requested,
            !final(self).documents.spec_contains(uri@),
            forall|u: Seq<u8>|
                u != uri@ ==> final(self).documents.spec_contains(u) == old(self).documents.spec_contains(u),
            forall|u: Seq<u8>|
                u != uri@ && old(self).documents.spec_contains(u) ==> final(self).documents.spec_get(u) == old(self).documents.spec_get(u),
    {
        match self.documents.index_of(uri) {
            None => {},
            Some(i) => {
                let _d = self.documents.remove_at(i);
            },
        }
    }

    /// A shutdown request arrived: remember it, and tell the caller whether
    /// one had arrived before. The first request and every later one are
    /// acknowledged alike; only the transport closing ends the session.
    pub fn on_shutdown(&mut self) -> (already: bool)
        requires
            old(self).wf(),
        ensures
            final(self).wf(),
            final(self).shutdown_requested,
            already == old(self).shutdown_requested,
            final(self).documents == old(self).documents,
    {
        let already = self.shutdown_requested;
        self.shutdown_requested = true;
        already
    }

    /// A reparse worker finished looking at `uri`: rescan the stored
    /// content, decide from the cached parse whether diagnostics must be
    /// republished, update the cache and version, and hand back what to
    /// send, if anything. A worker for a closed document, or one whose
    /// version is older than the stored one, does nothing.
    pub fn on_document_update(&mut self, uri: &Vec<u8>, version: i32) -> (r: Option<
        DiagnosticsUpdate,
    >)
        requires
            old(self).wf(),
        ensures
            final(self).wf(),
            final(self).shutdown_requested == old(self).shutdown_requested,
            forall|u: Seq<u8>|
                final(self).documents.spec_contains(u) == old(self).documents.spec_contains(u),
            forall|u: Seq<u8>|
                u != uri@ && old(self).documents.spec_contains(u) ==> final(self).documents.spec_get(u) == old(self).documents.spec_get(u),
            ({
                let had = old(self).documents.spec_contains(uri@);
                let prev = old(self).documents.spec_get(uri@);
                if !had {
                    r is None
                } else if (version as int) < prev.version || prev.content.len() >= u32::MAX {
                    r is None && final(self).documents.spec_get(uri@) == prev
                } else {
                    let cur = scan_spec(lines_of(prev.content));
                    let publish = spec_should_publish(prev.cache, cur);
                    &&& final(self).documents.spec_get(uri@) == (DocModel {
                        content: prev.content,
                        version: version as int,
                        cache: spec_next_cache(prev.cache, cur),
                    })
                    &&& match r {
                        Some(upd) => {
                            &&& publish
                            &&& upd.version == version
                            &&& upd.diagnostics@.len() == cur.len()
                            &&& forall|k: int|
                                0 <= k < cur.len() ==> (#[trigger] upd.diagnostics@[k]).range
                                    == spec_diagnostic_span(cur[k])
                        },
                        None => !publish,
                    }
                }
            }),
    {
        match self.documents.index_of(uri) {
            None => None,
            Some(i) => {
                proof {
                    self.documents.lemma_get_at(i as int);
                }
                let dref = &self.documents.docs[i];
                if version < dref.state.version {
                    return None;
                }
                if dref.state.content.len() as u64 >= u32::MAX as u64 {
                    return None;
                }
                let d = self.documents.remove_at(i);
                let ghost prev = d.state@;
                let (conflicts, _complete) = scan(&d.state.content);
                let ghost cur = scan_spec(lines_of(prev.content));
                let publish = should_publish(&d.state.conflicts, &conflicts);
                let diags = if publish {
                    Some(build_diagnostics(&conflicts))
                } else {
                    None
                };
                proof {
                    if diags is Some {
                        let ds = diags->0;
                        assert forall|k: int| 0 <= k < cur.len() implies (
                        #[trigger] ds@[k]).range == spec_diagnostic_span(cur[k]) by {
                            assert(conflicts@[k]@ == cur[k]);
                        }
                    }
                }
                let cache = next_cache(&d.state.conflicts, conflicts);
                let nd = Document {
                    uri: d.uri,
                    state: DocumentState { content: d.state.content, version, conflicts: cache },
                };
                self.documents.insert_at(i, nd);
                match diags {
                    Some(ds) => Some(DiagnosticsUpdate { version, diagnostics: ds }),
                    None => None,
                }
            },
        }
    }

    /// A code-action request arrived: against the last stored parse — never
    /// a fresh one — find the first conflict whose span contains the
    /// requested range and offer its quick fixes. An untracked document, a
    /// document without a stored parse, or a range inside no conflict gets
    /// an empty answer.
    pub fn on_code_action(&self, uri: &Vec<u8>, range: &Span) -> (r: Vec<CodeAction>)
        requires
            self.wf(),
        ensures
            ({
                let had = self.documents.spec_contains(uri@);
                let doc = self.documents.spec_get(uri@);
                if had && doc.cache is Found {
                    match spec_first_in_range(found_list(doc.cache), *range) {
                        Some(k) => actions_match(r@, doc.content, found_list(doc.cache)[k]),
                        None => r@.len() == 0,
                    }
                } else {
                    r@.len() == 0
                }
            }),
    {
        match self.documents.index_of(uri) {
            None => Vec::new(),
            Some(i) => {
                proof {
                    self.documents.lemma_get_at(i as int);
                }
                let dref = &self.documents.docs[i];
                match &dref.state.conflicts {
                    ConflictCache::Found(cs) => {
                        let ghost cm = found_list(dref.state@.cache);
                        proof {
                            assert(cm.skip(0) =~= cm);
                        }
                        let n = cs.len();
                        let mut k: usize = 0;
                        while k < n
                            invariant
                                0 <= k <= n,
                                n == cs@.len(),
                                self.documents.spec_contains(uri@),
                                self.documents.spec_get(uri@) == dref.state@,
                                cm == found_list(dref.state@.cache),
                                cm.len() == n,
                                forall|j: int| 0 <= j < n ==> #[trigger] cm[j] == cs@[j]@,
                                cache_wf(dref.state@.cache),
                                dref.state@.cache is Found,
                                spec_first_in_range(cm, *range) == match spec_first_in_range(
                                    cm.skip(k as int),
                                    *range,
                                ) {
                                    Some(j) => Some(j + k),
                                    None => None::<int>,
                                },
                            decreases n - k,
                        {
                            proof {
                                assert(cm.skip(k as int)[0] == cm[k as int]);
                                assert(cm.skip(k as int).skip(1) =~= cm.skip(k as int + 1));
                            }
                            if cs[k].is_in_range(range) {
                                let acts = conflict_as_code_actions(&cs[k], &dref.state.content);
                                proof {
                                    assert(spec_first_in_range(cm, *range) == Some(k as int));
                                }
                                return acts;
                            }
                            k = k + 1;
                        }
                        proof {
                            assert(cm.skip(n as int) =~= Seq::<ConflictModel>::empty());
                        }
                        Vec::new()
                    },
                    _ => Vec::new(),
                }
            },
        }
    }
}

} // verus!
