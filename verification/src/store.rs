use vstd::prelude::*;

use crate::conflict::{Conflict, ConflictModel, bytes_eq, conflict_wf, seq_models};

verus! {

/// What is known of a document's conflicts: nothing since the last relevant
/// event, a parse that found none, or a parse that found some.
#[derive(Debug)]
pub enum ConflictCache {
    Unparsed,
    Empty,
    Found(Vec<Conflict>),
}

/// Mathematical model of the cache.
pub ghost enum CacheModel {
    Unparsed,
    Empty,
    Found(Seq<ConflictModel>),
}

impl View for ConflictCache {
    type V = CacheModel;

    open spec fn view(&self) -> CacheModel {
        match self {
            ConflictCache::Unparsed => CacheModel::Unparsed,
            ConflictCache::Empty => CacheModel::Empty,
            ConflictCache::Found(cs) => CacheModel::Found(seq_models(cs@)),
        }
    }
}

/// Shape validity of a cache: conflicts are only recorded as found when
/// there is at least one, each is well-formed, and they are ordered without
/// overlap.
pub open spec fn cache_wf(c: CacheModel) -> bool {
    match c {
        CacheModel::Found(cs) => {
            &&& cs.len() > 0
            &&& forall|i: int| 0 <= i < cs.len() ==> conflict_wf(#[trigger] cs[i])
            &&& forall|i: int|
                0 <= i && i + 1 < cs.len() ==> #[trigger] cs[i].theirs.end < cs[i + 1].ours.start
        },
        _ => true,
    }
}

/// The tracked state of one open document.
#[derive(Debug)]
pub struct DocumentState {
    pub content: Vec<u8>,
    pub version: i32,
    pub conflicts: ConflictCache,
}

/// Mathematical model of a document's state.
pub ghost struct DocModel {
    pub content: Seq<u8>,
    pub version: int,
    pub cache: CacheModel,
}

impl View for DocumentState {
    type V = DocModel;

    open spec fn view(&self) -> DocModel {
        DocModel { content: self.content@, version: self.version as int, cache: self.conflicts@ }
    }
}

/// One tracked document and its identifier.
#[derive(Debug)]
pub struct Document {
    pub uri: Vec<u8>,
    pub state: DocumentState,
}

/// The open documents, keyed by identifier. At most a handful of documents
/// are open at once, so the store is a vector searched by key, with the
/// invariant that keys are unique.
#[derive(Debug)]
pub struct DocumentStore {
    pub docs: Vec<Document>,
}

impl DocumentStore {
    /// Keys are unique and every cached parse is well-shaped.
    pub open spec fn wf(&self) -> bool {
        &&& forall|i: int, j: int|
            0 <= i < j < self.docs@.len() ==> self.docs@[i].uri@ != self.docs@[j].uri@
        &&& forall|i: int| 0 <= i < self.docs@.len() ==> cache_wf(#[trigger] self.docs@[i].state@.cache)
    }

    /// Whether a document with this identifier is open.
    pub open spec fn spec_contains(&self, uri: Seq<u8>) -> bool {
        exists|i: int| 0 <= i < self.docs@.len() && #[trigger] self.docs@[i].uri@ == uri
    }

    /// The index of the document with this identifier.
    pub open spec fn spec_index_of(&self, uri: Seq<u8>) -> int {
        choose|i: int| 0 <= i < self.docs@.len() && #[trigger] self.docs@[i].uri@ == uri
    }

    /// The state of the document with this identifier.
    pub open spec fn spec_get(&self, uri: Seq<u8>) -> DocModel {
        self.docs@[self.spec_index_of(uri)].state@
    }

    /// In a well-formed store, the entry at `i` is the one its own key
    /// finds.
    pub proof fn lemma_get_at(&self, i: int)
        requires
            self.wf(),
            0 <= i < self.docs@.len(),
        ensures
            self.spec_contains(self.docs@[i].uri@),
            self.spec_index_of(self.docs@[i].uri@) == i,
            self.spec_get(self.docs@[i].uri@) == self.docs@[i].state@,
    {
        let u = self.docs@[i].uri@;
        assert(self.spec_contains(u));
        let j = self.spec_index_of(u);
        assert(0 <= j < self.docs@.len() && self.docs@[j].uri@ == u);
        if i < j {
            assert(self.docs@[i].uri@ != self.docs@[j].uri@);
        }
        if j < i {
            assert(self.docs@[j].uri@ != self.docs@[i].uri@);
        }
    }

    /// An empty store.
    pub fn new() -> (r: DocumentStore)
        ensures
            r.wf(),
            r.docs@.len() == 0,
    {
        DocumentStore { docs: Vec::new() }
    }

    /// The index of the document with identifier `uri`, when it is open.
    pub fn index_of(&self, uri: &Vec<u8>) -> (r: Option<usize>)
        ensures
            match r {
                Some(i) => i < self.docs@.len() && self.docs@[i as int].uri@ == uri@,
                None => !self.spec_contains(uri@),
            },
    {
        let n = self.docs.len();
        let mut i: usize = 0;
        while i < n
            invariant
                0 <= i <= n,
                n == self.docs@.len(),
                forall|k: int| 0 <= k < i ==> #[trigger] self.docs@[k].uri@ != uri@,
            decreases n - i,
        {
            if bytes_eq(&self.docs[i].uri, uri) {
                return Some(i);
            }
            i = i + 1;
        }
        None
    }

    /// Removes and returns the document at `i`. All other documents keep
    /// their identifiers and states.
    pub fn remove_at(&mut self, i: usize) -> (d: Document)
        requires
            old(self).wf(),
            i < old(self).docs@.len(),
        ensures
            final(self).wf(),
            d == old(self).docs@[i as int],
            final(self).docs@ == old(self).docs@.remove(i as int),
            !final(self).spec_contains(d.uri@),
            forall|u: Seq<u8>|
                u != d.uri@ ==> final(self).spec_contains(u) == old(self).spec_contains(u),
            forall|u: Seq<u8>|
                u != d.uri@ && old(self).spec_contains(u) ==> final(self).spec_get(u) == old(
                    self,
                ).spec_get(u),
    {
        let ghost pre = *self;
        let d = self.docs.remove(i);
        proof {
            let olds = pre.docs@;
            let news = self.docs@;
            assert(news =~= olds.remove(i as int));
            assert forall|k: int| 0 <= k < news.len() implies #[trigger] news[k] == if k < i {
                olds[k]
            } else {
                olds[k + 1]
            } by {}
            assert(self.wf());
            assert forall|k: int| 0 <= k < news.len() implies #[trigger] news[k].uri@ != d.uri@ by {
                let j: int = if k < i {
                    k
                } else {
                    k + 1
                };
                if j < i {
                    assert(olds[j].uri@ != olds[i as int].uri@);
                }
                if i < j {
                    assert(olds[i as int].uri@ != olds[j].uri@);
                }
            }
            assert forall|u: Seq<u8>| u != d.uri@ implies self.spec_contains(u)
                == pre.spec_contains(u) by {
                if pre.spec_contains(u) {
                    let j = pre.spec_index_of(u);
                    assert(0 <= j < olds.len() && olds[j].uri@ == u);
                    assert(j != i);
                    if j < i {
                        assert(news[j].uri@ == u);
                    } else {
                        assert(news[j - 1].uri@ == u);
                    }
                    assert(self.spec_contains(u));
                }
                if self.spec_contains(u) {
                    let k = self.spec_index_of(u);
                    assert(0 <= k < news.len() && news[k].uri@ == u);
                    if k < i {
                        assert(olds[k].uri@ == u);
                    } else {
                        assert(olds[k + 1].uri@ == u);
                    }
                    assert(pre.spec_contains(u));
                }
            }
            assert forall|u: Seq<u8>|
                u != d.uri@ && pre.spec_contains(u) implies self.spec_get(u) == pre.spec_get(
                u,
            ) by {
                let j = pre.spec_index_of(u);
                assert(0 <= j < olds.len() && olds[j].uri@ == u);
                assert(j != i);
                let k: int = if j < i {
                    j
                } else {
                    j - 1
                };
                assert(news[k].uri@ == u);
                self.lemma_get_at(k);
                pre.lemma_get_at(j);
            }
        }
        d
    }

    /// Inserts `d` at `i`; its identifier must not be open. All other
    /// documents keep their identifiers and states.
    pub fn insert_at(&mut self, i: usize, d: Document)
        requires
            old(self).wf(),
            i <= old(self).docs@.len(),
            !old(self).spec_contains(d.uri@),
            cache_wf(d.state@.cache),
        ensures
            final(self).wf(),
            final(self).docs@ == old(self).docs@.insert(i as int, d),
            final(self).spec_contains(d.uri@),
            final(self).spec_get(d.uri@) == d.state@,
            forall|u: Seq<u8>|
                u != d.uri@ ==> final(self).spec_contains(u) == old(self).spec_contains(u),
            forall|u: Seq<u8>|
                u != d.uri@ && old(self).spec_contains(u) ==> final(self).spec_get(u) == old(
                    self,
                ).spec_get(u),
    {
        let ghost pre = *self;
        let ghost dd = d;
        let ghost du = d.uri@;
        self.docs.insert(i, d);
        proof {
            let olds = pre.docs@;
            let news = self.docs@;
            assert(news == olds.insert(i as int, dd));
            assert forall|k: int| 0 <= k < news.len() implies #[trigger] news[k] == if k < i {
                olds[k]
            } else if k == i {
                news[i as int]
            } else {
                olds[k - 1]
            } by {}
            assert(news[i as int].uri@ == du);
            assert forall|k: int| 0 <= k < olds.len() implies #[trigger] olds[k].uri@ != du by {
                if olds[k].uri@ == du {
                    assert(pre.spec_contains(du));
                }
            }
            assert(self.wf());
            assert(self.spec_contains(du));
            self.lemma_get_at(i as int);
            assert forall|u: Seq<u8>| u != du implies self.spec_contains(u)
                == pre.spec_contains(u) by {
                if pre.spec_contains(u) {
                    let j = pre.spec_index_of(u);
                    assert(0 <= j < olds.len() && olds[j].uri@ == u);
                    if j < i {
                        assert(news[j].uri@ == u);
                    } else {
                        assert(news[j + 1].uri@ == u);
                    }
                    assert(self.spec_contains(u));
                }
                if self.spec_contains(u) {
                    let k = self.spec_index_of(u);
                    assert(0 <= k < news.len() && news[k].uri@ == u);
                    assert(k != i);
                    if k < i {
                        assert(olds[k].uri@ == u);
                    } else {
                        assert(olds[k - 1].uri@ == u);
                    }
                    assert(pre.spec_contains(u));
                }
            }
            assert forall|u: Seq<u8>|
                u != du && pre.spec_contains(u) implies self.spec_get(u) == pre.spec_get(
                u,
            ) by {
                let j = pre.spec_index_of(u);
                assert(0 <= j < olds.len() && olds[j].uri@ == u);
                let k: int = if j < i {
                    j
                } else {
                    j + 1
                };
                assert(news[k].uri@ == u);
                self.lemma_get_at(k);
                pre.lemma_get_at(j);
            }
        }
    }
}

} // verus!
