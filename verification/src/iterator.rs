use vstd::prelude::*;

use crate::data::log_record::LogRecordPos;
use crate::db::Engine;
use crate::errors::Errors;
use crate::index::btree::{next_match, BTreeIterator};
use crate::options::IteratorOptions;

verus! {

/// An engine-level iterator: a snapshot of the key directory whose entries
/// are resolved to their on-disk values as they are handed out.
pub struct Iterator {
    index_iter: BTreeIterator,
}

impl Iterator {
    /// The directory snapshot this iterator walks.
    pub closed spec fn inner(self) -> BTreeIterator {
        self.index_iter
    }

    /// The snapshot, in iteration order.
    pub open spec fn entries(self) -> Seq<(Seq<u8>, LogRecordPos)> {
        self.inner().entries()
    }

    /// The cursor: the next entry looked at.
    pub open spec fn curr(self) -> int {
        self.inner().curr()
    }

    /// Only keys beginning with this prefix are emitted.
    pub open spec fn prefix(self) -> Seq<u8> {
        self.inner().prefix()
    }

    pub open spec fn reverse(self) -> bool {
        self.inner().reverse()
    }

    pub open spec fn wf(self) -> bool {
        self.inner().wf()
    }

    /// Every snapshot entry is the engine's live directory entry for its key.
    pub open spec fn entries_from(self, engine: Engine) -> bool {
        forall|q: int|
            0 <= q < self.entries().len() ==> engine.spec_indexer().as_map().dom().contains(
                (#[trigger] self.entries()[q]).0,
            ) && engine.spec_indexer().as_map()[self.entries()[q].0] == self.entries()[q].1
    }

    /// Puts the cursor back before the first entry.
    pub fn rewind(&mut self)
        requires
            old(self).wf(),
        ensures
            final(self).wf(),
            final(self).entries() == old(self).entries(),
            final(self).prefix() == old(self).prefix(),
            final(self).reverse() == old(self).reverse(),
            final(self).curr() == 0,
    {
        self.index_iter.rewind();
    }

    /// Puts the cursor on the first entry at or past `key` in iteration
    /// order.
    pub fn seek(&mut self, key: Vec<u8>)
        requires
            old(self).wf(),
        ensures
            final(self).wf(),
            final(self).entries() == old(self).entries(),
            final(self).prefix() == old(self).prefix(),
            final(self).reverse() == old(self).reverse(),
            forall|q: int|
                0 <= q < final(self).curr() ==> (if old(self).reverse() {
                    crate::index::lex_lt(key@, (#[trigger] final(self).entries()[q]).0)
                } else {
                    crate::index::lex_lt((#[trigger] final(self).entries()[q]).0, key@)
                }),
            final(self).curr() < final(self).entries().len() ==> (if old(self).reverse() {
                !crate::index::lex_lt(key@, final(self).entries()[final(self).curr()].0)
            } else {
                !crate::index::lex_lt(final(self).entries()[final(self).curr()].0, key@)
            }),
    {
        self.index_iter.seek(key);
    }

    /// Hands out the next live pair whose key begins with the prefix, the
    /// value read back from the engine's log; `Ok(None)` once none is left.
    pub fn next(&mut self, engine: &Engine) -> (r: Result<Option<(Vec<u8>, Vec<u8>)>, Errors>)
        requires
            old(self).wf(),
            engine.wf(),
            old(self).entries_from(*engine),
        ensures
            final(self).wf(),
            final(self).entries() == old(self).entries(),
            final(self).prefix() == old(self).prefix(),
            final(self).reverse() == old(self).reverse(),
            final(self).entries_from(*engine),
            ({
                let s = old(self).entries();
                let m = next_match(s, old(self).curr(), old(self).prefix());
                if old(self).curr() >= s.len() {
                    r == Ok::<Option<(Vec<u8>, Vec<u8>)>, Errors>(None) && final(self).curr()
                        == old(self).curr()
                } else if m < s.len() {
                    &&& r is Ok
                    &&& r->Ok_0 is Some
                    &&& r->Ok_0->Some_0.0@ == s[m].0
                    &&& r->Ok_0->Some_0.1@ == engine.kv()[s[m].0]
                    &&& final(self).curr() == m + 1
                } else {
                    r == Ok::<Option<(Vec<u8>, Vec<u8>)>, Errors>(None) && final(self).curr()
                        == s.len()
                }
            }),
    {
        let ghost s = self.entries();
        let ghost m = next_match(s, self.curr(), self.prefix());
        match self.index_iter.next() {
            None => Ok(None),
            Some((key, pos)) => {
                proof {
                    assert(old(self).curr() < s.len());
                    crate::index::btree::lemma_next_match_bounds(
                        s,
                        old(self).curr(),
                        old(self).prefix(),
                    );
                    assert(0 <= m < s.len());
                    assert(key@ == s[m].0 && pos == s[m].1);
                    assert(engine.spec_indexer().as_map().dom().contains(
                        (#[trigger] old(self).entries()[m]).0,
                    ));
                    assert(engine.valid_pos(pos, s[m].0));
                }
                match engine.get_value_by_position(pos) {
                    Ok(value) => Ok(Some((key, value))),
                    Err(e) => {
                        proof {
                            assert(false);
                        }
                        Err(e)
                    },
                }
            },
        }
    }
}

impl Engine {
    /// A snapshot iterator over the live keys, resolved against this engine.
    pub fn iter(&self, iterator_options: &IteratorOptions) -> (r: Iterator)
        requires
            self.wf(),
        ensures
            r.wf(),
            r.curr() == 0,
            r.prefix() == iterator_options.prefix@,
            r.reverse() == iterator_options.reverse,
            r.entries() == (if iterator_options.reverse {
                self.spec_indexer().entries().reverse()
            } else {
                self.spec_indexer().entries()
            }),
            r.entries_from(*self),
    {
        proof {
            crate::db::lemma_engine_fields(*self);
        }
        let inner = self.indexer.iterator(iterator_options);
        let r = Iterator { index_iter: inner };
        proof {
            let dir = self.spec_indexer().entries();
            assert forall|q: int| 0 <= q < r.entries().len() implies
                self.spec_indexer().as_map().dom().contains((#[trigger] r.entries()[q]).0)
                    && self.spec_indexer().as_map()[r.entries()[q].0] == r.entries()[q].1 by {
                let e = r.entries()[q];
                if iterator_options.reverse {
                    assert(e == dir.reverse()[q]);
                    assert(e == dir[dir.len() - 1 - q]);
                    crate::index::btree::lemma_entry_value_unique(dir, e.0, dir.len() - 1 - q);
                } else {
                    assert(e == dir[q]);
                    crate::index::btree::lemma_entry_value_unique(dir, e.0, q);
                }
            }
        }
        r
    }

    /// Every live key, in ascending lexicographic order.
    pub fn list_keys(&self) -> (r: Vec<Vec<u8>>)
        requires
            self.wf(),
        ensures
            r@.len() == self.spec_indexer().entries().len(),
            forall|q: int|
                0 <= q < r@.len() ==> (#[trigger] r@[q])@ == self.spec_indexer().entries()[q].0,
    {
        proof {
            crate::db::lemma_engine_fields(*self);
        }
        self.indexer.list_keys()
    }

    /// Walks every live pair in ascending key order, stopping early when `f`
    /// says so.
    pub fn fold<F: Fn(Vec<u8>, Vec<u8>) -> bool>(&self, f: F) -> (r: Result<(), Errors>)
        requires
            self.wf(),
            forall|k: Vec<u8>, v: Vec<u8>| #[trigger] f.requires((k, v)),
        ensures
            r is Ok,
    {
        let opts = IteratorOptions { prefix: Vec::new(), reverse: false };
        let mut iter = self.iter(&opts);
        let ghost total = iter.entries().len();
        loop
            invariant
                iter.wf(),
                self.wf(),
                iter.entries_from(*self),
                total == iter.entries().len(),
                0 <= iter.curr() <= total,
                forall|k: Vec<u8>, v: Vec<u8>| #[trigger] f.requires((k, v)),
            ensures
                true,
            decreases total - iter.curr() + 1,
        {
            let ghost c0 = iter.curr();
            match iter.next(self) {
                Ok(Some((key, value))) => {
                    proof {
                        crate::index::btree::lemma_next_match_bounds(
                            iter.entries(),
                            c0,
                            iter.prefix(),
                        );
                        assert(iter.curr() > c0);
                    }
                    if !f(key, value) {
                        break ;
                    }
                },
                Ok(None) => {
                    break ;
                },
                Err(_) => {
                    break ;
                },
            }
        }
        Ok(())
    }
}

} // verus!
