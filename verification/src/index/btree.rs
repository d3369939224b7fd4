use vstd::prelude::*;

use crate::data::log_record::LogRecordPos;
use crate::index::{compare_keys, lemma_lex_trichotomy, lemma_lex_transitive, lex_lt, KeyOrdering};
use crate::options::IteratorOptions;
use crate::util::{clone_bytes, spec_starts_with, starts_with};

verus! {

/// The view of one directory entry: a key and where its record sits on disk.
pub open spec fn entry_view(p: (Vec<u8>, LogRecordPos)) -> (Seq<u8>, LogRecordPos) {
    (p.0@, p.1)
}

/// Keys strictly ascending in lexicographic order: sorted and duplicate-free
/// at once.
pub open spec fn sorted_entries(s: Seq<(Seq<u8>, LogRecordPos)>) -> bool {
    forall|i: int, j: int|
        0 <= i < j < s.len() ==> lex_lt((#[trigger] s[i]).0, (#[trigger] s[j]).0)
}

/// Whether some entry of `s` carries the key `k`.
pub open spec fn contains_key(s: Seq<(Seq<u8>, LogRecordPos)>, k: Seq<u8>) -> bool {
    exists|i: int| 0 <= i < s.len() && (#[trigger] s[i]).0 == k
}

/// The position recorded beside `k`; meaningful only when `k` occurs and the
/// keys are duplicate-free.
pub open spec fn entry_value(s: Seq<(Seq<u8>, LogRecordPos)>, k: Seq<u8>) -> LogRecordPos {
    s[choose|i: int| 0 <= i < s.len() && (#[trigger] s[i]).0 == k].1
}

/// The mapping a sequence of entries stands for.
pub open spec fn entries_map(s: Seq<(Seq<u8>, LogRecordPos)>) -> Map<Seq<u8>, LogRecordPos> {
    Map::new(|k: Seq<u8>| contains_key(s, k), |k: Seq<u8>| entry_value(s, k))
}

/// In a duplicate-free sequence the entry holding `k` is the only one, so the
/// map's value at `k` is its position.
pub proof fn lemma_entry_value_unique(s: Seq<(Seq<u8>, LogRecordPos)>, k: Seq<u8>, i: int)
    requires
        sorted_entries(s),
        0 <= i < s.len(),
        s[i].0 == k,
    ensures
        contains_key(s, k),
        entry_value(s, k) == s[i].1,
        entries_map(s)[k] == s[i].1,
{
    assert(contains_key(s, k)) by {
        assert(0 <= i < s.len() && (#[trigger] s[i]).0 == k);
    }
    assert forall|q: int| 0 <= q < s.len() && (#[trigger] s[q]).0 == k implies q == i by {
        if q != i {
            lemma_lex_trichotomy(s[i].0, s[q].0);
            if i < q {
                assert(lex_lt(s[i].0, s[q].0));
            } else {
                assert(lex_lt(s[q].0, s[i].0));
            }
        }
    }
    assert(entry_value(s, k) == s[i].1);
}

/// Inserting a new key between its neighbours keeps the keys ascending and
/// inserts it into the mapping.
pub proof fn lemma_map_insert(
    s: Seq<(Seq<u8>, LogRecordPos)>,
    s2: Seq<(Seq<u8>, LogRecordPos)>,
    idx: int,
    k: Seq<u8>,
    pos: LogRecordPos,
)
    requires
        sorted_entries(s),
        0 <= idx <= s.len(),
        forall|q: int| 0 <= q < idx ==> lex_lt((#[trigger] s[q]).0, k),
        forall|q: int| idx <= q < s.len() ==> lex_lt(k, (#[trigger] s[q]).0),
        s2 == s.insert(idx, (k, pos)),
    ensures
        sorted_entries(s2),
        entries_map(s2) == entries_map(s).insert(k, pos),
{
    assert(s2.len() == s.len() + 1);
    assert forall|i: int, j: int| 0 <= i < j < s2.len() implies lex_lt(
        (#[trigger] s2[i]).0,
        (#[trigger] s2[j]).0,
    ) by {
        if i < idx {
            assert(s2[i] == s[i]);
        } else if i == idx {
            assert(s2[i] == (k, pos));
        } else {
            assert(s2[i] == s[i - 1]);
        }
        if j < idx {
            assert(s2[j] == s[j]);
        } else if j == idx {
            assert(s2[j] == (k, pos));
        } else {
            assert(s2[j] == s[j - 1]);
        }
    }
    assert(entries_map(s2) =~= entries_map(s).insert(k, pos)) by {
        assert forall|k2: Seq<u8>| #[trigger] contains_key(s2, k2) implies k2 == k || contains_key(
            s,
            k2,
        ) by {
            let i = choose|i: int| 0 <= i < s2.len() && (#[trigger] s2[i]).0 == k2;
            if i < idx {
                assert(s2[i] == s[i]);
            } else if i > idx {
                assert(s2[i] == s[i - 1]);
            }
        }
        assert(contains_key(s2, k)) by {
            assert(s2[idx].0 == k);
        }
        assert forall|k2: Seq<u8>| contains_key(s, k2) implies #[trigger] contains_key(
            s2,
            k2,
        ) by {
            let i = choose|i: int| 0 <= i < s.len() && (#[trigger] s[i]).0 == k2;
            if i < idx {
                assert(s2[i] == s[i]);
            } else {
                assert(s2[i + 1] == s[i]);
            }
        }
        assert forall|k2: Seq<u8>| #[trigger] contains_key(s2, k2) implies entry_value(s2, k2)
            == entries_map(s).insert(k, pos)[k2] by {
            if k2 == k {
                lemma_entry_value_unique(s2, k, idx);
            } else {
                let i = choose|i: int| 0 <= i < s2.len() && (#[trigger] s2[i]).0 == k2;
                lemma_entry_value_unique(s2, k2, i);
                if i < idx {
                    assert(s2[i] == s[i]);
                    lemma_entry_value_unique(s, k2, i);
                } else {
                    assert(i != idx);
                    assert(s2[i] == s[i - 1]);
                    lemma_entry_value_unique(s, k2, i - 1);
                }
            }
        }
    }
}

/// Overwriting the entry that already carries `k` keeps the keys ascending
/// and updates the mapping at `k`.
pub proof fn lemma_map_update(
    s: Seq<(Seq<u8>, LogRecordPos)>,
    s2: Seq<(Seq<u8>, LogRecordPos)>,
    idx: int,
    k: Seq<u8>,
    pos: LogRecordPos,
)
    requires
        sorted_entries(s),
        0 <= idx < s.len(),
        s[idx].0 == k,
        s2 == s.update(idx, (k, pos)),
    ensures
        sorted_entries(s2),
        entries_map(s2) == entries_map(s).insert(k, pos),
{
    assert forall|i: int, j: int| 0 <= i < j < s2.len() implies lex_lt(
        (#[trigger] s2[i]).0,
        (#[trigger] s2[j]).0,
    ) by {
        assert(s2[i].0 == s[i].0);
        assert(s2[j].0 == s[j].0);
    }
    assert(entries_map(s2) =~= entries_map(s).insert(k, pos)) by {
        assert forall|k2: Seq<u8>| #[trigger] contains_key(s2, k2) implies k2 == k || contains_key(
            s,
            k2,
        ) by {
            let i = choose|i: int| 0 <= i < s2.len() && (#[trigger] s2[i]).0 == k2;
            if i != idx {
                assert(s2[i] == s[i]);
            }
        }
        assert forall|k2: Seq<u8>| contains_key(s, k2) implies #[trigger] contains_key(
            s2,
            k2,
        ) by {
            let i = choose|i: int| 0 <= i < s.len() && (#[trigger] s[i]).0 == k2;
            if i != idx {
                assert(s2[i] == s[i]);
            } else {
                assert(s2[idx].0 == k2);
            }
        }
        assert forall|k2: Seq<u8>| #[trigger] contains_key(s2, k2) implies entry_value(s2, k2)
            == entries_map(s).insert(k, pos)[k2] by {
            if k2 == k {
                lemma_entry_value_unique(s2, k, idx);
            } else {
                let i = choose|i: int| 0 <= i < s2.len() && (#[trigger] s2[i]).0 == k2;
                lemma_entry_value_unique(s2, k2, i);
                assert(i != idx);
                assert(s2[i] == s[i]);
                lemma_entry_value_unique(s, k2, i);
            }
        }
    }
}

/// Removing the entry that carries `k` keeps the keys ascending and removes
/// `k` from the mapping.
pub proof fn lemma_map_remove(
    s: Seq<(Seq<u8>, LogRecordPos)>,
    s2: Seq<(Seq<u8>, LogRecordPos)>,
    idx: int,
    k: Seq<u8>,
)
    requires
        sorted_entries(s),
        0 <= idx < s.len(),
        s[idx].0 == k,
        s2 == s.remove(idx),
    ensures
        sorted_entries(s2),
        entries_map(s2) == entries_map(s).remove(k),
{
    assert forall|i: int, j: int| 0 <= i < j < s2.len() implies lex_lt(
        (#[trigger] s2[i]).0,
        (#[trigger] s2[j]).0,
    ) by {
        if i < idx {
            assert(s2[i] == s[i]);
        } else {
            assert(s2[i] == s[i + 1]);
        }
        if j < idx {
            assert(s2[j] == s[j]);
        } else {
            assert(s2[j] == s[j + 1]);
        }
    }
    assert(entries_map(s2) =~= entries_map(s).remove(k)) by {
        assert forall|k2: Seq<u8>| #[trigger] contains_key(s2, k2) implies k2 != k && contains_key(
            s,
            k2,
        ) by {
            let i = choose|i: int| 0 <= i < s2.len() && (#[trigger] s2[i]).0 == k2;
            if i < idx {
                assert(s2[i] == s[i]);
                if k2 == k {
                    lemma_lex_trichotomy(s[i].0, s[idx].0);
                }
            } else {
                assert(s2[i] == s[i + 1]);
                if k2 == k {
                    lemma_lex_trichotomy(s[i + 1].0, s[idx].0);
                }
            }
        }
        assert forall|k2: Seq<u8>| contains_key(s, k2) && k2 != k implies #[trigger] contains_key(
            s2,
            k2,
        ) by {
            let i = choose|i: int| 0 <= i < s.len() && (#[trigger] s[i]).0 == k2;
            assert(i != idx);
            if i < idx {
                assert(s2[i] == s[i]);
            } else {
                assert(s2[i - 1] == s[i]);
            }
        }
        assert forall|k2: Seq<u8>| #[trigger] contains_key(s2, k2) implies entry_value(s2, k2)
            == entries_map(s)[k2] by {
            let i = choose|i: int| 0 <= i < s2.len() && (#[trigger] s2[i]).0 == k2;
            lemma_entry_value_unique(s2, k2, i);
            if i < idx {
                assert(s2[i] == s[i]);
                lemma_entry_value_unique(s, k2, i);
            } else {
                assert(s2[i] == s[i + 1]);
                lemma_entry_value_unique(s, k2, i + 1);
            }
        }
    }
}

/// The ordered in-memory key directory: entries kept in ascending key order.
pub struct Btree {
    items: Vec<(Vec<u8>, LogRecordPos)>,
}

impl Btree {
    /// The entries in storage order.
    pub closed spec fn entries(self) -> Seq<(Seq<u8>, LogRecordPos)> {
        self.items@.map_values(|p: (Vec<u8>, LogRecordPos)| entry_view(p))
    }

    /// The keys are strictly ascending.
    pub open spec fn wf(self) -> bool {
        sorted_entries(self.entries())
    }

    /// The mapping from live key to record position the directory holds.
    pub open spec fn as_map(self) -> Map<Seq<u8>, LogRecordPos> {
        entries_map(self.entries())
    }

    /// An empty directory.
    pub fn new() -> (r: Btree)
        ensures
            r.wf(),
            r.entries() == Seq::<(Seq<u8>, LogRecordPos)>::empty(),
    {
        let r = Btree { items: Vec::new() };
        proof {
            assert(r.entries() =~= Seq::<(Seq<u8>, LogRecordPos)>::empty());
        }
        r
    }

    /// Stores `pos` under `key`, overwriting any earlier position.
    pub fn put(&mut self, key: Vec<u8>, pos: LogRecordPos) -> (r: bool)
        requires
            old(self).wf(),
        ensures
            final(self).wf(),
            final(self).as_map() == old(self).as_map().insert(key@, pos),
            final(self).entries().len() <= old(self).entries().len() + 1,
            r,
    {
        let ghost s = self.entries();
        let mut i: usize = 0;
        let mut found_equal: bool = false;
        let mut found_greater: bool = false;
        while i < self.items.len() && !found_equal && !found_greater
            invariant
                self == old(self),
                s == self.entries(),
                sorted_entries(s),
                i <= self.items.len(),
                forall|q: int| 0 <= q < i ==> lex_lt((#[trigger] s[q]).0, key@),
                found_equal ==> i < self.items.len() && s[i as int].0 == key@,
                found_greater ==> i < self.items.len() && lex_lt(key@, s[i as int].0),
            decreases self.items.len() - i, (if found_equal || found_greater { 0int } else { 1int }),
        {
            proof {
                assert(s[i as int] == entry_view(self.items@[i as int]));
            }
            match compare_keys(&self.items[i].0, &key) {
                KeyOrdering::Less => {
                    i = i + 1;
                },
                KeyOrdering::Equal => {
                    found_equal = true;
                },
                KeyOrdering::Greater => {
                    found_greater = true;
                },
            }
        }
        if found_equal {
            self.items.remove(i);
            self.items.insert(i, (key, pos));
            proof {
                assert(self.entries() =~= s.update(i as int, (key@, pos)));
                lemma_map_update(s, self.entries(), i as int, key@, pos);
            }
        } else {
            proof {
                assert forall|q: int| i <= q < s.len() implies lex_lt(
                    key@,
                    (#[trigger] s[q]).0,
                ) by {
                    if q > i {
                        lemma_lex_transitive(key@, s[i as int].0, s[q].0);
                    }
                }
            }
            self.items.insert(i, (key, pos));
            proof {
                assert(self.entries() =~= s.insert(i as int, (key@, pos)));
                lemma_map_insert(s, self.entries(), i as int, key@, pos);
            }
        }
        true
    }

    /// The position stored under `key`, if the key is live.
    pub fn get(&self, key: Vec<u8>) -> (r: Option<LogRecordPos>)
        requires
            self.wf(),
        ensures
            match r {
                Some(pos) => self.as_map().contains_key(key@) && pos == self.as_map()[key@],
                None => !self.as_map().contains_key(key@),
            },
    {
        let ghost s = self.entries();
        let mut i: usize = 0;
        while i < self.items.len()
            invariant
                s == self.entries(),
                sorted_entries(s),
                i <= self.items.len(),
                forall|q: int| 0 <= q < i ==> (#[trigger] s[q]).0 != key@,
            decreases self.items.len() - i,
        {
            proof {
                assert(s[i as int] == entry_view(self.items@[i as int]));
            }
            match compare_keys(&self.items[i].0, &key) {
                KeyOrdering::Equal => {
                    proof {
                        lemma_entry_value_unique(s, key@, i as int);
                    }
                    return Some(self.items[i].1);
                },
                _ => {
                    i = i + 1;
                },
            }
        }
        None
    }

    /// Removes `key`; reports whether it was present.
    pub fn delete(&mut self, key: Vec<u8>) -> (r: bool)
        requires
            old(self).wf(),
        ensures
            final(self).wf(),
            final(self).as_map() == old(self).as_map().remove(key@),
            r == old(self).as_map().contains_key(key@),
            final(self).entries().len() <= old(self).entries().len(),
    {
        let ghost s = self.entries();
        let mut i: usize = 0;
        while i < self.items.len()
            invariant
                self == old(self),
                s == self.entries(),
                sorted_entries(s),
                i <= self.items.len(),
                forall|q: int| 0 <= q < i ==> (#[trigger] s[q]).0 != key@,
            decreases self.items.len() - i,
        {
            proof {
                assert(s[i as int] == entry_view(self.items@[i as int]));
            }
            match compare_keys(&self.items[i].0, &key) {
                KeyOrdering::Equal => {
                    self.items.remove(i);
                    proof {
                        assert(self.entries() =~= s.remove(i as int));
                        lemma_map_remove(s, self.entries(), i as int, key@);
                        lemma_entry_value_unique(s, key@, i as int);
                    }
                    return true;
                },
                _ => {
                    i = i + 1;
                },
            }
        }
        proof {
            assert(!contains_key(s, key@));
            assert(self.as_map() =~= self.as_map().remove(key@));
        }
        false
    }

    /// Every live key, in ascending order.
    pub fn list_keys(&self) -> (r: Vec<Vec<u8>>)
        requires
            self.wf(),
        ensures
            r@.len() == self.entries().len(),
            forall|q: int| 0 <= q < r@.len() ==> (#[trigger] r@[q])@ == self.entries()[q].0,
    {
        let mut out: Vec<Vec<u8>> = Vec::new();
        let mut i: usize = 0;
        while i < self.items.len()
            invariant
                i <= self.items.len(),
                out@.len() == i,
                forall|q: int| 0 <= q < i ==> (#[trigger] out@[q])@ == self.entries()[q].0,
            decreases self.items.len() - i,
        {
            out.push(clone_bytes(&self.items[i].0));
            i = i + 1;
        }
        out
    }

    /// Number of live keys.
    pub fn len(&self) -> (r: usize)
        ensures
            r == self.entries().len(),
    {
        self.items.len()
    }

    /// A snapshot iterator over the directory: the entries are copied out in
    /// iteration order, so later writes do not show through it.
    pub fn iterator(&self, opts: &IteratorOptions) -> (r: BTreeIterator)
        requires
            self.wf(),
        ensures
            r.wf(),
            r.curr() == 0,
            r.prefix() == opts.prefix@,
            r.reverse() == opts.reverse,
            r.entries() == if opts.reverse {
                self.entries().reverse()
            } else {
                self.entries()
            },
    {
        let ghost s = self.entries();
        let mut items: Vec<(Vec<u8>, LogRecordPos)> = Vec::new();
        if opts.reverse {
            let mut i: usize = self.items.len();
            while i > 0
                invariant
                    s == self.entries(),
                    i <= self.items.len(),
                    items@.len() == self.items.len() - i,
                    forall|q: int|
                        0 <= q < items@.len() ==> entry_view(#[trigger] items@[q]) == s[s.len() - 1
                            - q],
                decreases i,
            {
                i = i - 1;
                let key = clone_bytes(&self.items[i].0);
                items.push((key, self.items[i].1));
                proof {
                    assert(s[i as int] == entry_view(self.items@[i as int]));
                }
            }
        } else {
            let mut i: usize = 0;
            while i < self.items.len()
                invariant
                    s == self.entries(),
                    i <= self.items.len(),
                    items@.len() == i,
                    forall|q: int|
                        0 <= q < i ==> entry_view(#[trigger] items@[q]) == s[q],
                decreases self.items.len() - i,
            {
                let key = clone_bytes(&self.items[i].0);
                items.push((key, self.items[i].1));
                proof {
                    assert(s[i as int] == entry_view(self.items@[i as int]));
                }
                i = i + 1;
            }
        }
        let r = BTreeIterator {
            items,
            curr_index: 0,
            options: IteratorOptions {
                prefix: clone_bytes(&opts.prefix),
                reverse: opts.reverse,
            },
        };
        proof {
            if opts.reverse {
                assert(r.entries() =~= s.reverse());
                assert forall|i: int, j: int| 0 <= i < j < r.entries().len() implies lex_lt(
                    (#[trigger] r.entries()[j]).0,
                    (#[trigger] r.entries()[i]).0,
                ) by {
                    assert(r.entries()[i] == s[s.len() - 1 - i]);
                    assert(r.entries()[j] == s[s.len() - 1 - j]);
                }
            } else {
                assert(r.entries() =~= s);
            }
        }
        r
    }
}

/// Keys strictly descending: the shape a reversed snapshot has.
pub open spec fn sorted_entries_rev(s: Seq<(Seq<u8>, LogRecordPos)>) -> bool {
    forall|i: int, j: int|
        0 <= i < j < s.len() ==> lex_lt((#[trigger] s[j]).0, (#[trigger] s[i]).0)
}

/// The first index at or past `from` whose key begins with `prefix`, or the
/// length when none does. An empty prefix matches every key.
pub open spec fn next_match(
    s: Seq<(Seq<u8>, LogRecordPos)>,
    from: int,
    prefix: Seq<u8>,
) -> int
    decreases s.len() - from,
{
    if from < 0 {
        next_match(s, 0, prefix)
    } else if from >= s.len() {
        s.len() as int
    } else if spec_starts_with(s[from].0, prefix) {
        from
    } else {
        next_match(s, from + 1, prefix)
    }
}

/// The next match never lies before the cursor nor past the end.
pub proof fn lemma_next_match_bounds(
    s: Seq<(Seq<u8>, LogRecordPos)>,
    from: int,
    prefix: Seq<u8>,
)
    requires
        0 <= from <= s.len(),
    ensures
        from <= next_match(s, from, prefix) <= s.len(),
    decreases s.len() - from,
{
    if from < s.len() && !spec_starts_with(s[from].0, prefix) {
        lemma_next_match_bounds(s, from + 1, prefix);
    }
}

/// A snapshot iterator over directory entries: in lexicographic order, in
/// reverse order when so configured, filtered to keys carrying the prefix.
pub struct BTreeIterator {
    items: Vec<(Vec<u8>, LogRecordPos)>,
    curr_index: usize,
    options: IteratorOptions,
}

impl BTreeIterator {
    /// The snapshot, in iteration order.
    pub closed spec fn entries(self) -> Seq<(Seq<u8>, LogRecordPos)> {
        self.items@.map_values(|p: (Vec<u8>, LogRecordPos)| entry_view(p))
    }

    /// The cursor: the next entry looked at.
    pub closed spec fn curr(self) -> int {
        self.curr_index as int
    }

    /// Only keys beginning with this prefix are emitted.
    pub closed spec fn prefix(self) -> Seq<u8> {
        self.options.prefix@
    }

    /// Whether the snapshot runs in reverse lexicographic order.
    pub closed spec fn reverse(self) -> bool {
        self.options.reverse
    }

    /// The snapshot is ordered the way its direction asks.
    pub open spec fn wf(self) -> bool {
        &&& 0 <= self.curr() <= self.entries().len()
        &&& if self.reverse() {
            sorted_entries_rev(self.entries())
        } else {
            sorted_entries(self.entries())
        }
    }

    /// Puts the cursor back before the first entry.
    pub fn rewind(&mut self)
        requires
            old(self).wf(),
        ensures
            final(self).wf(),
            final(self).entries() == old(self).entries(),
            final(self).prefix() == old(self).prefix(),
            final(self).reverse() == old(self).reverse(),
            final(self).curr() == 0,
    {
        self.curr_index = 0;
    }

    /// Puts the cursor on the first entry at or past `key` in iteration
    /// order: ahead of it lie exactly the entries strictly before `key`.
    pub fn seek(&mut self, key: Vec<u8>)
        requires
            old(self).wf(),
        ensures
            final(self).wf(),
            final(self).entries() == old(self).entries(),
            final(self).prefix() == old(self).prefix(),
            final(self).reverse() == old(self).reverse(),
            forall|q: int|
                0 <= q < final(self).curr() ==> (if old(self).reverse() {
                    lex_lt(key@, (#[trigger] final(self).entries()[q]).0)
                } else {
                    lex_lt((#[trigger] final(self).entries()[q]).0, key@)
                }),
            final(self).curr() < final(self).entries().len() ==> (if old(self).reverse() {
                !lex_lt(key@, final(self).entries()[final(self).curr()].0)
            } else {
                !lex_lt(final(self).entries()[final(self).curr()].0, key@)
            }),
    {
        let ghost s = self.entries();
        let reverse = self.options.reverse;
        let mut i: usize = 0;
        while i < self.items.len()
            invariant
                old(self).wf(),
                self == old(self),
                s == self.entries(),
                i <= self.items.len(),
                forall|q: int|
                    0 <= q < i ==> (if reverse {
                        lex_lt(key@, (#[trigger] s[q]).0)
                    } else {
                        lex_lt((#[trigger] s[q]).0, key@)
                    }),
                reverse == self.options.reverse,
            ensures
                old(self).wf(),
                self == old(self),
                s == self.entries(),
                i <= self.items.len(),
                forall|q: int|
                    0 <= q < i ==> (if reverse {
                        lex_lt(key@, (#[trigger] s[q]).0)
                    } else {
                        lex_lt((#[trigger] s[q]).0, key@)
                    }),
                i < self.items.len() ==> (if reverse {
                    !lex_lt(key@, s[i as int].0)
                } else {
                    !lex_lt(s[i as int].0, key@)
                }),
            decreases self.items.len() - i,
        {
            proof {
                assert(s[i as int] == entry_view(self.items@[i as int]));
            }
            let c = compare_keys(&self.items[i].0, &key);
            if reverse {
                if c != KeyOrdering::Greater {
                    proof {
                        lemma_lex_trichotomy(key@, s[i as int].0);
                    }
                    break ;
                }
            } else {
                if c != KeyOrdering::Less {
                    proof {
                        lemma_lex_trichotomy(s[i as int].0, key@);
                    }
                    break ;
                }
            }
            i = i + 1;
        }
        self.curr_index = i;
    }

    /// Hands out the next entry whose key begins with the prefix, advancing
    /// the cursor past it; `None` once none is left.
    pub fn next(&mut self) -> (r: Option<(Vec<u8>, LogRecordPos)>)
        requires
            old(self).wf(),
        ensures
            final(self).wf(),
            final(self).entries() == old(self).entries(),
            final(self).prefix() == old(self).prefix(),
            final(self).reverse() == old(self).reverse(),
            ({
                let s = old(self).entries();
                let m = next_match(s, old(self).curr(), old(self).prefix());
                if old(self).curr() >= s.len() {
                    r is None && final(self).curr() == old(self).curr()
                } else if m < s.len() {
                    &&& r is Some
                    &&& r->Some_0.0@ == s[m].0
                    &&& r->Some_0.1 == s[m].1
                    &&& final(self).curr() == m + 1
                } else {
                    r is None && final(self).curr() == s.len()
                }
            }),
    {
        let ghost s = self.entries();
        if self.curr_index >= self.items.len() {
            return None;
        }
        let mut i: usize = self.curr_index;
        while i < self.items.len()
            invariant
                old(self).wf(),
                self == old(self),
                s == self.entries(),
                old(self).curr() <= i <= self.items.len(),
                next_match(s, old(self).curr(), self.options.prefix@) == next_match(
                    s,
                    i as int,
                    self.options.prefix@,
                ),
            decreases self.items.len() - i,
        {
            proof {
                assert(s[i as int] == entry_view(self.items@[i as int]));
            }
            if starts_with(&self.items[i].0, &self.options.prefix) {
                let key = clone_bytes(&self.items[i].0);
                let pos = self.items[i].1;
                self.curr_index = i + 1;
                return Some((key, pos));
            }
            i = i + 1;
        }
        self.curr_index = i;
        None
    }
}

/// The entries a freshly rewound iterator hands out before `None`: read from
/// `from`, keeping exactly those whose key begins with `prefix`.
pub open spec fn emitted_from(
    s: Seq<(Seq<u8>, LogRecordPos)>,
    from: int,
    prefix: Seq<u8>,
) -> Seq<(Seq<u8>, LogRecordPos)>
    decreases s.len() - from,
{
    if from < 0 {
        emitted_from(s, 0, prefix)
    } else if from >= s.len() {
        Seq::empty()
    } else if spec_starts_with(s[from].0, prefix) {
        seq![s[from]] + emitted_from(s, from + 1, prefix)
    } else {
        emitted_from(s, from + 1, prefix)
    }
}

/// Without a prefix the iterator emits every entry of the snapshot, in the
/// snapshot's order.
pub proof fn lemma_iterator_emits_all(s: Seq<(Seq<u8>, LogRecordPos)>, from: int)
    requires
        0 <= from <= s.len(),
    ensures
        emitted_from(s, from, Seq::empty()) == s.skip(from),
    decreases s.len() - from,
{
    if from >= s.len() {
        assert(emitted_from(s, from, Seq::empty()) =~= s.skip(from));
    } else {
        assert(spec_starts_with(s[from].0, Seq::empty())) by {
            assert(s[from].0.subrange(0, 0) =~= Seq::<u8>::empty());
        }
        lemma_iterator_emits_all(s, from + 1);
        assert(seq![s[from]] + s.skip(from + 1) =~= s.skip(from));
    }
}

/// With a prefix the iterator emits exactly the entries whose key begins
/// with it, each one once, in the snapshot's order.
pub proof fn lemma_iterator_emits_prefix(
    s: Seq<(Seq<u8>, LogRecordPos)>,
    from: int,
    prefix: Seq<u8>,
)
    requires
        0 <= from <= s.len(),
    ensures
        forall|t: int|
            0 <= t < emitted_from(s, from, prefix).len() ==> spec_starts_with(
                (#[trigger] emitted_from(s, from, prefix)[t]).0,
                prefix,
            ),
        forall|t: int|
            0 <= t < emitted_from(s, from, prefix).len() ==> exists|q: int|
                from <= q < s.len() && #[trigger] s[q] == (#[trigger] emitted_from(
                    s,
                    from,
                    prefix,
                )[t]),
        forall|q: int|
            from <= q < s.len() && spec_starts_with((#[trigger] s[q]).0, prefix)
                ==> emitted_from(s, from, prefix).contains(s[q]),
        sorted_entries(s) ==> sorted_entries(emitted_from(s, from, prefix)),
        sorted_entries_rev(s) ==> sorted_entries_rev(emitted_from(s, from, prefix)),
    decreases s.len() - from,
{
    let e = emitted_from(s, from, prefix);
    if from >= s.len() {
    } else {
        lemma_iterator_emits_prefix(s, from + 1, prefix);
        let e2 = emitted_from(s, from + 1, prefix);
        if spec_starts_with(s[from].0, prefix) {
            assert(e == seq![s[from]] + e2);
            assert forall|t: int| 0 <= t < e.len() implies exists|q: int|
                from <= q < s.len() && #[trigger] s[q] == (#[trigger] e[t]) by {
                if t == 0 {
                    assert(s[from] == e[0]);
                } else {
                    assert(e[t] == e2[t - 1]);
                    let q = choose|q: int|
                        from + 1 <= q < s.len() && #[trigger] s[q] == (#[trigger] e2[t - 1]);
                    assert(from <= q < s.len() && s[q] == e[t]);
                }
            }
            assert forall|q: int|
                from <= q < s.len() && spec_starts_with((#[trigger] s[q]).0, prefix) implies
                    e.contains(s[q]) by {
                if q == from {
                    assert(e[0] == s[from]);
                } else {
                    assert(e2.contains(s[q]));
                    let t = choose|t: int| 0 <= t < e2.len() && e2[t] == s[q];
                    assert(e[t + 1] == s[q]);
                }
            }
            if sorted_entries(s) {
                assert forall|i: int, j: int| 0 <= i < j < e.len() implies lex_lt(
                    (#[trigger] e[i]).0,
                    (#[trigger] e[j]).0,
                ) by {
                    if i == 0 {
                        let q = choose|q: int|
                            from + 1 <= q < s.len() && #[trigger] s[q] == (#[trigger] e2[j - 1]);
                        assert(e[j] == e2[j - 1]);
                        assert(lex_lt(s[from].0, s[q].0));
                    } else {
                        assert(e[i] == e2[i - 1]);
                        assert(e[j] == e2[j - 1]);
                    }
                }
            }
            if sorted_entries_rev(s) {
                assert forall|i: int, j: int| 0 <= i < j < e.len() implies lex_lt(
                    (#[trigger] e[j]).0,
                    (#[trigger] e[i]).0,
                ) by {
                    if i == 0 {
                        let q = choose|q: int|
                            from + 1 <= q < s.len() && #[trigger] s[q] == (#[trigger] e2[j - 1]);
                        assert(e[j] == e2[j - 1]);
                        assert(lex_lt(s[q].0, s[from].0));
                    } else {
                        assert(e[i] == e2[i - 1]);
                        assert(e[j] == e2[j - 1]);
                    }
                }
            }
        } else {
            assert(e == e2);
            assert forall|t: int| 0 <= t < e.len() implies exists|q: int|
                from <= q < s.len() && #[trigger] s[q] == (#[trigger] e[t]) by {
                let q = choose|q: int|
                    from + 1 <= q < s.len() && #[trigger] s[q] == (#[trigger] e2[t]);
                assert(from <= q < s.len() && s[q] == e[t]);
            }
        }
    }
}

} // verus!
