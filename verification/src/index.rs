use vstd::prelude::*;

use crate::data::log_record::LogRecordPos;
use crate::index::btree::Btree;
use crate::options::IndexType;

pub mod btree;

verus! {

/// Strict lexicographic order on byte sequences: the order data file keys
/// are kept and iterated in.
pub open spec fn lex_lt(a: Seq<u8>, b: Seq<u8>) -> bool
    decreases a.len(),
{
    if b.len() == 0 {
        false
    } else if a.len() == 0 {
        true
    } else if a[0] < b[0] {
        true
    } else if a[0] > b[0] {
        false
    } else {
        lex_lt(a.skip(1), b.skip(1))
    }
}

/// Of two byte sequences, exactly one of `a < b`, `a == b`, `b < a` holds.
pub proof fn lemma_lex_trichotomy(a: Seq<u8>, b: Seq<u8>)
    ensures
        lex_lt(a, b) || lex_lt(b, a) || a == b,
        lex_lt(a, b) ==> !lex_lt(b, a) && a != b,
        lex_lt(b, a) ==> !lex_lt(a, b) && a != b,
    decreases a.len(),
{
    if a.len() != 0 && b.len() != 0 && a[0] == b[0] {
        lemma_lex_trichotomy(a.skip(1), b.skip(1));
        if a.skip(1) == b.skip(1) {
            assert forall|q: int| 0 <= q < a.len() implies a[q] == b[q] by {
                if q > 0 {
                    assert(a.skip(1)[q - 1] == b.skip(1)[q - 1]);
                }
            }
            assert(a =~= b);
        }
        if a == b {
            assert(a.skip(1) =~= b.skip(1));
        }
    } else {
        if a.len() == 0 && b.len() == 0 {
            assert(a =~= b);
        }
    }
}

/// Lexicographic order is transitive.
pub proof fn lemma_lex_transitive(a: Seq<u8>, b: Seq<u8>, c: Seq<u8>)
    requires
        lex_lt(a, b),
        lex_lt(b, c),
    ensures
        lex_lt(a, c),
    decreases a.len(),
{
    if a.len() != 0 && b.len() != 0 && c.len() != 0 {
        if a[0] == b[0] && b[0] == c[0] {
            lemma_lex_transitive(a.skip(1), b.skip(1), c.skip(1));
        }
    }
}

/// How two keys compare.
#[derive(PartialEq, Eq, Structural, Clone, Copy, Debug)]
pub enum KeyOrdering {
    Less,
    Equal,
    Greater,
}

/// Compares two keys in lexicographic order.
pub fn compare_keys(a: &Vec<u8>, b: &Vec<u8>) -> (r: KeyOrdering)
    ensures
        r == KeyOrdering::Less <==> lex_lt(a@, b@),
        r == KeyOrdering::Equal <==> a@ == b@,
        r == KeyOrdering::Greater <==> lex_lt(b@, a@),
{
    proof {
        lemma_lex_trichotomy(a@, b@);
        assert(a@.skip(0) =~= a@);
        assert(b@.skip(0) =~= b@);
    }
    let mut i: usize = 0;
    let a_len = a.len();
    let b_len = b.len();
    while i < a_len && i < b_len
        invariant
            i <= a_len,
            i <= b_len,
            a_len == a@.len(),
            b_len == b@.len(),
            forall|q: int| 0 <= q < i ==> a@[q] == b@[q],
            lex_lt(a@, b@) <==> lex_lt(a@.skip(i as int), b@.skip(i as int)),
            lex_lt(b@, a@) <==> lex_lt(b@.skip(i as int), a@.skip(i as int)),
        decreases a_len - i,
    {
        let x = a[i];
        let y = b[i];
        if x < y {
            proof {
                assert(lex_lt(a@.skip(i as int), b@.skip(i as int)));
            }
            return KeyOrdering::Less;
        }
        if x > y {
            proof {
                assert(lex_lt(b@.skip(i as int), a@.skip(i as int)));
            }
            return KeyOrdering::Greater;
        }
        proof {
            lemma_lex_skip_step(a@, b@, i as int);
            lemma_lex_skip_step(b@, a@, i as int);
        }
        i = i + 1;
    }
    if a_len < b_len {
        proof {
            assert(a@.skip(i as int).len() == 0);
            assert(b@.skip(i as int).len() > 0);
        }
        KeyOrdering::Less
    } else if a_len > b_len {
        proof {
            assert(b@.skip(i as int).len() == 0);
            assert(a@.skip(i as int).len() > 0);
        }
        KeyOrdering::Greater
    } else {
        proof {
            assert(a@ =~= b@);
        }
        KeyOrdering::Equal
    }
}

/// When the bytes at `i` agree, comparison from `i` reduces to comparison
/// from `i + 1`.
proof fn lemma_lex_skip_step(a: Seq<u8>, b: Seq<u8>, i: int)
    requires
        0 <= i < a.len(),
        i < b.len(),
        a[i] == b[i],
    ensures
        lex_lt(a.skip(i), b.skip(i)) <==> lex_lt(a.skip(i + 1), b.skip(i + 1)),
{
    assert(a.skip(i).skip(1) =~= a.skip(i + 1));
    assert(b.skip(i).skip(1) =~= b.skip(i + 1));
    assert(a.skip(i)[0] == a[i]);
    assert(b.skip(i)[0] == b[i]);
}

/// The key directory implementation an engine is opened with. Only the
/// ordered in-memory directory is provided.
pub fn new_indexer(index_type: IndexType) -> (r: Btree)
    requires
        index_type == IndexType::BTree,
    ensures
        r.wf(),
        r.entries() == Seq::<(Seq<u8>, LogRecordPos)>::empty(),
{
    Btree::new()
}

} // verus!
