//! Relative paths are byte strings with forward-slash separators,
//! independent of host path conventions. Snapshot entries and diff output
//! are kept in strict lexicographic byte order, defined here.

use vstd::prelude::*;

verus! {

/// Strict lexicographic order on byte sequences: `a` sorts before `b`.
pub open spec fn lex_lt(a: Seq<u8>, b: Seq<u8>) -> bool
    decreases a.len(),
{
    if b.len() == 0 {
        false
    } else if a.len() == 0 {
        true
    } else if a[0] < b[0] {
        true
    } else if a[0] > b[0] {
        false
    } else {
        lex_lt(a.skip(1), b.skip(1))
    }
}

/// Lexicographic order is irreflexive.
pub proof fn lemma_lex_irrefl(a: Seq<u8>)
    ensures
        !lex_lt(a, a),
    decreases a.len(),
{
    if a.len() > 0 {
        lemma_lex_irrefl(a.skip(1));
    }
}

/// Lexicographic order is asymmetric.
pub proof fn lemma_lex_asym(a: Seq<u8>, b: Seq<u8>)
    ensures
        lex_lt(a, b) ==> !lex_lt(b, a),
    decreases a.len(),
{
    if a.len() > 0 && b.len() > 0 && a[0] == b[0] {
        lemma_lex_asym(a.skip(1), b.skip(1));
    }
}

/// Lexicographic order is transitive.
pub proof fn lemma_lex_trans(a: Seq<u8>, b: Seq<u8>, c: Seq<u8>)
    ensures
        lex_lt(a, b) && lex_lt(b, c) ==> lex_lt(a, c),
    decreases a.len(),
{
    if a.len() > 0 && b.len() > 0 && c.len() > 0 && a[0] == b[0] && b[0] == c[0] {
        lemma_lex_trans(a.skip(1), b.skip(1), c.skip(1));
    }
}

/// Any two byte sequences are ordered or equal.
pub proof fn lemma_lex_total(a: Seq<u8>, b: Seq<u8>)
    ensures
        lex_lt(a, b) || lex_lt(b, a) || a == b,
    decreases a.len(),
{
    if a.len() > 0 && b.len() > 0 && a[0] == b[0] {
        lemma_lex_total(a.skip(1), b.skip(1));
        if !lex_lt(a, b) && !lex_lt(b, a) {
            assert(a.skip(1) == b.skip(1));
            assert(a.len() == b.len());
            assert forall|k: int| 0 <= k < a.len() implies a[k] == b[k] by {
                if k > 0 {
                    assert(a[k] == a.skip(1)[k - 1]);
                    assert(b[k] == b.skip(1)[k - 1]);
                }
            }
            assert(a =~= b);
        }
    } else if a.len() == 0 && b.len() == 0 {
        assert(a =~= b);
    }
}

/// Skipping one shared element on both sides keeps the order.
proof fn lemma_lex_skip_step(a: Seq<u8>, b: Seq<u8>, i: int)
    requires
        0 <= i < a.len(),
        i < b.len(),
        a[i] == b[i],
    ensures
        lex_lt(a.skip(i), b.skip(i)) == lex_lt(a.skip(i + 1), b.skip(i + 1)),
        (a.skip(i) =~= b.skip(i)) == (a.skip(i + 1) =~= b.skip(i + 1)),
{
    assert(a.skip(i)[0] == a[i]);
    assert(b.skip(i)[0] == b[i]);
    assert(a.skip(i).skip(1) =~= a.skip(i + 1));
    assert(b.skip(i).skip(1) =~= b.skip(i + 1));
    if a.skip(i) =~= b.skip(i) {
        assert(a.skip(i + 1) =~= b.skip(i + 1));
    }
    if a.skip(i + 1) =~= b.skip(i + 1) {
        assert(a.skip(i).len() == b.skip(i).len());
        assert forall|k: int| 0 <= k < a.skip(i).len() implies a.skip(i)[k] == b.skip(i)[k] by {
            if k > 0 {
                assert(a.skip(i)[k] == a.skip(i + 1)[k - 1]);
                assert(b.skip(i)[k] == b.skip(i + 1)[k - 1]);
            }
        }
        assert(a.skip(i) =~= b.skip(i));
    }
}

/// Three-way outcome of a path comparison.
#[derive(PartialEq, Eq, Structural, Clone, Copy, Debug)]
pub enum PathOrder {
    Less,
    Equal,
    Greater,
}

/// Compares two paths in lexicographic byte order.
pub fn path_cmp(a: &Vec<u8>, b: &Vec<u8>) -> (r: PathOrder)
    ensures
        (r == PathOrder::Less) == lex_lt(a@, b@),
        (r == PathOrder::Equal) == (a@ == b@),
        (r == PathOrder::Greater) == lex_lt(b@, a@),
{
    proof {
        lemma_lex_irrefl(a@);
        lemma_lex_asym(a@, b@);
        lemma_lex_asym(b@, a@);
        lemma_lex_total(a@, b@);
    }
    let n: usize = if a.len() < b.len() {
        a.len()
    } else {
        b.len()
    };
    proof {
        assert(a@.skip(0) =~= a@);
        assert(b@.skip(0) =~= b@);
    }
    let mut i: usize = 0;
    while i < n
        invariant
            0 <= i <= n,
            n <= a@.len(),
            n <= b@.len(),
            n == a@.len() || n == b@.len(),
            lex_lt(a@, b@) == lex_lt(a@.skip(i as int), b@.skip(i as int)),
            lex_lt(b@, a@) == lex_lt(b@.skip(i as int), a@.skip(i as int)),
            (a@ =~= b@) == (a@.skip(i as int) =~= b@.skip(i as int)),
        decreases n - i,
    {
        let x = a[i];
        let y = b[i];
        if x < y {
            proof {
                assert(a@.skip(i as int)[0] == x);
                assert(b@.skip(i as int)[0] == y);
                assert(lex_lt(a@.skip(i as int), b@.skip(i as int)));
                lemma_lex_irrefl(a@);
                lemma_lex_asym(a@, b@);
            }
            return PathOrder::Less;
        } else if x > y {
            proof {
                assert(a@.skip(i as int)[0] == x);
                assert(b@.skip(i as int)[0] == y);
                assert(lex_lt(b@.skip(i as int), a@.skip(i as int)));
                lemma_lex_irrefl(b@);
                lemma_lex_asym(b@, a@);
            }
            return PathOrder::Greater;
        }
        proof {
            lemma_lex_skip_step(a@, b@, i as int);
            lemma_lex_skip_step(b@, a@, i as int);
        }
        i = i + 1;
    }
    if a.len() < b.len() {
        proof {
            assert(a@.skip(i as int).len() == 0);
            assert(b@.skip(i as int).len() > 0);
            assert(lex_lt(a@.skip(i as int), b@.skip(i as int)));
            lemma_lex_irrefl(a@);
            lemma_lex_asym(a@, b@);
        }
        PathOrder::Less
    } else if a.len() > b.len() {
        proof {
            assert(b@.skip(i as int).len() == 0);
            assert(a@.skip(i as int).len() > 0);
            assert(lex_lt(b@.skip(i as int), a@.skip(i as int)));
            lemma_lex_irrefl(b@);
            lemma_lex_asym(b@, a@);
        }
        PathOrder::Greater
    } else {
        proof {
            assert(a@.skip(i as int) =~= b@.skip(i as int));
            assert(a@ =~= b@);
            lemma_lex_irrefl(a@);
        }
        PathOrder::Equal
    }
}

/// Copies a byte buffer.
pub fn clone_bytes(a: &Vec<u8>) -> (r: Vec<u8>)
    ensures
        r@ == a@,
{
    let r = a.clone();
    proof {
        assert(r@ =~= a@);
    }
    r
}

} // verus!
