//! The order of raw keys: lexicographic on bytes, a proper prefix first.

use vstd::prelude::*;

verus! {

/// `a` is below `b` at position `i`: equal before it, smaller at it.
pub open spec fn lt_at(a: Seq<u8>, b: Seq<u8>, i: int) -> bool {
    &&& 0 <= i < a.len()
    &&& i < b.len()
    &&& a[i] < b[i]
    &&& forall|j: int| 0 <= j < i ==> a[j] == b[j]
}

/// `a` is a proper prefix of `b`.
pub open spec fn proper_prefix(a: Seq<u8>, b: Seq<u8>) -> bool {
    &&& a.len() < b.len()
    &&& forall|j: int| 0 <= j < a.len() ==> a[j] == b[j]
}

/// Lexicographic order of byte strings.
pub open spec fn lex_lt(a: Seq<u8>, b: Seq<u8>) -> bool {
    (exists|i: int| #[trigger] lt_at(a, b, i)) || proper_prefix(a, b)
}

pub proof fn lemma_lex_asym(a: Seq<u8>, b: Seq<u8>)
    ensures
        !(lex_lt(a, b) && lex_lt(b, a)),
{
    if lex_lt(a, b) && lex_lt(b, a) {
        if exists|i: int| lt_at(a, b, i) {
            let i = choose|i: int| lt_at(a, b, i);
            if exists|j: int| lt_at(b, a, j) {
                let j = choose|j: int| lt_at(b, a, j);
                if i < j {
                    assert(b[i] == a[i]);
                } else if j < i {
                    assert(a[j] == b[j]);
                }
            } else {
                assert(b[i] == a[i]);
            }
        } else if exists|j: int| lt_at(b, a, j) {
            let j = choose|j: int| lt_at(b, a, j);
            assert(a[j] == b[j]);
        }
    }
}

pub proof fn lemma_lex_trans(a: Seq<u8>, b: Seq<u8>, c: Seq<u8>)
    requires
        lex_lt(a, b),
        lex_lt(b, c),
    ensures
        lex_lt(a, c),
{
    if exists|i: int| lt_at(a, b, i) {
        let i = choose|i: int| lt_at(a, b, i);
        if exists|j: int| lt_at(b, c, j) {
            let j = choose|j: int| lt_at(b, c, j);
            if i <= j {
                assert(lt_at(a, c, i));
            } else {
                assert(lt_at(a, c, j));
            }
        } else {
            assert(lt_at(a, c, i));
        }
    } else if exists|j: int| lt_at(b, c, j) {
        let j = choose|j: int| lt_at(b, c, j);
        if j < a.len() {
            assert(lt_at(a, c, j));
        } else {
            assert(proper_prefix(a, c));
        }
    } else {
        assert(proper_prefix(a, c));
    }
}

proof fn lemma_lex_total_from(a: Seq<u8>, b: Seq<u8>, n: int)
    requires
        a != b,
        0 <= n <= a.len(),
        n <= b.len(),
        forall|j: int| 0 <= j < n ==> a[j] == b[j],
    ensures
        lex_lt(a, b) || lex_lt(b, a),
    decreases a.len() - n,
{
    if n == a.len() && n == b.len() {
        assert(a =~= b);
    } else if n == a.len() {
        assert(proper_prefix(a, b));
    } else if n == b.len() {
        assert(proper_prefix(b, a));
    } else if a[n] < b[n] {
        assert(lt_at(a, b, n));
    } else if b[n] < a[n] {
        assert(lt_at(b, a, n));
    } else {
        lemma_lex_total_from(a, b, n + 1);
    }
}

pub proof fn lemma_lex_total(a: Seq<u8>, b: Seq<u8>)
    requires
        a != b,
    ensures
        lex_lt(a, b) || lex_lt(b, a),
{
    lemma_lex_total_from(a, b, 0);
}

/// Whether `a` comes before `b`.
pub fn lex_less(a: &[u8], b: &[u8]) -> (r: bool)
    ensures
        r == lex_lt(a@, b@),
{
    let mut i: usize = 0;
    while i < a.len() && i < b.len()
        invariant
            i <= a@.len(),
            i <= b@.len(),
            forall|j: int| 0 <= j < i ==> a@[j] == b@[j],
        decreases a@.len() - i,
    {
        if a[i] < b[i] {
            assert(lt_at(a@, b@, i as int));
            return true;
        }
        if a[i] > b[i] {
            assert(lt_at(b@, a@, i as int));
            proof {
                lemma_lex_asym(a@, b@);
            }
            return false;
        }
        i = i + 1;
    }
    proof {
        lemma_lex_asym(a@, b@);
        if a@.len() < b@.len() {
            assert(proper_prefix(a@, b@));
        } else if a@.len() > b@.len() {
            assert(proper_prefix(b@, a@));
        } else {
            assert(a@ =~= b@);
            assert(!proper_prefix(a@, b@));
            if exists|k: int| lt_at(a@, b@, k) {
                let k = choose|k: int| lt_at(a@, b@, k);
                assert(a@[k] == b@[k]);
            }
        }
    }
    a.len() < b.len()
}

} // verus!
