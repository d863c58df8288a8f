//! Ordering groundwork: a lexicographic order on integer sequences and
//! the fact that a strictly ascending sequence is determined by the set
//! of its elements. The canonical order on quotes and the canonical
//! category order are both instances.

use vstd::prelude::*;
use vstd::relations::{antisymmetric, strongly_connected};

verus! {

/// Lexicographic order on integer sequences: the empty sequence comes
/// first, otherwise the first differing position decides.
pub open spec fn lex_le(a: Seq<int>, b: Seq<int>) -> bool
    decreases a.len(),
{
    if a.len() == 0 {
        true
    } else if b.len() == 0 {
        false
    } else if a[0] != b[0] {
        a[0] < b[0]
    } else {
        lex_le(a.drop_first(), b.drop_first())
    }
}

/// Any two integer sequences are comparable under `lex_le`.
pub proof fn lemma_lex_le_total(a: Seq<int>, b: Seq<int>)
    ensures
        lex_le(a, b) || lex_le(b, a),
    decreases a.len(),
{
    if a.len() == 0 {
    } else if b.len() == 0 {
    } else if a[0] != b[0] {
    } else {
        lemma_lex_le_total(a.drop_first(), b.drop_first());
    }
}

/// `lex_le` both ways means the sequences are equal.
pub proof fn lemma_lex_le_antisymmetric(a: Seq<int>, b: Seq<int>)
    requires
        lex_le(a, b),
        lex_le(b, a),
    ensures
        a == b,
    decreases a.len(),
{
    if a.len() == 0 {
        assert(b.len() == 0);
        assert(a =~= b);
    } else {
        assert(b.len() != 0);
        if a[0] == b[0] {
            lemma_lex_le_antisymmetric(a.drop_first(), b.drop_first());
            assert(a.drop_first().len() == b.drop_first().len());
            assert(a.len() == b.len());
            assert forall|i: int| 0 <= i < a.len() implies a[i] == b[i] by {
                if i > 0 {
                    assert(a.drop_first()[i - 1] == b.drop_first()[i - 1]);
                }
            }
            assert(a =~= b);
        }
    }
}

/// `lex_le` is transitive.
pub proof fn lemma_lex_le_transitive(a: Seq<int>, b: Seq<int>, c: Seq<int>)
    requires
        lex_le(a, b),
        lex_le(b, c),
    ensures
        lex_le(a, c),
    decreases a.len(),
{
    if a.len() == 0 {
    } else {
        assert(b.len() != 0);
        assert(c.len() != 0);
        if a[0] == b[0] && b[0] == c[0] {
            lemma_lex_le_transitive(a.drop_first(), b.drop_first(), c.drop_first());
        }
    }
}

/// With equal first elements, `lex_le` is decided by the tails.
pub proof fn lemma_lex_le_step(a: Seq<int>, b: Seq<int>)
    requires
        a.len() > 0,
        b.len() > 0,
        a[0] == b[0],
    ensures
        lex_le(a, b) == lex_le(a.drop_first(), b.drop_first()),
{
}

/// The elements of `s` strictly ascend under `le`: later elements are
/// greater and never repeat.
pub open spec fn strictly_ascending<T>(s: Seq<T>, le: spec_fn(T, T) -> bool) -> bool {
    forall|i: int, j: int| #![trigger le(s[i], s[j])]
        0 <= i < j < s.len() ==> le(s[i], s[j]) && s[i] != s[j]
}

/// A strictly ascending sequence is determined by the set of its
/// elements: two such sequences over the same total order with the same
/// element set are equal.
pub proof fn lemma_strictly_ascending_unique<T>(a: Seq<T>, b: Seq<T>, le: spec_fn(T, T) -> bool)
    requires
        antisymmetric(le),
        strongly_connected(le),
        strictly_ascending(a, le),
        strictly_ascending(b, le),
        a.to_set() == b.to_set(),
    ensures
        a == b,
    decreases a.len(),
{
    if a.len() == 0 {
        if b.len() != 0 {
            assert(b.to_set().contains(b[0]));
            assert(a.contains(b[0]));
        }
        assert(a =~= b);
    } else {
        assert(a.to_set().contains(a[0]));
        assert(b.contains(a[0]));
        let m = b.lemma_contains_to_index(a[0]);
        assert(b.to_set().contains(b[0]));
        assert(a.contains(b[0]));
        let k = a.lemma_contains_to_index(b[0]);
        if m > 0 {
            assert(le(b[0], b[m]));
        }
        if k > 0 {
            assert(le(a[0], a[k]));
        }
        assert(a[0] == b[0]);
        let at = a.drop_first();
        let bt = b.drop_first();
        assert forall|x: T| at.contains(x) implies bt.contains(x) by {
            let i = at.lemma_contains_to_index(x);
            assert(at[i] == a[i + 1]);
            assert(a[i + 1] == x);
            assert(le(a[0], a[i + 1]));
            assert(a[0] != a[i + 1]);
            assert(a.to_set().contains(x));
            assert(b.contains(x));
            let j = b.lemma_contains_to_index(x);
            assert(j != 0);
            assert(bt[j - 1] == x);
        }
        assert forall|x: T| bt.contains(x) implies at.contains(x) by {
            let i = bt.lemma_contains_to_index(x);
            assert(bt[i] == b[i + 1]);
            assert(b[i + 1] == x);
            assert(le(b[0], b[i + 1]));
            assert(b[0] != b[i + 1]);
            assert(b.to_set().contains(x));
            assert(a.contains(x));
            let j = a.lemma_contains_to_index(x);
            assert(j != 0);
            assert(at[j - 1] == x);
        }
        assert(at.to_set() =~= bt.to_set());
        assert(strictly_ascending(at, le)) by {
            assert forall|i: int, j: int| 0 <= i < j < at.len() implies #[trigger] le(at[i], at[j])
                && at[i] != at[j] by {
                assert(at[i] == a[i + 1]);
                assert(at[j] == a[j + 1]);
                assert(le(a[i + 1], a[j + 1]) && a[i + 1] != a[j + 1]);
            }
        }
        assert(strictly_ascending(bt, le)) by {
            assert forall|i: int, j: int| 0 <= i < j < bt.len() implies #[trigger] le(bt[i], bt[j])
                && bt[i] != bt[j] by {
                assert(bt[i] == b[i + 1]);
                assert(bt[j] == b[j + 1]);
                assert(le(b[i + 1], b[j + 1]) && b[i + 1] != b[j + 1]);
            }
        }
        lemma_strictly_ascending_unique(at, bt, le);
        assert forall|i: int| 0 <= i < a.len() implies a[i] == b[i] by {
            if i > 0 {
                assert(at[i - 1] == bt[i - 1]);
            }
        }
        assert(a =~= b);
    }
}

} // verus!
