//! The database store: an ordered in-memory collection of quotes with
//! append, structural removal, canonical sort with deduplication,
//! category filtering and substring search.
//!
//! Persistence is deferred: the presentation shell saves the encoded
//! collection at controlled shutdown (and after each sort), so the
//! mutating operations here cannot fail and return no error.

use crate::category::Category;
use crate::order::{lemma_strictly_ascending_unique, strictly_ascending};
use crate::quote::{clone_quote, quote_le_exec, quote_le_fn, quote_wf, Quote, QuoteV};
use vstd::prelude::*;
use vstd::seq_lib::group_seq_properties;

verus! {

/// The mathematical value of a collection: its quotes' views in order.
pub open spec fn dbv(s: Seq<Quote>) -> Seq<QuoteV> {
    s.map_values(|q: Quote| q@)
}

/// A collection is canonical when it strictly ascends in the canonical
/// quote order; in particular it holds no two structurally equal
/// quotes.
pub open spec fn db_canonical(s: Seq<QuoteV>) -> bool {
    strictly_ascending(s, quote_le_fn())
}

/// Taking one more element appends that element's view.
proof fn lemma_dbv_take_step(s: Seq<Quote>, i: int)
    requires
        0 <= i < s.len(),
    ensures
        dbv(s.take(i + 1)) == dbv(s.take(i)).push(s[i]@),
{
    assert(dbv(s.take(i + 1)) =~= dbv(s.take(i)).push(s[i]@));
}

/// Appends `q` at the end of the collection. Deferred persistence
/// means this cannot fail; no deduplication happens at add time.
pub fn add_quote(db: &mut Vec<Quote>, q: Quote)
    ensures
        final(db)@ == old(db)@.push(q),
        dbv(final(db)@) == dbv(old(db)@).push(q@),
{
    let ghost qv = q@;
    db.push(q);
    proof {
        assert(dbv(db@) =~= dbv(old(db)@).push(qv));
    }
}

/// Removes the first quote that is structurally equal to `q` (same
/// text, same category list). When no quote matches, the collection is
/// left unchanged and `false` comes back: absence is a silent no-op,
/// reported only through the return value, never an error.
pub fn remove_quote(db: &mut Vec<Quote>, q: &Quote) -> (found: bool)
    ensures
        found == dbv(old(db)@).contains(q@),
        !found ==> final(db)@ == old(db)@,
        found ==> exists|i: int|
            0 <= i < old(db)@.len() && old(db)@[i]@ == q@ && (forall|j: int|
                0 <= j < i ==> old(db)@[j]@ != q@) && final(db)@ == old(db)@.remove(i),
{
    let mut i: usize = 0;
    while i < db.len()
        invariant
            db@ == old(db)@,
            i <= db@.len(),
            forall|j: int| 0 <= j < i ==> db@[j]@ != q@,
        decreases db@.len() - i,
    {
        if db[i] == *q {
            let ghost idx = i as int;
            db.remove(i);
            proof {
                assert(old(db)@[idx]@ == q@);
                assert(dbv(old(db)@)[idx] == q@);
                assert(dbv(old(db)@).contains(q@));
            }
            return true;
        }
        i += 1;
    }
    proof {
        if dbv(old(db)@).contains(q@) {
            let k = dbv(old(db)@).lemma_contains_to_index(q@);
            assert(old(db)@[k]@ == q@);
        }
    }
    false
}

/// Inserting an element into a sequence adds it to the element set.
proof fn lemma_to_set_insert<T>(s: Seq<T>, j: int, e: T)
    requires
        0 <= j <= s.len(),
    ensures
        s.insert(j, e).to_set() == s.to_set().insert(e),
{
    let t = s.insert(j, e);
    assert forall|x: T| t.to_set().contains(x) implies s.to_set().insert(e).contains(x) by {
        let k = t.lemma_contains_to_index(x);
        if k < j {
            assert(s[k] == x);
        } else if k == j {
            assert(x == e);
        } else {
            assert(s[k - 1] == x);
        }
    }
    assert forall|x: T| s.to_set().insert(e).contains(x) implies t.to_set().contains(x) by {
        if x == e {
            assert(t[j] == x);
        } else {
            let k = s.lemma_contains_to_index(x);
            if k < j {
                assert(t[k] == x);
            } else {
                assert(t[k + 1] == x);
            }
        }
    }
    assert(t.to_set() =~= s.to_set().insert(e));
}

/// Reorders the collection into the canonical order (lexicographic by
/// text, ties broken by the category list) and collapses structurally
/// equal duplicates, so that afterwards no quote appears twice. The
/// set of quotes is preserved. The caller persists the canonical order
/// afterwards; reordering itself cannot fail.
pub fn sort_list(db: &mut Vec<Quote>)
    ensures
        db_canonical(dbv(final(db)@)),
        dbv(final(db)@).to_set() == dbv(old(db)@).to_set(),
{
    broadcast use group_seq_properties;

    proof {
        crate::quote::lemma_quote_le_total_order();
    }
    let mut out: Vec<Quote> = Vec::new();
    let mut i: usize = 0;
    while i < db.len()
        invariant
            db@ == old(db)@,
            i <= db@.len(),
            db_canonical(dbv(out@)),
            dbv(out@).to_set() == dbv(db@.take(i as int)).to_set(),
            vstd::relations::antisymmetric(quote_le_fn()),
            vstd::relations::strongly_connected(quote_le_fn()),
            vstd::relations::transitive(quote_le_fn()),
        decreases db@.len() - i,
    {
        let ghost qv = db@[i as int]@;
        let mut j: usize = 0;
        let mut dup = false;
        let mut stop = false;
        while j < out.len() && !stop
            invariant
                0 <= j <= out@.len(),
                db@ == old(db)@,
                i < db@.len(),
                qv == db@[i as int]@,
                forall|k: int| #![trigger quote_le_fn()(dbv(out@)[k], qv)]
                    0 <= k < j ==> quote_le_fn()(dbv(out@)[k], qv),
                forall|k: int| 0 <= k < j ==> #[trigger] dbv(out@)[k] != qv,
                dup ==> j < out@.len() && dbv(out@)[j as int] == qv,
                dup ==> stop,
                stop && !dup ==> j < out@.len() && !quote_le_fn()(dbv(out@)[j as int], qv) && dbv(
                    out@,
                )[j as int] != qv,
                db_canonical(dbv(out@)),
            decreases out@.len() - j, (if stop { 0int } else { 1int }),
        {
            let le = quote_le_exec(&out[j], &db[i]);
            let eq = out[j] == db[i];
            proof {
                assert(dbv(out@)[j as int] == out@[j as int]@);
            }
            if eq {
                dup = true;
                stop = true;
            } else if le {
                proof {
                    assert(quote_le_fn()(dbv(out@)[j as int], qv));
                    assert(dbv(out@)[j as int] != qv);
                }
                j += 1;
            } else {
                stop = true;
            }
        }
        proof {
            lemma_dbv_take_step(db@, i as int);
        }
        if dup {
            proof {
                assert(dbv(out@).contains(qv)) by {
                    assert(dbv(out@)[j as int] == qv);
                }
                assert(dbv(out@).to_set() =~= dbv(db@.take(i as int)).to_set().insert(qv));
            }
        } else {
            proof {
                assert(j == out@.len() || (!quote_le_fn()(dbv(out@)[j as int], qv) && dbv(
                    out@,
                )[j as int] != qv));
            }
            let qc = clone_quote(&db[i]);
            let ghost old_out = out@;
            out.insert(j, qc);
            proof {
                assert(dbv(out@) =~= dbv(old_out).insert(j as int, qv));
                let cur = dbv(out@);
                let prev = dbv(old_out);
                // every earlier element is strictly below qv; the element
                // at the stop position (if any) is strictly above.
                assert forall|k: int| j <= k < prev.len() implies quote_le_fn()(qv, prev[k])
                    && qv != prev[k] by {
                    assert(!quote_le_fn()(prev[j as int], qv));
                    assert(prev[j as int] != qv);
                    assert(quote_le_fn()(qv, prev[j as int]));
                    if k > j {
                        assert(quote_le_fn()(prev[j as int], prev[k]) && prev[j as int] != prev[k]);
                        assert(quote_le_fn()(qv, prev[k]));
                        if qv == prev[k] {
                            assert(quote_le_fn()(prev[j as int], qv));
                            assert(qv == prev[j as int]);
                        }
                    }
                }
                assert(db_canonical(cur)) by {
                    assert forall|p: int, q_: int| #![trigger quote_le_fn()(cur[p], cur[q_])]
                        0 <= p < q_ < cur.len() implies quote_le_fn()(cur[p], cur[q_]) && cur[p]
                        != cur[q_] by {
                        let jj = j as int;
                        if q_ < jj {
                            assert(cur[p] == prev[p] && cur[q_] == prev[q_]);
                            assert(quote_le_fn()(prev[p], prev[q_]));
                            assert(prev[p] != prev[q_]);
                        } else if p < jj && q_ == jj {
                            assert(cur[p] == prev[p] && cur[q_] == qv);
                            assert(quote_le_fn()(prev[p], qv));
                            assert(prev[p] != qv);
                        } else if p < jj && q_ > jj {
                            assert(cur[p] == prev[p] && cur[q_] == prev[q_ - 1]);
                            assert(quote_le_fn()(prev[p], qv));
                            assert(prev[p] != qv);
                            assert(quote_le_fn()(qv, prev[q_ - 1]));
                            assert(qv != prev[q_ - 1]);
                            if prev[p] == prev[q_ - 1] {
                                assert(quote_le_fn()(qv, prev[p]));
                                assert(qv == prev[p]);
                            }
                        } else if p == jj {
                            assert(cur[p] == qv && cur[q_] == prev[q_ - 1]);
                            assert(quote_le_fn()(qv, prev[q_ - 1]));
                            assert(qv != prev[q_ - 1]);
                        } else {
                            assert(cur[p] == prev[p - 1] && cur[q_] == prev[q_ - 1]);
                            assert(quote_le_fn()(prev[p - 1], prev[q_ - 1]));
                            assert(prev[p - 1] != prev[q_ - 1]);
                        }
                    }
                }
                lemma_to_set_insert(prev, j as int, qv);
                assert(cur.to_set() =~= dbv(db@.take(i as int)).to_set().insert(qv));
            }
        }
        proof {
            dbv(db@.take(i as int)).lemma_push_to_set_commute(qv);
            assert(dbv(db@.take(i + 1)).to_set() == dbv(db@.take(i as int)).to_set().insert(qv));
        }
        i += 1;
    }
    proof {
        assert(db@.take(db@.len() as int) =~= db@);
    }
    *db = out;
}

/// A collection holding the same set of quotes as one whose category
/// lists are all canonical has all its category lists canonical too:
/// sorting preserves well-formedness.
pub proof fn lemma_wf_same_set(s: Seq<QuoteV>, t: Seq<QuoteV>)
    requires
        forall|k: int| 0 <= k < s.len() ==> quote_wf(#[trigger] s[k]),
        t.to_set() == s.to_set(),
    ensures
        forall|k: int| 0 <= k < t.len() ==> quote_wf(#[trigger] t[k]),
{
    assert forall|k: int| 0 <= k < t.len() implies quote_wf(#[trigger] t[k]) by {
        assert(t.to_set().contains(t[k]));
        assert(s.contains(t[k]));
        let m = s.lemma_contains_to_index(t[k]);
        assert(quote_wf(s[m]));
    }
}

/// Whether a quote carries at least one of the wanted categories.
pub open spec fn matches_categories(q: QuoteV, wanted: Seq<Category>) -> bool {
    exists|c: Category| q.cats.contains(c) && wanted.contains(c)
}

/// A quote tagged with no category at all is excluded from every
/// category-filtered view, whatever is wanted.
pub proof fn lemma_uncategorised_never_matches(q: QuoteV, wanted: Seq<Category>)
    requires
        q.cats.len() == 0,
    ensures
        !matches_categories(q, wanted),
{
    if matches_categories(q, wanted) {
        let c = choose|c: Category| q.cats.contains(c) && wanted.contains(c);
        let k = q.cats.lemma_contains_to_index(c);
    }
}

/// The category filter predicate for a given wanted list.
pub open spec fn cat_match_fn(wanted: Seq<Category>) -> spec_fn(QuoteV) -> bool {
    |q: QuoteV| matches_categories(q, wanted)
}

/// Filtering with a predicate no element meets yields nothing.
proof fn lemma_filter_none<T>(s: Seq<T>, pred: spec_fn(T) -> bool)
    requires
        forall|i: int| 0 <= i < s.len() ==> !pred(#[trigger] s[i]),
    ensures
        s.filter(pred) == Seq::<T>::empty(),
{
    assert(s.all(|x: T| !pred(x))) by {
        assert forall|x: T| s.contains(x) implies !pred(x) by {
            let k = s.lemma_contains_to_index(x);
        }
    }
    s.lemma_all_neg_filter_empty(pred);
    assert(s.filter(pred) =~= Seq::<T>::empty());
}

/// Filtering with a predicate every element meets keeps the sequence.
proof fn lemma_filter_all<T>(s: Seq<T>, pred: spec_fn(T) -> bool)
    requires
        forall|i: int| 0 <= i < s.len() ==> pred(#[trigger] s[i]),
    ensures
        s.filter(pred) == s,
    decreases s.len(),
{
    reveal(Seq::filter);
    if s.len() != 0 {
        let rest = s.drop_last();
        assert forall|i: int| 0 <= i < rest.len() implies pred(#[trigger] rest[i]) by {
            assert(rest[i] == s[i]);
        }
        lemma_filter_all(rest, pred);
        assert(pred(s.last()));
        assert(rest.push(s.last()) =~= s);
    }
}

/// Whether the quote carries at least one of the wanted categories.
pub fn quote_matches_categories(q: &Quote, wanted: &Vec<Category>) -> (b: bool)
    ensures
        b == matches_categories(q@, wanted@),
{
    let mut i: usize = 0;
    while i < q.categories.len()
        invariant
            i <= q.categories@.len(),
            forall|j: int| 0 <= j < i ==> !wanted@.contains(#[trigger] q.categories@[j]),
        decreases q.categories@.len() - i,
    {
        if crate::category::contains_category(wanted, q.categories[i]) {
            proof {
                assert(q@.cats.contains(q.categories@[i as int]));
            }
            return true;
        }
        i += 1;
    }
    proof {
        if matches_categories(q@, wanted@) {
            let c = choose|c: Category| q@.cats.contains(c) && wanted@.contains(c);
            let k = q.categories@.lemma_contains_to_index(c);
        }
    }
    false
}

/// Yields every quote whose category set meets the wanted set, in
/// collection order. An empty wanted set selects nothing: with no
/// category checked, no quote passes.
pub fn filter_by_categories(db: &Vec<Quote>, wanted: &Vec<Category>) -> (r: Vec<Quote>)
    ensures
        dbv(r@) == dbv(db@).filter(cat_match_fn(wanted@)),
        wanted@.len() == 0 ==> r@.len() == 0,
{
    let ghost pred = cat_match_fn(wanted@);
    let mut r: Vec<Quote> = Vec::new();
    let mut i: usize = 0;
    while i < db.len()
        invariant
            i <= db@.len(),
            pred == cat_match_fn(wanted@),
            dbv(r@) == dbv(db@.take(i as int)).filter(pred),
        decreases db@.len() - i,
    {
        let keep = quote_matches_categories(&db[i], wanted);
        proof {
            lemma_dbv_take_step(db@, i as int);
            dbv(db@.take(i as int)).lemma_filter_push(db@[i as int]@, pred);
        }
        if keep {
            let ghost old_r = r@;
            r.push(clone_quote(&db[i]));
            proof {
                assert(dbv(r@) =~= dbv(old_r).push(db@[i as int]@));
            }
        }
        i += 1;
    }
    proof {
        assert(db@.take(db@.len() as int) =~= db@);
        if wanted@.len() == 0 {
            assert forall|k: int| 0 <= k < dbv(db@).len() implies !pred(#[trigger] dbv(db@)[k]) by {
                if pred(dbv(db@)[k]) {
                    let c = choose|c: Category|
                        dbv(db@)[k].cats.contains(c) && wanted@.contains(c);
                }
            }
            lemma_filter_none(dbv(db@), pred);
        }
    }
    r
}

/// Whether `pat` occurs in `s` as a contiguous run of characters.
pub open spec fn is_substring(pat: Seq<char>, s: Seq<char>) -> bool {
    exists|i: int| #![trigger s.subrange(i, i + pat.len())]
        0 <= i && i + pat.len() <= s.len() && s.subrange(i, i + pat.len()) == pat
}

/// The search predicate for a given term.
pub open spec fn search_match_fn(term: Seq<char>) -> spec_fn(QuoteV) -> bool {
    |q: QuoteV| is_substring(term, q.text)
}

/// Whether `pat` matches `s` at position `i`.
fn match_at(s: &str, pat: &str, i: usize, slen: usize, plen: usize) -> (b: bool)
    requires
        slen == s@.len(),
        plen == pat@.len(),
        i + plen <= slen,
    ensures
        b == (s@.subrange(i as int, i + pat@.len()) == pat@),
{
    let mut j: usize = 0;
    while j < plen
        invariant
            slen == s@.len(),
            plen == pat@.len(),
            i + plen <= slen,
            j <= plen,
            forall|m: int| 0 <= m < j ==> s@[i + m] == pat@[m],
        decreases plen - j,
    {
        let cs = s.get_char(i + j);
        let cp = pat.get_char(j);
        if (cs as u32) != (cp as u32) {
            proof {
                if s@.subrange(i as int, i + pat@.len()) == pat@ {
                    assert(s@.subrange(i as int, i + pat@.len())[j as int] == pat@[j as int]);
                    assert(s@[i + j] == pat@[j as int]);
                }
            }
            return false;
        }
        j += 1;
    }
    proof {
        assert(s@.subrange(i as int, i + pat@.len()) =~= pat@);
    }
    true
}

/// Whether `pat` occurs in `s` as a contiguous run of characters.
pub fn str_contains(s: &str, pat: &str) -> (b: bool)
    ensures
        b == is_substring(pat@, s@),
{
    let slen = s.unicode_len();
    let plen = pat.unicode_len();
    if plen > slen {
        return false;
    }
    if plen == 0 {
        proof {
            assert(s@.subrange(0, 0 + pat@.len() as int) =~= pat@);
        }
        return true;
    }
    let mut i: usize = 0;
    while i <= slen - plen
        invariant
            slen == s@.len(),
            plen == pat@.len(),
            plen <= slen,
            plen >= 1,
            i <= slen - plen + 1,
            forall|k: int| #![trigger s@.subrange(k, k + pat@.len())]
                0 <= k < i ==> s@.subrange(k, k + pat@.len()) != pat@,
        decreases slen - plen + 1 - i,
    {
        if match_at(s, pat, i, slen, plen) {
            return true;
        }
        i += 1;
    }
    proof {
        if is_substring(pat@, s@) {
            let k = choose|k: int| #![trigger s@.subrange(k, k + pat@.len())]
                0 <= k && k + pat@.len() <= s@.len() && s@.subrange(k, k + pat@.len()) == pat@;
            assert(k < i);
        }
    }
    false
}

/// Yields every quote whose text contains `term` as a case-sensitive
/// substring, in collection order. An empty term matches every quote,
/// so the whole collection comes back in its original order.
pub fn search_quotes(db: &Vec<Quote>, term: &str) -> (r: Vec<Quote>)
    ensures
        dbv(r@) == dbv(db@).filter(search_match_fn(term@)),
        term@.len() == 0 ==> dbv(r@) == dbv(db@),
{
    let ghost pred = search_match_fn(term@);
    let mut r: Vec<Quote> = Vec::new();
    let mut i: usize = 0;
    while i < db.len()
        invariant
            i <= db@.len(),
            pred == search_match_fn(term@),
            dbv(r@) == dbv(db@.take(i as int)).filter(pred),
        decreases db@.len() - i,
    {
        let keep = str_contains(db[i].text.as_str(), term);
        proof {
            lemma_dbv_take_step(db@, i as int);
            dbv(db@.take(i as int)).lemma_filter_push(db@[i as int]@, pred);
        }
        if keep {
            let ghost old_r = r@;
            r.push(clone_quote(&db[i]));
            proof {
                assert(dbv(r@) =~= dbv(old_r).push(db@[i as int]@));
            }
        }
        i += 1;
    }
    proof {
        assert(db@.take(db@.len() as int) =~= db@);
        if term@.len() == 0 {
            assert forall|k: int| 0 <= k < dbv(db@).len() implies pred(#[trigger] dbv(db@)[k]) by {
                let t = dbv(db@)[k].text;
                assert(t.subrange(0, 0 + term@.len() as int) =~= term@);
                assert(is_substring(term@, t));
            }
            lemma_filter_all(dbv(db@), pred);
        }
    }
    r
}

/// Two canonical collections holding the same set of quotes are the
/// same collection: sorting a second time leaves the result of the
/// first sort unchanged.
pub proof fn lemma_sort_idempotent(s1: Seq<QuoteV>, s2: Seq<QuoteV>)
    requires
        db_canonical(s1),
        db_canonical(s2),
        s1.to_set() == s2.to_set(),
    ensures
        s1 == s2,
{
    crate::quote::lemma_quote_le_total_order();
    lemma_strictly_ascending_unique(s1, s2, quote_le_fn());
}

} // verus!
