//! The decisions behind the presentation shell: its mode value, the
//! whitespace trim applied to entered text, and the submit / edit
//! actions that the windowed shell performs on the collection. The
//! shell itself only renders and hands events back as plain values.

use crate::category::{all_cats, category_set_of, selection_of, to_category_set, to_selection};
use crate::db::{add_quote, db_canonical, dbv, remove_quote, sort_list};
use crate::quote::{clone_quote, Quote, QuoteV};
use vstd::prelude::*;
use vstd::seq_lib::group_seq_properties;

verus! {

/// The shell's mode: browsing all quotes by category, entering a new
/// quote, or searching.
#[derive(Clone, Debug, PartialEq)]
pub enum CurrentAppState {
    QuoteCategories,
    QuoteEntry { current_text: String },
    Search { current_search_term: String },
}

/// The whitespace characters stripped from entered text.
pub open spec fn is_space(c: char) -> bool {
    c == ' ' || c == '\t' || c == '\n' || c == '\r'
}

/// A text with its leading whitespace stripped.
pub open spec fn trim_front(t: Seq<char>) -> Seq<char>
    decreases t.len(),
{
    if t.len() > 0 && is_space(t[0]) {
        trim_front(t.drop_first())
    } else {
        t
    }
}

/// A text with its trailing whitespace stripped.
pub open spec fn trim_back(t: Seq<char>) -> Seq<char>
    decreases t.len(),
{
    if t.len() > 0 && is_space(t.last()) {
        trim_back(t.drop_last())
    } else {
        t
    }
}

/// A text with whitespace stripped at both ends.
pub open spec fn trimmed(t: Seq<char>) -> Seq<char> {
    trim_back(trim_front(t))
}

/// Whether the character is stripped by the trim.
pub fn is_space_exec(c: char) -> (b: bool)
    ensures
        b == is_space(c),
{
    c == ' ' || c == '\t' || c == '\n' || c == '\r'
}

/// The entered text with whitespace stripped at both ends.
pub fn trim_str(s: &str) -> (r: String)
    ensures
        r@ == trimmed(s@),
{
    let slen = s.unicode_len();
    let mut a: usize = 0;
    proof {
        assert(s@.skip(0) =~= s@);
    }
    while a < slen && is_space_exec(s.get_char(a))
        invariant
            slen == s@.len(),
            a <= slen,
            trim_front(s@) == trim_front(s@.skip(a as int)),
        decreases slen - a,
    {
        proof {
            assert(s@.skip(a as int)[0] == s@[a as int]);
            assert(s@.skip(a as int).drop_first() =~= s@.skip(a + 1));
        }
        a += 1;
    }
    proof {
        if a < slen {
            assert(s@.skip(a as int)[0] == s@[a as int]);
            assert(trim_front(s@.skip(a as int)) == s@.skip(a as int));
        } else {
            assert(s@.skip(a as int).len() == 0);
        }
        assert(trim_front(s@) == s@.skip(a as int));
    }
    let mut b: usize = slen;
    proof {
        assert(s@.subrange(a as int, b as int) =~= s@.skip(a as int));
    }
    while b > a && is_space_exec(s.get_char(b - 1))
        invariant
            slen == s@.len(),
            a <= b <= slen,
            trim_front(s@) == s@.skip(a as int),
            trim_back(s@.skip(a as int)) == trim_back(s@.subrange(a as int, b as int)),
        decreases b,
    {
        proof {
            let sub = s@.subrange(a as int, b as int);
            assert(sub.last() == s@[b - 1]);
            assert(sub.drop_last() =~= s@.subrange(a as int, b - 1));
        }
        b -= 1;
    }
    proof {
        let sub = s@.subrange(a as int, b as int);
        if b > a {
            assert(sub.last() == s@[b - 1]);
            assert(trim_back(sub) == sub);
        } else {
            assert(sub.len() == 0);
        }
    }
    let piece = s.substring_char(a, b);
    String::from_str(piece)
}

/// The submit action of the quote entry screen: trims the entered
/// text, tags it with the checked categories, appends it to the
/// collection and restores the canonical order (which also collapses
/// a duplicate entry). A text that is empty after trimming, or a
/// selection vector without one slot per category, is rejected and the
/// collection is left unchanged.
pub fn submit_entry(db: &mut Vec<Quote>, entered: &str, checked: &Vec<bool>) -> (added: bool)
    ensures
        added == (trimmed(entered@).len() > 0 && checked@.len() == all_cats().len()),
        added ==> db_canonical(dbv(final(db)@)) && dbv(final(db)@).to_set() == dbv(
            old(db)@,
        ).to_set().insert(
            QuoteV { text: trimmed(entered@), cats: category_set_of(checked@) },
        ),
        !added ==> final(db)@ == old(db)@,
{
    broadcast use group_seq_properties;

    let text = trim_str(entered);
    if text.as_str().is_empty() {
        return false;
    }
    match to_category_set(checked) {
        None => false,
        Some(cats) => {
            let ghost qv = QuoteV { text: trimmed(entered@), cats: category_set_of(checked@) };
            let q = Quote { text, categories: cats };
            proof {
                assert(q@ =~= qv);
            }
            add_quote(db, q);
            sort_list(db);
            true
        },
    }
}

/// The edit action of the quote settings window: removes the chosen
/// quote from the collection and re-opens the entry screen primed with
/// its text and its category selection.
pub fn edit_quote(db: &mut Vec<Quote>, q: &Quote) -> (r: (CurrentAppState, Vec<bool>))
    ensures
        (r.0 matches CurrentAppState::QuoteEntry { current_text } && current_text@ == q.text@),
        r.1@ == selection_of(q.categories@),
        dbv(old(db)@).contains(q@) ==> exists|i: int|
            0 <= i < old(db)@.len() && old(db)@[i]@ == q@ && (forall|j: int|
                0 <= j < i ==> old(db)@[j]@ != q@) && final(db)@ == old(db)@.remove(i),
        !dbv(old(db)@).contains(q@) ==> final(db)@ == old(db)@,
{
    remove_quote(db, q);
    let copy = clone_quote(q);
    let sel = to_selection(&q.categories);
    (CurrentAppState::QuoteEntry { current_text: copy.text }, sel)
}

} // verus!
