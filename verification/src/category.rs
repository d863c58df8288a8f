//! The fixed category model: the closed set of tags a quote may carry,
//! the canonical ordering among them, and the two total conversions
//! between category lists and the per-category boolean selection vector
//! that the presentation shell works with.

use vstd::prelude::*;

verus! {

/// One of the fixed, closed set of topic tags a quote may be associated
/// with. The declaration order is the canonical category order.
#[derive(Clone, Copy, PartialEq, Eq, Structural, Debug)]
pub enum Category {
    Wisdom,
    Motivation,
    Humour,
    Love,
}

/// How many categories exist.
pub const CATEGORY_COUNT: usize = 4;

/// The canonical position of a category in the fixed category list.
pub open spec fn cat_idx(c: Category) -> int {
    match c {
        Category::Wisdom => 0,
        Category::Motivation => 1,
        Category::Humour => 2,
        Category::Love => 3,
    }
}

/// The fixed, ordered list of all categories.
pub open spec fn all_cats() -> Seq<Category> {
    seq![Category::Wisdom, Category::Motivation, Category::Humour, Category::Love]
}

/// Every category sits in the category list at its own index.
pub proof fn lemma_all_cats_complete(c: Category)
    ensures
        0 <= cat_idx(c) < all_cats().len(),
        all_cats()[cat_idx(c)] == c,
{
}

/// The fixed, ordered list of all categories, as a value.
pub fn all_categories() -> (r: Vec<Category>)
    ensures
        r@ == all_cats(),
{
    let mut r: Vec<Category> = Vec::new();
    r.push(Category::Wisdom);
    r.push(Category::Motivation);
    r.push(Category::Humour);
    r.push(Category::Love);
    proof {
        assert(r@ =~= all_cats());
    }
    r
}

/// The canonical position of a category in the fixed category list.
pub fn category_index(c: Category) -> (i: usize)
    ensures
        i as int == cat_idx(c),
{
    match c {
        Category::Wisdom => 0,
        Category::Motivation => 1,
        Category::Humour => 2,
        Category::Love => 3,
    }
}

/// The canonical order on categories: by position in the fixed list.
pub open spec fn cat_le_fn() -> spec_fn(Category, Category) -> bool {
    |a: Category, b: Category| cat_idx(a) <= cat_idx(b)
}

/// A category list is canonical when it strictly ascends in the fixed
/// category order; such a list names each category at most once, so it
/// faithfully represents a set of categories.
pub open spec fn cats_wf(cs: Seq<Category>) -> bool {
    crate::order::strictly_ascending(cs, cat_le_fn())
}

/// `cat_le_fn` is a total order on categories.
pub proof fn lemma_cat_le_total_order()
    ensures
        vstd::relations::antisymmetric(cat_le_fn()),
        vstd::relations::strongly_connected(cat_le_fn()),
        vstd::relations::transitive(cat_le_fn()),
{
    assert forall|x: Category, y: Category|
        #[trigger] cat_le_fn()(x, y) && #[trigger] cat_le_fn()(y, x) implies x == y by {
        lemma_all_cats_complete(x);
        lemma_all_cats_complete(y);
        assert(cat_idx(x) == cat_idx(y));
        assert(all_cats()[cat_idx(x)] == all_cats()[cat_idx(y)]);
    }
}

/// The selection vector of a category set: one boolean per category in
/// the fixed order, true exactly for the members.
pub open spec fn selection_of(cs: Seq<Category>) -> Seq<bool> {
    Seq::new(all_cats().len(), |i: int| cs.contains(all_cats()[i]))
}

/// The categories named by the first `i` slots of a selection vector,
/// in the fixed category order.
pub open spec fn selected_upto(sel: Seq<bool>, i: int) -> Seq<Category>
    decreases i,
{
    if i <= 0 {
        Seq::empty()
    } else {
        selected_upto(sel, i - 1)
            + if sel[i - 1] { seq![all_cats()[i - 1]] } else { Seq::<Category>::empty() }
    }
}

/// The category set named by a full selection vector.
pub open spec fn category_set_of(sel: Seq<bool>) -> Seq<Category> {
    selected_upto(sel, all_cats().len() as int)
}

/// `selected_upto` yields a canonical list of exactly the categories
/// whose slot below `i` is set.
pub proof fn lemma_selected_upto(sel: Seq<bool>, i: int)
    requires
        0 <= i <= all_cats().len(),
    ensures
        cats_wf(selected_upto(sel, i)),
        forall|k: int|
            0 <= k < selected_upto(sel, i).len() ==> cat_idx(
                #[trigger] selected_upto(sel, i)[k],
            ) < i,
        forall|c: Category|
            selected_upto(sel, i).contains(c) <==> (cat_idx(c) < i && sel[cat_idx(c)]),
    decreases i,
{
    if i <= 0 {
        assert forall|c: Category| !selected_upto(sel, i).contains(c) by {
            assert(selected_upto(sel, i).len() == 0);
        }
    } else {
        lemma_selected_upto(sel, i - 1);
        let prev = selected_upto(sel, i - 1);
        let cur = selected_upto(sel, i);
        if sel[i - 1] {
            assert(cur == prev + seq![all_cats()[i - 1]]);
            assert(cur.len() == prev.len() + 1);
            assert(cur[prev.len() as int] == all_cats()[i - 1]);
            assert(cat_idx(all_cats()[i - 1]) == i - 1);
            assert forall|k: int| 0 <= k < cur.len() implies cat_idx(#[trigger] cur[k]) < i by {
                if k < prev.len() {
                    assert(cur[k] == prev[k]);
                }
            }
            assert(cats_wf(cur)) by {
                assert forall|p: int, q: int| #![trigger cat_le_fn()(cur[p], cur[q])]
                    0 <= p < q < cur.len() implies cat_le_fn()(cur[p], cur[q]) && cur[p] != cur[q] by {
                    if q < prev.len() {
                        assert(cur[p] == prev[p]);
                        assert(cur[q] == prev[q]);
                        assert(cat_le_fn()(prev[p], prev[q]));
                        assert(prev[p] != prev[q]);
                    } else {
                        assert(cur[p] == prev[p]);
                        assert(cat_idx(prev[p]) < i - 1);
                        assert(cat_idx(cur[q]) == i - 1);
                        lemma_all_cats_complete(cur[p]);
                        lemma_all_cats_complete(cur[q]);
                    }
                }
            }
            assert forall|c: Category|
                cur.contains(c) <==> (cat_idx(c) < i && sel[cat_idx(c)]) by {
                if cur.contains(c) {
                    let k = cur.lemma_contains_to_index(c);
                    if k < prev.len() {
                        assert(prev[k] == c);
                        assert(prev.contains(c));
                    } else {
                        assert(c == all_cats()[i - 1]);
                    }
                }
                if cat_idx(c) < i && sel[cat_idx(c)] {
                    if cat_idx(c) < i - 1 {
                        assert(prev.contains(c));
                        let k = prev.lemma_contains_to_index(c);
                        assert(cur[k] == c);
                    } else {
                        lemma_all_cats_complete(c);
                        assert(c == all_cats()[i - 1]);
                        assert(cur[prev.len() as int] == c);
                    }
                }
            }
        } else {
            assert(cur =~= prev);
        }
    }
}

/// Converting a canonical category list to its selection vector and
/// back yields the original list: the two conversions are mutually
/// inverse on category sets drawn from the fixed category list.
pub proof fn lemma_selection_round_trip(cs: Seq<Category>)
    requires
        cats_wf(cs),
    ensures
        category_set_of(selection_of(cs)) == cs,
{
    let sel = selection_of(cs);
    let out = category_set_of(sel);
    lemma_selected_upto(sel, all_cats().len() as int);
    assert forall|c: Category| out.contains(c) <==> cs.contains(c) by {
        lemma_all_cats_complete(c);
        assert(sel[cat_idx(c)] == cs.contains(all_cats()[cat_idx(c)]));
    }
    assert(out.to_set() =~= cs.to_set());
    lemma_cat_le_total_order();
    crate::order::lemma_strictly_ascending_unique(out, cs, cat_le_fn());
}

/// Whether `cats` names the category `c`.
pub fn contains_category(cats: &Vec<Category>, c: Category) -> (b: bool)
    ensures
        b == cats@.contains(c),
{
    let mut k: usize = 0;
    while k < cats.len()
        invariant
            0 <= k <= cats@.len(),
            forall|j: int| 0 <= j < k ==> cats@[j] != c,
        decreases cats@.len() - k,
    {
        if cats[k] == c {
            return true;
        }
        k += 1;
    }
    false
}

/// Derives the selection vector for a category list: one slot per
/// category in the fixed order, true exactly where the list names the
/// category. Total: never fails.
pub fn to_selection(cats: &Vec<Category>) -> (sel: Vec<bool>)
    ensures
        sel@ == selection_of(cats@),
{
    let all = all_categories();
    let mut sel: Vec<bool> = Vec::new();
    let mut i: usize = 0;
    while i < all.len()
        invariant
            all@ == all_cats(),
            i <= all@.len(),
            sel@.len() == i,
            forall|j: int| 0 <= j < i ==> sel@[j] == cats@.contains(all_cats()[j]),
        decreases all@.len() - i,
    {
        let b = contains_category(cats, all[i]);
        sel.push(b);
        i += 1;
    }
    proof {
        assert(sel@ =~= selection_of(cats@));
    }
    sel
}

/// Reads a selection vector back into the canonical list of selected
/// categories. Returns `None` when the vector does not have one slot
/// per category — a caller error that is reported, not ignored.
pub fn to_category_set(sel: &Vec<bool>) -> (r: Option<Vec<Category>>)
    ensures
        r is Some <==> sel@.len() == all_cats().len(),
        r matches Some(cs) ==> cs@ == category_set_of(sel@) && cats_wf(cs@),
{
    if sel.len() != CATEGORY_COUNT {
        return None;
    }
    let all = all_categories();
    let mut out: Vec<Category> = Vec::new();
    let mut i: usize = 0;
    while i < CATEGORY_COUNT
        invariant
            all@ == all_cats(),
            sel@.len() == all_cats().len(),
            i <= CATEGORY_COUNT,
            CATEGORY_COUNT == all_cats().len(),
            out@ == selected_upto(sel@, i as int),
        decreases CATEGORY_COUNT - i,
    {
        if sel[i] {
            out.push(all[i]);
            proof {
                assert(out@ =~= selected_upto(sel@, i + 1));
            }
        } else {
            proof {
                assert(out@ =~= selected_upto(sel@, i + 1));
            }
        }
        i += 1;
    }
    proof {
        lemma_selected_upto(sel@, all_cats().len() as int);
    }
    Some(out)
}

} // verus!
