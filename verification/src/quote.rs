//! The quote record: a text snippet with its category tags, its ghost
//! view, structural equality, and the canonical order used by the sort
//! operation (lexicographic by text, ties broken by category list).

use crate::category::{all_cats, cat_idx, category_index, cats_wf, Category};
use crate::order::{
    lemma_lex_le_antisymmetric, lemma_lex_le_step, lemma_lex_le_total, lemma_lex_le_transitive,
    lex_le,
};
use vstd::prelude::*;

verus! {

/// A quote: its body text and the categories it is tagged with.
/// A quote built through this crate keeps its category list canonical
/// (see [`cats_wf`]); identity is structural, by text plus categories.
#[derive(Debug, Clone)]
pub struct Quote {
    pub text: String,
    pub categories: Vec<Category>,
}

/// The mathematical value of a quote: its text as a character sequence
/// and its categories in order.
#[verifier::ext_equal]
pub ghost struct QuoteV {
    pub text: Seq<char>,
    pub cats: Seq<Category>,
}

impl View for Quote {
    type V = QuoteV;

    open spec fn view(&self) -> QuoteV {
        QuoteV { text: self.text@, cats: self.categories@ }
    }
}

/// A quote value is well formed when its category list is canonical.
pub open spec fn quote_wf(q: QuoteV) -> bool {
    cats_wf(q.cats)
}

/// Whether two category lists hold the same categories in the same
/// order.
pub fn cats_equal(a: &Vec<Category>, b: &Vec<Category>) -> (r: bool)
    ensures
        r == (a@ == b@),
{
    if a.len() != b.len() {
        return false;
    }
    let mut i: usize = 0;
    while i < a.len()
        invariant
            a@.len() == b@.len(),
            i <= a@.len(),
            forall|j: int| 0 <= j < i ==> a@[j] == b@[j],
        decreases a@.len() - i,
    {
        if a[i] != b[i] {
            return false;
        }
        i += 1;
    }
    proof {
        assert(a@ =~= b@);
    }
    true
}

impl PartialEq for Quote {
    /// Structural equality: same text and same category list.
    fn eq(&self, other: &Quote) -> (r: bool) {
        self.text == other.text && cats_equal(&self.categories, &other.categories)
    }
}

impl vstd::std_specs::cmp::PartialEqSpecImpl for Quote {
    open spec fn obeys_eq_spec() -> bool {
        true
    }

    open spec fn eq_spec(&self, other: &Quote) -> bool {
        self@ == other@
    }
}

/// An owned copy of a quote with the same value.
pub fn clone_quote(q: &Quote) -> (r: Quote)
    ensures
        r@ == q@,
{
    let text = q.text.clone();
    let mut cats: Vec<Category> = Vec::new();
    let mut i: usize = 0;
    while i < q.categories.len()
        invariant
            i <= q.categories@.len(),
            cats@ == q.categories@.take(i as int),
        decreases q.categories@.len() - i,
    {
        cats.push(q.categories[i]);
        proof {
            assert(cats@ =~= q.categories@.take(i + 1));
        }
        i += 1;
    }
    proof {
        assert(cats@ =~= q.categories@);
    }
    Quote { text, categories: cats }
}

/// A text as a sequence of character codes, the base of the canonical
/// text order.
pub open spec fn text_key(t: Seq<char>) -> Seq<int> {
    t.map_values(|c: char| c as int)
}

/// A category list as its sequence of canonical positions.
pub open spec fn cats_key(cs: Seq<Category>) -> Seq<int> {
    cs.map_values(|c: Category| cat_idx(c))
}

/// Equal character-code sequences come from equal texts.
pub proof fn lemma_text_key_injective(s: Seq<char>, t: Seq<char>)
    requires
        text_key(s) == text_key(t),
    ensures
        s == t,
{
    assert(text_key(s).len() == s.len());
    assert(text_key(t).len() == t.len());
    assert forall|i: int| 0 <= i < s.len() implies s[i] == t[i] by {
        assert(text_key(s)[i] == s[i] as int);
        assert(text_key(t)[i] == t[i] as int);
    }
    assert(s =~= t);
}

/// Equal position sequences come from equal category lists.
pub proof fn lemma_cats_key_injective(s: Seq<Category>, t: Seq<Category>)
    requires
        cats_key(s) == cats_key(t),
    ensures
        s == t,
{
    assert(cats_key(s).len() == s.len());
    assert(cats_key(t).len() == t.len());
    assert forall|i: int| 0 <= i < s.len() implies s[i] == t[i] by {
        assert(cats_key(s)[i] == cat_idx(s[i]));
        assert(cats_key(t)[i] == cat_idx(t[i]));
        crate::category::lemma_all_cats_complete(s[i]);
        crate::category::lemma_all_cats_complete(t[i]);
        assert(all_cats()[cat_idx(s[i])] == all_cats()[cat_idx(t[i])]);
    }
    assert(s =~= t);
}

/// The canonical order on quotes: lexicographic by text, ties broken by
/// the category list.
pub open spec fn quote_le(a: QuoteV, b: QuoteV) -> bool {
    if a.text == b.text {
        lex_le(cats_key(a.cats), cats_key(b.cats))
    } else {
        lex_le(text_key(a.text), text_key(b.text))
    }
}

/// The canonical quote order as a function value.
pub open spec fn quote_le_fn() -> spec_fn(QuoteV, QuoteV) -> bool {
    |a: QuoteV, b: QuoteV| quote_le(a, b)
}

/// Whether `a` comes no later than `b` in the canonical text order.
pub fn str_le(a: &str, b: &str) -> (r: bool)
    ensures
        r == lex_le(text_key(a@), text_key(b@)),
{
    let alen = a.unicode_len();
    let blen = b.unicode_len();
    let mut i: usize = 0;
    proof {
        assert(text_key(a@).skip(0) =~= text_key(a@));
        assert(text_key(b@).skip(0) =~= text_key(b@));
    }
    loop
        invariant
            alen == a@.len(),
            blen == b@.len(),
            i <= alen,
            i <= blen,
            lex_le(text_key(a@), text_key(b@)) == lex_le(
                text_key(a@).skip(i as int),
                text_key(b@).skip(i as int),
            ),
        decreases alen - i,
    {
        let ghost ka = text_key(a@).skip(i as int);
        let ghost kb = text_key(b@).skip(i as int);
        if i == alen {
            proof {
                assert(ka.len() == 0);
            }
            return true;
        }
        if i == blen {
            proof {
                assert(kb.len() == 0);
                assert(ka.len() > 0);
            }
            return false;
        }
        let ca = a.get_char(i);
        let cb = b.get_char(i);
        proof {
            assert(ka[0] == a@[i as int] as int);
            assert(kb[0] == b@[i as int] as int);
        }
        if (ca as u32) != (cb as u32) {
            return (ca as u32) < (cb as u32);
        }
        proof {
            lemma_lex_le_step(ka, kb);
            assert(ka.drop_first() =~= text_key(a@).skip(i + 1));
            assert(kb.drop_first() =~= text_key(b@).skip(i + 1));
        }
        i += 1;
    }
}

/// Whether `a` comes no later than `b` in the canonical category-list
/// order.
pub fn cats_le(a: &Vec<Category>, b: &Vec<Category>) -> (r: bool)
    ensures
        r == lex_le(cats_key(a@), cats_key(b@)),
{
    let mut i: usize = 0;
    proof {
        assert(cats_key(a@).skip(0) =~= cats_key(a@));
        assert(cats_key(b@).skip(0) =~= cats_key(b@));
    }
    loop
        invariant
            i <= a@.len(),
            i <= b@.len(),
            lex_le(cats_key(a@), cats_key(b@)) == lex_le(
                cats_key(a@).skip(i as int),
                cats_key(b@).skip(i as int),
            ),
        decreases a@.len() - i,
    {
        let ghost ka = cats_key(a@).skip(i as int);
        let ghost kb = cats_key(b@).skip(i as int);
        if i == a.len() {
            proof {
                assert(ka.len() == 0);
            }
            return true;
        }
        if i == b.len() {
            proof {
                assert(kb.len() == 0);
                assert(ka.len() > 0);
            }
            return false;
        }
        let ia = category_index(a[i]);
        let ib = category_index(b[i]);
        proof {
            assert(ka[0] == cat_idx(a@[i as int]));
            assert(kb[0] == cat_idx(b@[i as int]));
        }
        if ia != ib {
            return ia < ib;
        }
        proof {
            lemma_lex_le_step(ka, kb);
            assert(ka.drop_first() =~= cats_key(a@).skip(i + 1));
            assert(kb.drop_first() =~= cats_key(b@).skip(i + 1));
        }
        i += 1;
    }
}

/// Whether `a` comes no later than `b` in the canonical quote order.
pub fn quote_le_exec(a: &Quote, b: &Quote) -> (r: bool)
    ensures
        r == quote_le(a@, b@),
{
    if a.text == b.text {
        cats_le(&a.categories, &b.categories)
    } else {
        str_le(a.text.as_str(), b.text.as_str())
    }
}

/// The canonical quote order is a total order.
pub proof fn lemma_quote_le_total_order()
    ensures
        vstd::relations::antisymmetric(quote_le_fn()),
        vstd::relations::strongly_connected(quote_le_fn()),
        vstd::relations::transitive(quote_le_fn()),
{
    assert forall|a: QuoteV, b: QuoteV|
        #[trigger] quote_le_fn()(a, b) && #[trigger] quote_le_fn()(b, a) implies a == b by {
        if a.text == b.text {
            lemma_lex_le_antisymmetric(cats_key(a.cats), cats_key(b.cats));
            lemma_cats_key_injective(a.cats, b.cats);
            assert(a =~= b);
        } else {
            lemma_lex_le_antisymmetric(text_key(a.text), text_key(b.text));
            lemma_text_key_injective(a.text, b.text);
        }
    }
    assert forall|a: QuoteV, b: QuoteV| #[trigger] quote_le_fn()(a, b) || #[trigger] quote_le_fn()(
        b,
        a,
    ) by {
        if a.text == b.text {
            lemma_lex_le_total(cats_key(a.cats), cats_key(b.cats));
        } else {
            lemma_lex_le_total(text_key(a.text), text_key(b.text));
        }
    }
    assert forall|a: QuoteV, b: QuoteV, c: QuoteV|
        #[trigger] quote_le_fn()(a, b) && #[trigger] quote_le_fn()(b, c) implies quote_le_fn()(
        a,
        c,
    ) by {
        if a.text == b.text && b.text == c.text {
            lemma_lex_le_transitive(cats_key(a.cats), cats_key(b.cats), cats_key(c.cats));
        } else if a.text == b.text {
            assert(text_key(a.text) == text_key(b.text));
        } else if b.text == c.text {
            assert(text_key(b.text) == text_key(c.text));
        } else {
            lemma_lex_le_transitive(text_key(a.text), text_key(b.text), text_key(c.text));
            if a.text == c.text {
                lemma_lex_le_antisymmetric(text_key(a.text), text_key(b.text));
                lemma_text_key_injective(a.text, b.text);
            }
        }
    }
}

} // verus!
