//! The export boundary: renders the collection in a human-readable
//! interchange form, one line per quote with its category names. The
//! output is a function of the collection alone, so repeated export of
//! the same collection produces the same text; the caller writes it
//! out on explicit user request.

use crate::category::{cat_idx, Category};
use crate::db::dbv;
use crate::quote::{Quote, QuoteV};
use vstd::prelude::*;

verus! {

/// The display name of a category.
pub open spec fn cat_name(c: Category) -> Seq<char> {
    match c {
        Category::Wisdom => "Wisdom"@,
        Category::Motivation => "Motivation"@,
        Category::Humour => "Humour"@,
        Category::Love => "Love"@,
    }
}

/// The display name of a category.
pub fn category_name(c: Category) -> (r: &'static str)
    ensures
        r@ == cat_name(c),
{
    match c {
        Category::Wisdom => "Wisdom",
        Category::Motivation => "Motivation",
        Category::Humour => "Humour",
        Category::Love => "Love",
    }
}

/// A category list rendered as names separated by comma and space.
pub open spec fn export_cats(cs: Seq<Category>) -> Seq<char>
    decreases cs.len(),
{
    if cs.len() == 0 {
        Seq::empty()
    } else if cs.len() == 1 {
        cat_name(cs[0])
    } else {
        cat_name(cs[0]) + seq![',', ' '] + export_cats(cs.drop_first())
    }
}

/// One quote in the export form: its text, then its categories in
/// brackets.
pub open spec fn export_quote(q: QuoteV) -> Seq<char> {
    q.text + seq![' ', '['] + export_cats(q.cats) + seq![']', '\n']
}

/// The whole collection in the export form.
pub open spec fn export_db(s: Seq<QuoteV>) -> Seq<char>
    decreases s.len(),
{
    if s.len() == 0 {
        Seq::empty()
    } else {
        export_quote(s[0]) + export_db(s.drop_first())
    }
}

/// Renders the collection in the export form. Exporting twice from
/// the same collection yields the same text.
pub fn export_string(db: &Vec<Quote>) -> (out: String)
    ensures
        out@ == export_db(dbv(db@)),
{
    let mut out = String::new();
    let mut i: usize = 0;
    proof {
        assert(dbv(db@).skip(0) =~= dbv(db@));
        assert(out@ + export_db(dbv(db@).skip(0)) =~= export_db(dbv(db@)));
    }
    while i < db.len()
        invariant
            i <= db@.len(),
            export_db(dbv(db@)) == out@ + export_db(dbv(db@).skip(i as int)),
        decreases db@.len() - i,
    {
        let ghost pre = out@;
        let ghost rest = dbv(db@).skip(i as int);
        let ghost qv = db@[i as int]@;
        proof {
            assert(rest[0] == qv);
            assert(rest.drop_first() =~= dbv(db@).skip(i + 1));
            assert(export_db(rest) == export_quote(qv) + export_db(dbv(db@).skip(i + 1)));
        }
        out.append(db[i].text.as_str());
        out.append(" [");
        append_export_cats(&mut out, &db[i].categories);
        out.append("]\n");
        proof {
            reveal_strlit(" [");
            reveal_strlit("]\n");
            assert(out@ =~= pre + export_quote(qv));
            assert(pre + (export_quote(qv) + export_db(dbv(db@).skip(i + 1))) =~= (pre
                + export_quote(qv)) + export_db(dbv(db@).skip(i + 1)));
        }
        i += 1;
    }
    proof {
        assert(export_db(dbv(db@).skip(db@.len() as int)).len() == 0);
        assert(out@ + export_db(dbv(db@).skip(db@.len() as int)) =~= out@);
    }
    out
}

/// Appends the rendered category names to `out`.
fn append_export_cats(out: &mut String, cs: &Vec<Category>)
    ensures
        final(out)@ == old(out)@ + export_cats(cs@),
{
    let mut i: usize = 0;
    proof {
        assert(cs@.skip(0) =~= cs@);
    }
    while i < cs.len()
        invariant
            i <= cs@.len(),
            old(out)@ + export_cats(cs@) == out@ + export_cats(cs@.skip(i as int)),
        decreases cs@.len() - i,
    {
        let ghost pre = out@;
        let ghost rest = cs@.skip(i as int);
        proof {
            assert(rest[0] == cs@[i as int]);
            assert(rest.drop_first() =~= cs@.skip(i + 1));
            if rest.len() > 1 {
                assert(export_cats(rest) == cat_name(rest[0]) + seq![',', ' '] + export_cats(
                    rest.drop_first(),
                ));
            } else {
                assert(export_cats(cs@.skip(i + 1)).len() == 0);
                assert(export_cats(rest) =~= cat_name(rest[0]) + export_cats(cs@.skip(i + 1)));
            }
        }
        out.append(category_name(cs[i]));
        if i + 1 < cs.len() {
            out.append(", ");
            proof {
                reveal_strlit(", ");
                assert(out@ =~= pre + (cat_name(cs@[i as int]) + seq![',', ' ']));
                assert(pre + (cat_name(cs@[i as int]) + seq![',', ' ']) + export_cats(
                    cs@.skip(i + 1),
                ) =~= pre + export_cats(rest));
            }
        } else {
            proof {
                assert(out@ =~= pre + cat_name(cs@[i as int]));
                assert(pre + cat_name(cs@[i as int]) + export_cats(cs@.skip(i + 1)) =~= pre
                    + export_cats(rest));
            }
        }
        i += 1;
    }
    proof {
        assert(export_cats(cs@.skip(cs@.len() as int)).len() == 0);
        assert(out@ + export_cats(cs@.skip(cs@.len() as int)) =~= out@);
    }
}

} // verus!
