//! The durable persistence format: one line per quote, holding the
//! selection bits for its categories followed by the quote text with
//! newline and backslash escaped. Encoding and parsing are mutually
//! inverse, so a saved collection loads back unchanged; malformed
//! input is rejected (the caller falls back to an empty collection).

use crate::category::{
    all_cats, category_set_of, selection_of, to_category_set, to_selection, Category,
    CATEGORY_COUNT,
};
use crate::db::dbv;
use crate::quote::{quote_wf, Quote, QuoteV};
use vstd::prelude::*;

verus! {

/// The selection bits of a category list, as `'0'`/`'1'` characters in
/// the fixed category order.
pub open spec fn sel_chars(cats: Seq<Category>) -> Seq<char> {
    Seq::new(all_cats().len(), |i: int| if selection_of(cats)[i] { '1' } else { '0' })
}

/// One text character in its encoded form: newline and backslash are
/// escaped, everything else stands for itself.
pub open spec fn escape_char(c: char) -> Seq<char> {
    if c == '\n' {
        seq!['\\', 'n']
    } else if c == '\\' {
        seq!['\\', '\\']
    } else {
        seq![c]
    }
}

/// A text in its encoded form.
pub open spec fn encode_text(t: Seq<char>) -> Seq<char>
    decreases t.len(),
{
    if t.len() == 0 {
        Seq::empty()
    } else {
        escape_char(t[0]) + encode_text(t.drop_first())
    }
}

/// One quote as a line: its selection bits, its escaped text, and a
/// terminating newline.
pub open spec fn encode_quote(q: QuoteV) -> Seq<char> {
    sel_chars(q.cats) + encode_text(q.text) + seq!['\n']
}

/// A collection as the concatenation of its quotes' lines.
pub open spec fn encode_db(s: Seq<QuoteV>) -> Seq<char>
    decreases s.len(),
{
    if s.len() == 0 {
        Seq::empty()
    } else {
        encode_quote(s[0]) + encode_db(s.drop_first())
    }
}

/// Reads an escaped text from position `i` up to its terminating
/// newline; yields the text and the position after the newline.
pub open spec fn parse_text(s: Seq<char>, i: int) -> Option<(Seq<char>, int)>
    decreases s.len() - i,
{
    if i < 0 || i >= s.len() {
        None
    } else if s[i] == '\n' {
        Some((Seq::empty(), i + 1))
    } else if s[i] == '\\' {
        if i + 1 < s.len() && (s[i + 1] == 'n' || s[i + 1] == '\\') {
            let c = if s[i + 1] == 'n' {
                '\n'
            } else {
                '\\'
            };
            match parse_text(s, i + 2) {
                Some((t, j)) => Some((seq![c] + t, j)),
                None => None,
            }
        } else {
            None
        }
    } else {
        match parse_text(s, i + 1) {
            Some((t, j)) => Some((seq![s[i]] + t, j)),
            None => None,
        }
    }
}

/// Reads one quote line from position `i`: the selection bits, then
/// the escaped text up to the newline.
pub open spec fn parse_quote(s: Seq<char>, i: int) -> Option<(QuoteV, int)> {
    if 0 <= i && i + all_cats().len() <= s.len() && (forall|k: int| #![trigger s[i + k]]
        0 <= k < all_cats().len() ==> (s[i + k] == '0' || s[i + k] == '1')) {
        let sel = Seq::new(all_cats().len(), |k: int| s[i + k] == '1');
        match parse_text(s, i + all_cats().len()) {
            Some((t, j)) => Some((QuoteV { text: t, cats: category_set_of(sel) }, j)),
            None => None,
        }
    } else {
        None
    }
}

/// Reads a whole collection: quote lines until the end of the input.
pub open spec fn parse_db(s: Seq<char>, i: int) -> Option<Seq<QuoteV>>
    decreases s.len() - i,
{
    if i == s.len() {
        Some(Seq::empty())
    } else if i < 0 || i > s.len() {
        None
    } else {
        match parse_quote(s, i) {
            Some((q, j)) => if i < j <= s.len() {
                match parse_db(s, j) {
                    Some(rest) => Some(seq![q] + rest),
                    None => None,
                }
            } else {
                None
            },
            None => None,
        }
    }
}

/// Parsing recovers a text from its encoded form: when the characters
/// from `i` spell `encode_text(t)` followed by a newline, the parse
/// yields exactly `t` and stops after the newline.
proof fn lemma_parse_encode_text(s: Seq<char>, i: int, t: Seq<char>)
    requires
        0 <= i,
        i + encode_text(t).len() + 1 <= s.len(),
        forall|k: int| #![trigger s[i + k]]
            0 <= k < encode_text(t).len() ==> s[i + k] == encode_text(t)[k],
        s[i + encode_text(t).len()] == '\n',
    ensures
        parse_text(s, i) == Some((t, i + encode_text(t).len() + 1)),
    decreases t.len(),
{
    if t.len() == 0 {
        assert(s[i + 0] == '\n');
    } else {
        let c = t[0];
        let t2 = t.drop_first();
        let esc = escape_char(c);
        let enc = encode_text(t);
        let enc2 = encode_text(t2);
        assert(enc == esc + enc2);
        let el = esc.len();
        assert forall|k: int| #![trigger s[(i + el) + k]]
            0 <= k < enc2.len() implies s[(i + el) + k] == enc2[k] by {
            assert(enc[el + k] == enc2[k]);
            assert(s[i + (el + k)] == enc[el + k]);
        }
        assert(s[(i + el) + enc2.len()] == '\n') by {
            assert(i + el + enc2.len() == i + enc.len());
        }
        lemma_parse_encode_text(s, i + el, t2);
        if c == '\n' {
            assert(s[i + 0] == enc[0]);
            assert(s[i + 1] == enc[1]);
            assert(s[i] == '\\' && s[i + 1] == 'n');
            assert(parse_text(s, i) == Some((seq!['\n'] + t2, i + el + enc2.len() + 1)));
            assert(seq!['\n'] + t2 =~= t);
        } else if c == '\\' {
            assert(s[i + 0] == enc[0]);
            assert(s[i + 1] == enc[1]);
            assert(s[i] == '\\' && s[i + 1] == '\\');
            assert(parse_text(s, i) == Some((seq!['\\'] + t2, i + el + enc2.len() + 1)));
            assert(seq!['\\'] + t2 =~= t);
        } else {
            assert(s[i + 0] == enc[0]);
            assert(s[i] == c);
            assert(parse_text(s, i) == Some((seq![c] + t2, i + el + enc2.len() + 1)));
            assert(seq![c] + t2 =~= t);
        }
        assert(i + el + enc2.len() + 1 == i + enc.len() + 1);
    }
}

/// Parsing recovers a quote from its encoded line, provided its
/// category list is canonical.
proof fn lemma_parse_encode_quote(s: Seq<char>, i: int, q: QuoteV)
    requires
        quote_wf(q),
        0 <= i,
        i + encode_quote(q).len() <= s.len(),
        forall|k: int| #![trigger s[i + k]]
            0 <= k < encode_quote(q).len() ==> s[i + k] == encode_quote(q)[k],
    ensures
        parse_quote(s, i) == Some((q, i + encode_quote(q).len())),
{
    let nc = all_cats().len() as int;
    let enc = encode_quote(q);
    let sc = sel_chars(q.cats);
    let et = encode_text(q.text);
    assert(sc.len() == nc);
    assert(enc.len() == nc + et.len() + 1);
    assert forall|k: int| #![trigger s[i + k]] 0 <= k < nc implies (s[i + k] == '0' || s[i + k]
        == '1') by {
        assert(s[i + k] == enc[k]);
        assert(enc[k] == sc[k]);
    }
    let sel = Seq::new(all_cats().len(), |k: int| s[i + k] == '1');
    assert(sel =~= selection_of(q.cats)) by {
        assert forall|k: int| 0 <= k < nc implies sel[k] == selection_of(q.cats)[k] by {
            assert(s[i + k] == enc[k]);
            assert(enc[k] == sc[k]);
        }
    }
    crate::category::lemma_selection_round_trip(q.cats);
    assert forall|k: int| #![trigger s[(i + nc) + k]]
        0 <= k < et.len() implies s[(i + nc) + k] == et[k] by {
        assert(s[i + (nc + k)] == enc[nc + k]);
        assert(enc[nc + k] == et[k]);
    }
    assert(s[(i + nc) + et.len()] == '\n') by {
        assert(s[i + (nc + et.len())] == enc[nc + et.len()]);
        assert(enc[nc + et.len()] == '\n');
    }
    lemma_parse_encode_text(s, i + nc, q.text);
    let parsed = QuoteV { text: q.text, cats: category_set_of(sel) };
    assert(parsed =~= q);
    assert(i + nc + et.len() + 1 == i + enc.len());
}

/// Parsing recovers a collection from its encoding laid out at the
/// tail of `s`.
proof fn lemma_parse_encode_db_at(s: Seq<char>, i: int, qs: Seq<QuoteV>)
    requires
        forall|k: int| 0 <= k < qs.len() ==> quote_wf(#[trigger] qs[k]),
        0 <= i,
        i + encode_db(qs).len() == s.len(),
        forall|k: int| #![trigger s[i + k]]
            0 <= k < encode_db(qs).len() ==> s[i + k] == encode_db(qs)[k],
    ensures
        parse_db(s, i) == Some(qs),
    decreases qs.len(),
{
    if qs.len() == 0 {
        assert(i == s.len());
    } else {
        let q = qs[0];
        let rest = qs.drop_first();
        let eq = encode_quote(q);
        let er = encode_db(rest);
        assert(encode_db(qs) == eq + er);
        assert forall|k: int| #![trigger s[i + k]]
            0 <= k < eq.len() implies s[i + k] == eq[k] by {
            assert(s[i + k] == encode_db(qs)[k]);
        }
        assert(eq.len() == all_cats().len() + encode_text(q.text).len() + 1);
        lemma_parse_encode_quote(s, i, q);
        let j = i + eq.len();
        assert forall|k: int| #![trigger s[j + k]] 0 <= k < er.len() implies s[j + k] == er[k] by {
            assert(s[i + (eq.len() + k)] == encode_db(qs)[eq.len() + k]);
            assert(encode_db(qs)[eq.len() + k] == er[k]);
        }
        lemma_parse_encode_db_at(s, j, rest);
        assert(parse_db(s, i) == Some(seq![q] + rest));
        assert(seq![q] + rest =~= qs);
    }
}

/// Loading a saved collection yields the collection back: encoding and
/// parsing are mutually inverse on collections whose quotes carry
/// canonical category lists.
pub proof fn lemma_save_load_round_trip(qs: Seq<QuoteV>)
    requires
        forall|k: int| 0 <= k < qs.len() ==> quote_wf(#[trigger] qs[k]),
    ensures
        parse_db(encode_db(qs), 0) == Some(qs),
{
    lemma_parse_encode_db_at(encode_db(qs), 0, qs);
}

/// The full shutdown round trip: a collection of well-formed quotes
/// that is sorted and then saved loads back as exactly the sorted
/// collection.
pub proof fn lemma_sorted_save_loads_back(before: Seq<QuoteV>, sorted: Seq<QuoteV>)
    requires
        forall|k: int| 0 <= k < before.len() ==> quote_wf(#[trigger] before[k]),
        crate::db::db_canonical(sorted),
        sorted.to_set() == before.to_set(),
    ensures
        parse_db(encode_db(sorted), 0) == Some(sorted),
{
    crate::db::lemma_wf_same_set(before, sorted);
    lemma_save_load_round_trip(sorted);
}

/// Relies on String::push: appends exactly the given character.
#[verifier::external_body]
fn push_char(s: &mut String, c: char)
    ensures
        final(s)@ == old(s)@.push(c),
{
    s.push(c);
}

/// Appends the encoded form of `t` to `out`.
fn append_encoded_text(out: &mut String, t: &str)
    ensures
        final(out)@ == old(out)@ + encode_text(t@),
{
    let tlen = t.unicode_len();
    let mut i: usize = 0;
    proof {
        assert(t@.skip(0) =~= t@);
        assert(old(out)@ + encode_text(t@.skip(0)) == old(out)@ + encode_text(t@));
    }
    while i < tlen
        invariant
            tlen == t@.len(),
            i <= tlen,
            old(out)@ + encode_text(t@) == out@ + encode_text(t@.skip(i as int)),
        decreases tlen - i,
    {
        let ghost pre = out@;
        let ghost rest = t@.skip(i as int);
        let c = t.get_char(i);
        proof {
            assert(rest[0] == t@[i as int]);
            assert(rest.drop_first() =~= t@.skip(i + 1));
            assert(encode_text(rest) == escape_char(c) + encode_text(t@.skip(i + 1)));
        }
        if c == '\n' {
            push_char(out, '\\');
            push_char(out, 'n');
            proof {
                assert(out@ =~= pre + escape_char(c));
            }
        } else if c == '\\' {
            push_char(out, '\\');
            push_char(out, '\\');
            proof {
                assert(out@ =~= pre + escape_char(c));
            }
        } else {
            push_char(out, c);
            proof {
                assert(out@ =~= pre + escape_char(c));
            }
        }
        proof {
            assert(pre + (escape_char(c) + encode_text(t@.skip(i + 1))) =~= (pre + escape_char(c))
                + encode_text(t@.skip(i + 1)));
        }
        i += 1;
    }
    proof {
        assert(encode_text(t@.skip(tlen as int)).len() == 0);
        assert(out@ + encode_text(t@.skip(tlen as int)) =~= out@);
    }
}

/// Appends the selection bits of `cats` to `out`.
fn append_sel_chars(out: &mut String, cats: &Vec<Category>)
    ensures
        final(out)@ == old(out)@ + sel_chars(cats@),
{
    let sel = to_selection(cats);
    let mut i: usize = 0;
    while i < CATEGORY_COUNT
        invariant
            sel@ == selection_of(cats@),
            sel@.len() == CATEGORY_COUNT,
            CATEGORY_COUNT == all_cats().len(),
            i <= CATEGORY_COUNT,
            out@ == old(out)@ + sel_chars(cats@).take(i as int),
        decreases CATEGORY_COUNT - i,
    {
        let ghost pre = out@;
        if sel[i] {
            push_char(out, '1');
        } else {
            push_char(out, '0');
        }
        proof {
            assert(sel_chars(cats@)[i as int] == (if selection_of(cats@)[i as int] {
                '1'
            } else {
                '0'
            }));
            assert(out@ =~= old(out)@ + sel_chars(cats@).take(i + 1));
        }
        i += 1;
    }
    proof {
        assert(sel_chars(cats@).take(CATEGORY_COUNT as int) =~= sel_chars(cats@));
    }
}

/// Reads an escaped text from `i` up to its newline, mirroring
/// [`parse_text`].
fn parse_text_exec(s: &str, i: usize, slen: usize) -> (r: Option<(String, usize)>)
    requires
        slen == s@.len(),
        i <= slen,
    ensures
        r is Some <==> parse_text(s@, i as int) is Some,
        r matches Some(p) ==> parse_text(s@, i as int) == Some((p.0@, p.1 as int)) && i < p.1
            <= slen,
    decreases slen - i,
{
    if i == slen {
        return None;
    }
    let c = s.get_char(i);
    if c == '\n' {
        let e = String::new();
        Some((e, i + 1))
    } else if c == '\\' {
        if i + 1 < slen {
            let c2 = s.get_char(i + 1);
            if c2 == 'n' || c2 == '\\' {
                let dc = if c2 == 'n' {
                    '\n'
                } else {
                    '\\'
                };
                match parse_text_exec(s, i + 2, slen) {
                    Some(p) => {
                        let (t, j) = p;
                        let mut out = String::new();
                        push_char(&mut out, dc);
                        out.append(t.as_str());
                        proof {
                            assert(out@ =~= seq![dc] + t@);
                        }
                        Some((out, j))
                    },
                    None => None,
                }
            } else {
                None
            }
        } else {
            None
        }
    } else {
        match parse_text_exec(s, i + 1, slen) {
            Some(p) => {
                let (t, j) = p;
                let mut out = String::new();
                push_char(&mut out, c);
                out.append(t.as_str());
                proof {
                    assert(out@ =~= seq![c] + t@);
                }
                Some((out, j))
            },
            None => None,
        }
    }
}

/// Reads one quote line from `i`, mirroring [`parse_quote`].
fn parse_quote_exec(s: &str, i: usize, slen: usize) -> (r: Option<(Quote, usize)>)
    requires
        slen == s@.len(),
        i <= slen,
    ensures
        r is Some <==> parse_quote(s@, i as int) is Some,
        r matches Some(p) ==> parse_quote(s@, i as int) == Some((p.0@, p.1 as int)) && i < p.1
            <= slen,
{
    if slen - i < CATEGORY_COUNT {
        return None;
    }
    let mut sel: Vec<bool> = Vec::new();
    let mut k: usize = 0;
    while k < CATEGORY_COUNT
        invariant
            slen == s@.len(),
            i + CATEGORY_COUNT <= slen,
            k <= CATEGORY_COUNT,
            sel@.len() == k,
            forall|m: int| #![trigger s@[i + m]]
                0 <= m < k ==> (s@[i + m] == '0' || s@[i + m] == '1'),
            forall|m: int| 0 <= m < k ==> sel@[m] == (s@[i + m] == '1'),
        decreases CATEGORY_COUNT - k,
    {
        let c = s.get_char(i + k);
        if c == '1' {
            sel.push(true);
        } else if c == '0' {
            sel.push(false);
        } else {
            proof {
                assert(s@[i + k as int] != '0' && s@[i + k as int] != '1');
            }
            return None;
        }
        k += 1;
    }
    match parse_text_exec(s, i + CATEGORY_COUNT, slen) {
        Some(p) => {
            let (t, j) = p;
            match to_category_set(&sel) {
                Some(cats) => {
                    proof {
                        assert(sel@ =~= Seq::new(
                            all_cats().len(),
                            |m: int| s@[i + m] == '1',
                        ));
                    }
                    Some((Quote { text: t, categories: cats }, j))
                },
                None => {
                    proof {
                        assert(false);
                    }
                    None
                },
            }
        },
        None => None,
    }
}

/// Parses a saved collection. Yields `None` on malformed input: the
/// caller treats that as a recoverable warning and falls back to an
/// empty collection.
pub fn load_db(s: &str) -> (r: Option<Vec<Quote>>)
    ensures
        r is Some <==> parse_db(s@, 0) is Some,
        r matches Some(db) ==> parse_db(s@, 0) == Some(dbv(db@)),
{
    let slen = s.unicode_len();
    let mut out: Vec<Quote> = Vec::new();
    let mut i: usize = 0;
    proof {
        assert(dbv(out@) =~= Seq::<QuoteV>::empty());
        if parse_db(s@, 0) is Some {
            let rest = parse_db(s@, 0).unwrap();
            assert(dbv(out@) + rest =~= rest);
        }
    }
    while i < slen
        invariant
            slen == s@.len(),
            i <= slen,
            parse_db(s@, i as int) matches Some(rest) ==> parse_db(s@, 0) == Some(
                dbv(out@) + rest,
            ),
            parse_db(s@, i as int) is None ==> parse_db(s@, 0) is None,
        decreases slen - i,
    {
        match parse_quote_exec(s, i, slen) {
            Some(p) => {
                let (q, j) = p;
                let ghost qv = q@;
                let ghost old_out = out@;
                let ghost oi = i as int;
                out.push(q);
                proof {
                    assert(dbv(out@) =~= dbv(old_out).push(qv));
                    if parse_db(s@, j as int) is Some {
                        let rest2 = parse_db(s@, j as int).unwrap();
                        assert(parse_db(s@, oi) == Some(seq![qv] + rest2));
                        assert(dbv(old_out) + (seq![qv] + rest2) =~= dbv(out@) + rest2);
                    }
                }
                i = j;
            },
            None => {
                return None;
            },
        }
    }
    proof {
        assert(parse_db(s@, slen as int) == Some(Seq::<QuoteV>::empty()));
        assert(dbv(out@) + Seq::<QuoteV>::empty() =~= dbv(out@));
    }
    Some(out)
}

/// Encodes the collection in the persistence format. The result is a
/// function of the collection alone; the caller writes it to storage.
pub fn save_db(db: &Vec<Quote>) -> (out: String)
    ensures
        out@ == encode_db(dbv(db@)),
{
    let mut out = String::new();
    let mut i: usize = 0;
    proof {
        assert(dbv(db@).skip(0) =~= dbv(db@));
        assert(out@ + encode_db(dbv(db@).skip(0)) =~= encode_db(dbv(db@)));
    }
    while i < db.len()
        invariant
            i <= db@.len(),
            encode_db(dbv(db@)) == out@ + encode_db(dbv(db@).skip(i as int)),
        decreases db@.len() - i,
    {
        let ghost pre = out@;
        let ghost rest = dbv(db@).skip(i as int);
        let ghost qv = db@[i as int]@;
        proof {
            assert(rest[0] == qv);
            assert(rest.drop_first() =~= dbv(db@).skip(i + 1));
            assert(encode_db(rest) == encode_quote(qv) + encode_db(dbv(db@).skip(i + 1)));
        }
        append_sel_chars(&mut out, &db[i].categories);
        append_encoded_text(&mut out, db[i].text.as_str());
        push_char(&mut out, '\n');
        proof {
            assert(out@ =~= pre + encode_quote(qv));
            assert(pre + (encode_quote(qv) + encode_db(dbv(db@).skip(i + 1))) =~= (pre
                + encode_quote(qv)) + encode_db(dbv(db@).skip(i + 1)));
        }
        i += 1;
    }
    proof {
        assert(encode_db(dbv(db@).skip(db@.len() as int)).len() == 0);
        assert(out@ + encode_db(dbv(db@).skip(db@.len() as int)) =~= out@);
    }
    out
}

} // verus!
