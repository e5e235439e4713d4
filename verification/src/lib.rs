//! `zg`: local-first search over note-heavy directories.
//!
//! This crate holds the verified core: query normalization, index-level policy, path and
//! scope reasoning, chunking, rank fusion, code-symbol extraction over a parsed syntax tree,
//! and the user-facing messages and result rendering.
use vstd::prelude::*;

pub mod dev;
pub mod index;
pub mod messages;
pub mod paths;
pub mod render;
pub mod search;
pub mod text;

use crate::text::{
    chars_of, contains, contains_chars, is_ascii_lowered, is_ascii_text, join, join_chars,
    lowercase, pieces, same_but_case, split_pieces, split_words, string_of, to_lowercase, views,
    words,
};

verus! {

/// The normalized form of a query: its white-space separated words, lower-cased, joined by
/// single spaces.
pub open spec fn normalized_text(s: Seq<char>) -> Seq<char> {
    join(words(s).map_values(|w: Seq<char>| lowercase(w)), seq![' '])
}

/// The terms of a normalized query: none for the empty text, else its space-separated pieces.
pub open spec fn terms_of(normalized: Seq<char>) -> Seq<Seq<char>> {
    if normalized.len() == 0 {
        Seq::empty()
    } else {
        pieces(normalized, ' ')
    }
}

/// Whether every term occurs in the normalized candidate text.
pub open spec fn all_terms_occur(terms: Seq<Seq<char>>, candidate: Seq<char>) -> bool {
    forall|i: int| 0 <= i < terms.len() ==> contains(normalized_text(candidate), #[trigger] terms[i])
}

/// The character sequences held by a sequence of strings.
pub open spec fn string_views(v: Seq<String>) -> Seq<Seq<char>> {
    v.map_values(|s: String| s@)
}

/// A normalized query prepared for simple matching and token inspection.
#[derive(Clone, Debug)]
pub struct Query {
    normalized: String,
    terms: Vec<String>,
}

impl View for Query {
    type V = (Seq<char>, Seq<Seq<char>>);

    closed spec fn view(&self) -> (Seq<char>, Seq<Seq<char>>) {
        (self.normalized@, string_views(self.terms@))
    }
}

impl Query {
    /// Builds a query by trimming, folding whitespace, and lowercasing terms.
    pub fn new(input: &str) -> (q: Self)
        ensures
            q@.0 == normalized_text(input@),
            q@.1 == terms_of(normalized_text(input@)),
    {
        let normalized = normalize_query(input);
        let terms = parse_terms(normalized.as_str());
        let q = Query { normalized, terms };
        assert(q@.0 == normalized_text(input@));
        q
    }

    /// Returns the normalized query text.
    pub fn normalized(&self) -> (r: &str)
        ensures
            r@ == self@.0,
    {
        self.normalized.as_str()
    }

    /// Returns normalized query terms.
    pub fn terms(&self) -> (r: &[String])
        ensures
            string_views(r@) == self@.1,
    {
        self.terms.as_slice()
    }

    /// Reports whether the query contains any searchable terms.
    pub fn is_empty(&self) -> (r: bool)
        ensures
            r == (self@.1.len() == 0),
    {
        self.terms.len() == 0
    }

    /// Checks whether every query term appears in the candidate string.
    pub fn matches(&self, candidate: &str) -> (r: bool)
        ensures
            r == all_terms_occur(self@.1, candidate@),
            r <==> forall|i: int| 0 <= i < self@.1.len() ==> contains(normalized_text(candidate@), #[trigger] self@.1[i]),
    {
        if self.is_empty() {
            return true;
        }
        let normalized_candidate = normalize_query(candidate);
        let hay = chars_of(normalized_candidate.as_str());
        let mut i: usize = 0;
        while i < self.terms.len()
            invariant
                i <= self.terms@.len(),
                hay@ == normalized_text(candidate@),
                forall|k: int|
                    0 <= k < i ==> contains(normalized_text(candidate@), #[trigger] string_views(self.terms@)[k]),
            decreases self.terms@.len() - i,
        {
            let needle = chars_of(self.terms[i].as_str());
            if !contains_chars(hay.as_slice(), needle.as_slice()) {
                assert(string_views(self.terms@)[i as int] == needle@);
                return false;
            }
            i = i + 1;
        }
        true
    }
}

/// A query without words has no terms, and so matches every candidate.
pub proof fn lemma_wordless_query_matches_everything(input: Seq<char>, candidate: Seq<char>)
    requires
        words(input).len() == 0,
    ensures
        terms_of(normalized_text(input)).len() == 0,
        all_terms_occur(terms_of(normalized_text(input)), candidate),
{
    assert(words(input).map_values(|w: Seq<char>| lowercase(w)).len() == 0);
    assert(normalized_text(input).len() == 0);
}

/// Whether `lw` is the words `ws` with their ASCII capitals made small.
pub open spec fn lowered_words(ws: Seq<Seq<char>>, lw: Seq<Seq<char>>) -> bool {
    &&& lw.len() == ws.len()
    &&& forall|i: int| 0 <= i < ws.len() ==> #[trigger] is_ascii_lowered(ws[i], lw[i])
}

/// Whether `n` is the normalized form of ASCII text `s`: its words with ASCII capitals made
/// small, joined by single spaces.
pub open spec fn ascii_normal_form(s: Seq<char>, n: Seq<char>) -> bool {
    exists|lw: Seq<Seq<char>>| #[trigger] lowered_words(words(s), lw) && n == join(lw, seq![' '])
}

/// Normalizing ASCII text ignores the case of its letters: two texts that differ only in the
/// case of ASCII letters have the same normalized form.
pub proof fn lemma_ascii_normalization_ignores_case(s: Seq<char>, t: Seq<char>, ns: Seq<char>, nt: Seq<char>)
    requires
        is_ascii_text(s),
        is_ascii_text(t),
        same_but_case(s, t),
        ascii_normal_form(s, ns),
        ascii_normal_form(t, nt),
    ensures
        ns == nt,
{
    crate::text::lemma_words_same_but_case(s, t);
    let lw_s = choose|lw: Seq<Seq<char>>| #[trigger] lowered_words(words(s), lw) && ns == join(lw, seq![' ']);
    let lw_t = choose|lw: Seq<Seq<char>>| #[trigger] lowered_words(words(t), lw) && nt == join(lw, seq![' ']);
    let ws = words(s);
    let wt = words(t);
    assert forall|i: int| 0 <= i < lw_s.len() implies #[trigger] lw_s[i] == lw_t[i] by {
        assert(is_ascii_lowered(ws[i], lw_s[i]));
        assert(is_ascii_lowered(wt[i], lw_t[i]));
        assert(same_but_case(ws[i], wt[i]));
        assert forall|k: int| 0 <= k < lw_s[i].len() implies #[trigger] lw_s[i][k] == lw_t[i][k] by {
            assert(lw_s[i][k] as int == crate::text::ascii_lower_code(ws[i][k]));
            assert(lw_t[i][k] as int == crate::text::ascii_lower_code(wt[i][k]));
        }
        assert(lw_s[i] =~= lw_t[i]);
    }
    assert(lw_s =~= lw_t);
}

/// The normalized form of ASCII text has no space at either end and never two spaces in a
/// row.
pub proof fn lemma_ascii_normal_form_single_spaced(s: Seq<char>, n: Seq<char>)
    requires
        ascii_normal_form(s, n),
    ensures
        crate::text::single_spaced(n),
{
    let lw = choose|lw: Seq<Seq<char>>| #[trigger] lowered_words(words(s), lw) && n == join(lw, seq![' ']);
    let ws = words(s);
    crate::text::lemma_words_are_words(s);
    assert forall|p: int| 0 <= p < lw.len() implies (#[trigger] lw[p]).len() > 0 by {
        assert(is_ascii_lowered(ws[p], lw[p]));
        assert(crate::text::is_word(ws[p]));
    }
    assert forall|p: int, k: int| 0 <= p < lw.len() && 0 <= k < lw[p].len() implies #[trigger] lw[p][k] != ' ' by {
        assert(is_ascii_lowered(ws[p], lw[p]));
        assert(crate::text::is_word(ws[p]));
        assert(lw[p][k] as int == crate::text::ascii_lower_code(ws[p][k]));
        assert(!crate::text::is_ws(ws[p][k]));
    }
    crate::text::lemma_join_single_spaced(lw);
}

/// Normalizing is idempotent on ASCII text: normalizing a normalized form gives it back.
pub proof fn lemma_ascii_normalization_idempotent(s: Seq<char>, n: Seq<char>, m: Seq<char>)
    requires
        ascii_normal_form(s, n),
        ascii_normal_form(n, m),
    ensures
        m == n,
{
    let lw = choose|lw: Seq<Seq<char>>| #[trigger] lowered_words(words(s), lw) && n == join(lw, seq![' ']);
    let ws = words(s);
    crate::text::lemma_words_are_words(s);
    assert forall|p: int| 0 <= p < lw.len() implies #[trigger] crate::text::is_word(lw[p]) by {
        assert(is_ascii_lowered(ws[p], lw[p]));
        assert(crate::text::is_word(ws[p]));
        assert forall|k: int| 0 <= k < lw[p].len() implies !crate::text::is_ws(#[trigger] lw[p][k]) by {
            assert(lw[p][k] as int == crate::text::ascii_lower_code(ws[p][k]));
            assert(!crate::text::is_ws(ws[p][k]));
        }
    }
    crate::text::lemma_words_of_join(lw);
    assert(words(n) == lw);
    let lw2 = choose|lw2: Seq<Seq<char>>| #[trigger] lowered_words(words(n), lw2) && m == join(lw2, seq![' ']);
    assert forall|p: int| 0 <= p < lw.len() implies #[trigger] lw2[p] == lw[p] by {
        assert(is_ascii_lowered(lw[p], lw2[p]));
        assert(is_ascii_lowered(ws[p], lw[p]));
        assert forall|k: int| 0 <= k < lw[p].len() implies #[trigger] lw2[p][k] == lw[p][k] by {
            assert(lw[p][k] as int == crate::text::ascii_lower_code(ws[p][k]));
            assert(lw2[p][k] as int == crate::text::ascii_lower_code(lw[p][k]));
        }
        assert(lw2[p] =~= lw[p]);
    }
    assert(lw2 =~= lw);
}

/// A candidate matches a query exactly when every one of the query's terms, the first
/// included, occurs in the candidate's normalized text; one missing term makes it fail.
pub proof fn lemma_matching_needs_every_term(terms: Seq<Seq<char>>, candidate: Seq<char>)
    ensures
        all_terms_occur(terms, candidate) <==> forall|i: int| 0 <= i < terms.len() ==> contains(
            normalized_text(candidate),
            #[trigger] terms[i],
        ),
        forall|i: int| 0 <= i < terms.len() && !contains(normalized_text(candidate), #[trigger] terms[i]) ==> !all_terms_occur(
            terms,
            candidate,
        ),
{
}

/// A query's terms joined by single spaces give back its normalized text, and a query has no
/// terms exactly when its normalized text is empty.
pub proof fn lemma_terms_rebuild_normalized(n: Seq<char>)
    ensures
        (terms_of(n).len() == 0) == (n.len() == 0),
        join(terms_of(n), seq![' ']) == n,
{
    if n.len() > 0 {
        crate::text::lemma_pieces_nonempty(n, ' ');
        crate::text::lemma_join_pieces(n, ' ');
    }
}

proof fn lemma_lowered_words_are_words(s: Seq<char>, lw: Seq<Seq<char>>)
    requires
        lowered_words(words(s), lw),
    ensures
        forall|p: int| 0 <= p < lw.len() ==> #[trigger] crate::text::is_word(lw[p]),
        forall|p: int, k: int| 0 <= p < lw.len() && 0 <= k < lw[p].len() ==> #[trigger] lw[p][k] != ' ',
{
    let ws = words(s);
    crate::text::lemma_words_are_words(s);
    assert forall|p: int| 0 <= p < lw.len() implies #[trigger] crate::text::is_word(lw[p]) by {
        assert(is_ascii_lowered(ws[p], lw[p]));
        assert(crate::text::is_word(ws[p]));
        assert forall|k: int| 0 <= k < lw[p].len() implies !crate::text::is_ws(#[trigger] lw[p][k]) by {
            assert(lw[p][k] as int == crate::text::ascii_lower_code(ws[p][k]));
            assert(!crate::text::is_ws(ws[p][k]));
        }
    }
    assert forall|p: int, k: int| 0 <= p < lw.len() && 0 <= k < lw[p].len() implies #[trigger] lw[p][k] != ' ' by {
        assert(crate::text::is_word(lw[p]));
        assert(!crate::text::is_ws(lw[p][k]));
    }
}

/// The terms of an ASCII query's normalized form are its words, lower-cased: none is empty and
/// none holds white space.
pub proof fn lemma_ascii_terms_are_words(s: Seq<char>, n: Seq<char>)
    requires
        ascii_normal_form(s, n),
    ensures
        forall|t: int| 0 <= t < terms_of(n).len() ==> #[trigger] crate::text::is_word(terms_of(n)[t]),
{
    let lw = choose|lw: Seq<Seq<char>>| #[trigger] lowered_words(words(s), lw) && n == join(lw, seq![' ']);
    lemma_lowered_words_are_words(s, lw);
    if lw.len() > 0 {
        crate::text::lemma_pieces_of_join(lw, ' ');
        crate::text::lemma_join_nonempty_words(lw);
        assert(terms_of(n) == lw);
    } else {
        assert(n.len() == 0);
    }
}

/// The only white space in the normalized form of ASCII text is the single space between
/// words.
pub proof fn lemma_ascii_normal_form_spaces_only(s: Seq<char>, n: Seq<char>, k: int)
    requires
        ascii_normal_form(s, n),
        0 <= k < n.len(),
        crate::text::is_ws(n[k]),
    ensures
        n[k] == ' ',
{
    let lw = choose|lw: Seq<Seq<char>>| #[trigger] lowered_words(words(s), lw) && n == join(lw, seq![' ']);
    lemma_lowered_words_are_words(s, lw);
    crate::text::lemma_join_chars(lw, ' ', k);
    if n[k] != ' ' {
        let (p, i) = choose|p: int, i: int| 0 <= p < lw.len() && 0 <= i < lw[p].len() && #[trigger] lw[p][i] == n[k];
        assert(crate::text::is_word(lw[p]));
    }
}

/// Trims, lowercases, and folds runs of whitespace to a single ASCII space.
pub fn normalize_query(input: &str) -> (r: String)
    ensures
        r@ == normalized_text(input@),
        is_ascii_text(input@) ==> ascii_normal_form(input@, r@),
{
    let chars = chars_of(input);
    let ws = split_words(chars.as_slice());
    let mut lowered: Vec<Vec<char>> = Vec::new();
    let mut i: usize = 0;
    while i < ws.len()
        invariant
            i <= ws@.len(),
            views(ws@) == words(input@),
            views(lowered@) == views(ws@).take(i as int).map_values(|w: Seq<char>| lowercase(w)),
            forall|k: int|
                0 <= k < i && is_ascii_text(views(ws@)[k]) ==> #[trigger] is_ascii_lowered(
                    views(ws@)[k],
                    views(lowered@)[k],
                ),
        decreases ws@.len() - i,
    {
        let word = string_of(ws[i].as_slice());
        let low = to_lowercase(word.as_str());
        let ghost before = views(lowered@);
        let low_chars = chars_of(low.as_str());
        assert(low_chars@ == lowercase(views(ws@)[i as int]));
        lowered.push(low_chars);
        assert(views(lowered@) =~= before.push(lowercase(views(ws@)[i as int])));
        assert(views(ws@).take(i + 1) =~= views(ws@).take(i as int).push(views(ws@)[i as int]));
        assert(views(lowered@) =~= views(ws@).take(i + 1).map_values(|w: Seq<char>| lowercase(w)));
        i = i + 1;
    }
    assert(views(ws@).take(ws@.len() as int) =~= views(ws@));
    let sep: Vec<char> = vec![' '];
    assert(sep@ =~= seq![' ']);
    let joined = join_chars(&lowered, sep.as_slice());
    let r = string_of(joined.as_slice());
    proof {
        if is_ascii_text(input@) {
            assert(same_but_case(input@, input@));
            crate::text::lemma_words_same_but_case(input@, input@);
            assert(views(lowered@).len() == words(input@).len());
            assert forall|k: int| 0 <= k < words(input@).len() implies #[trigger] is_ascii_lowered(
                words(input@)[k],
                views(lowered@)[k],
            ) by {
                assert(is_ascii_text(words(input@)[k]));
            }
            assert(lowered_words(words(input@), views(lowered@)));
        }
    }
    r
}

/// Splits an input string into normalized query terms.
pub fn split_terms(input: &str) -> (r: Vec<String>)
    ensures
        string_views(r@) == terms_of(normalized_text(input@)),
{
    let normalized = normalize_query(input);
    parse_terms(normalized.as_str())
}

/// Convenience helper for one-off candidate checks.
pub fn matches_query(query: &str, candidate: &str) -> (r: bool)
    ensures
        r == all_terms_occur(terms_of(normalized_text(query@)), candidate@),
        r <==> forall|i: int| 0 <= i < terms_of(normalized_text(query@)).len() ==> contains(
            normalized_text(candidate@),
            #[trigger] terms_of(normalized_text(query@))[i],
        ),
{
    Query::new(query).matches(candidate)
}

/// The error every fallible operation of this crate reports: a human-readable message.
#[derive(Clone, Debug)]
pub struct ZgError {
    pub message: String,
}

/// The query an indexed search runs: the normalized query, or the error for a query without
/// searchable terms.
pub fn searchable_query(input: &str) -> (r: Result<Query, ZgError>)
    ensures
        match r {
            Ok(q) => q@.0 == normalized_text(input@) && q@.1 == terms_of(normalized_text(input@))
                && q@.1.len() > 0,
            Err(e) => terms_of(normalized_text(input@)).len() == 0 && e.message@ == "query is empty"@,
        },
{
    let q = Query::new(input);
    if q.is_empty() {
        let mut s = String::new();
        crate::text::push_str(&mut s, "query is empty");
        return Err(other(s));
    }
    Ok(q)
}

/// Builds an error that carries `message`.
pub fn other(message: String) -> (e: ZgError)
    ensures
        e.message@ == message@,
{
    ZgError { message }
}

/// Splits a normalized query into its space-separated terms.
fn parse_terms(normalized: &str) -> (r: Vec<String>)
    ensures
        string_views(r@) == terms_of(normalized@),
{
    if normalized.is_empty() {
        let r: Vec<String> = Vec::new();
        assert(string_views(r@) =~= Seq::<Seq<char>>::empty());
        return r;
    }
    let chars = chars_of(normalized);
    let parts = split_pieces(chars.as_slice(), ' ');
    let mut out: Vec<String> = Vec::new();
    let mut i: usize = 0;
    while i < parts.len()
        invariant
            i <= parts@.len(),
            string_views(out@) == views(parts@).take(i as int),
        decreases parts@.len() - i,
    {
        let s = string_of(parts[i].as_slice());
        let ghost before = string_views(out@);
        out.push(s);
        assert(string_views(out@) =~= before.push(views(parts@)[i as int]));
        assert(string_views(out@) =~= views(parts@).take(i + 1));
        i = i + 1;
    }
    assert(views(parts@).take(parts@.len() as int) =~= views(parts@));
    out
}

} // verus!
