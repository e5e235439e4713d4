//! Snippets for search hits, rebuilt from the files as they are now: a literal match shows
//! its line, any other hit shows its chunk re-read from the current file text.
use vstd::prelude::*;

use crate::index::chunking::IndexedChunk;
use crate::index::ranking::{hit_views, HitView, RankedHit};
use crate::text::{trim, trim_chars};

verus! {

/// The number of bytes `c` takes in UTF-8.
pub open spec fn utf8_width(c: char) -> int {
    if (c as u32) < 0x80 {
        1
    } else if (c as u32) < 0x800 {
        2
    } else if (c as u32) < 0x10000 {
        3
    } else {
        4
    }
}

/// The number of bytes `s` takes in UTF-8.
pub open spec fn utf8_len(s: Seq<char>) -> int
    decreases s.len(),
{
    if s.len() == 0 {
        0
    } else {
        utf8_len(s.drop_last()) + utf8_width(s.last())
    }
}

/// The longest prefix of `s` that fits in `budget` bytes of UTF-8.
pub open spec fn fit_prefix(s: Seq<char>, budget: int) -> Seq<char>
    decreases s.len(),
{
    if s.len() == 0 || utf8_width(s[0]) > budget {
        Seq::empty()
    } else {
        seq![s[0]] + fit_prefix(s.drop_first(), budget - utf8_width(s[0]))
    }
}

/// The longest snippet shown, in bytes.
pub const SNIPPET_MAX_BYTES: usize = 200;

/// The snippet of a chunk's text: trimmed, and cut to at most 200 bytes at a character
/// boundary with `...` appended when longer.
pub open spec fn snippet_text(raw: Seq<char>) -> Seq<char> {
    let t = trim(raw);
    if utf8_len(t) <= SNIPPET_MAX_BYTES {
        t
    } else {
        fit_prefix(t, SNIPPET_MAX_BYTES as int) + "..."@
    }
}

fn width_of(c: char) -> (r: usize)
    ensures
        r == utf8_width(c),
{
    let u = c as u32;
    if u < 0x80 {
        1
    } else if u < 0x800 {
        2
    } else if u < 0x10000 {
        3
    } else {
        4
    }
}

proof fn lemma_utf8_len_nonneg(s: Seq<char>)
    ensures
        utf8_len(s) >= 0,
    decreases s.len(),
{
    if s.len() > 0 {
        lemma_utf8_len_nonneg(s.drop_last());
    }
}

/// Renders the snippet of a chunk's text.
pub fn render_snippet(raw_text: &str) -> (r: String)
    ensures
        r@ == snippet_text(raw_text@),
{
    let chars = crate::text::chars_of(raw_text);
    let t = trim_chars(chars.as_slice());
    let mut total: usize = 0;
    let mut i: usize = 0;
    let mut over = false;
    assert(t@.take(0) =~= Seq::<char>::empty());
    assert(t@.take(t@.len() as int) =~= t@);
    while i < t.len()
        invariant_except_break
            !over,
            total == utf8_len(t@.take(i as int)),
            total <= SNIPPET_MAX_BYTES,
        invariant
            i <= t@.len(),
            t@.take(t@.len() as int) == t@,
        ensures
            over <==> utf8_len(t@) > SNIPPET_MAX_BYTES,
        decreases t@.len() - i,
    {
        assert(t@.take(i + 1).drop_last() =~= t@.take(i as int));
        let w = width_of(t[i]);
        assert(t@.take(i + 1).last() == t@[i as int]);
        if total + w > SNIPPET_MAX_BYTES {
            proof {
                lemma_utf8_len_prefix(t@, i as int + 1);
            }
            over = true;
            break;
        }
        total = total + w;
        i = i + 1;
    }
    if !over {
        return crate::text::string_of(t.as_slice());
    }
    let mut out = String::new();
    let mut used: usize = 0;
    let mut k: usize = 0;
    assert(t@.skip(0) =~= t@);
    assert(fit_prefix(t@, SNIPPET_MAX_BYTES as int) == t@.take(0) + fit_prefix(t@.skip(0), SNIPPET_MAX_BYTES - 0));
    while k < t.len()
        invariant
            k <= t@.len(),
            used <= SNIPPET_MAX_BYTES,
            out@ == t@.take(k as int),
            fit_prefix(t@, SNIPPET_MAX_BYTES as int) == t@.take(k as int) + fit_prefix(t@.skip(k as int), SNIPPET_MAX_BYTES - used),
        ensures
            out@ == fit_prefix(t@, SNIPPET_MAX_BYTES as int),
        decreases t@.len() - k,
    {
        let w = width_of(t[k]);
        assert(t@.skip(k as int)[0] == t@[k as int]);
        assert(t@.skip(k as int).drop_first() =~= t@.skip(k + 1));
        if w > SNIPPET_MAX_BYTES - used {
            assert(fit_prefix(t@.skip(k as int), SNIPPET_MAX_BYTES - used) =~= Seq::<char>::empty());
            assert(t@.take(k as int) + Seq::<char>::empty() =~= t@.take(k as int));
            break;
        }
        crate::text::push_char(&mut out, t[k]);
        assert(t@.take(k + 1) =~= t@.take(k as int) + seq![t@[k as int]]);
        assert(t@.take(k as int) + (seq![t@[k as int]] + fit_prefix(t@.skip(k + 1), SNIPPET_MAX_BYTES - used - w)) =~= t@.take(k + 1) + fit_prefix(t@.skip(k + 1), SNIPPET_MAX_BYTES - (used + w)));
        used = used + w;
        k = k + 1;
    }
    proof {
        if k == t@.len() {
            assert(t@.skip(k as int) =~= Seq::<char>::empty());
        }
    }
    crate::text::push_str(&mut out, "...");
    out
}

proof fn lemma_utf8_len_prefix(s: Seq<char>, n: int)
    requires
        0 <= n <= s.len(),
    ensures
        utf8_len(s.take(n)) <= utf8_len(s),
    decreases s.len() - n,
{
    if n < s.len() {
        lemma_utf8_len_prefix(s, n + 1);
        assert(s.take(n + 1).drop_last() =~= s.take(n));
    } else {
        assert(s.take(n) =~= s);
    }
}

/// The chunks of the current text of each file, as (path, chunks); `None` for a file that
/// could not be read as text.
pub open spec fn file_views(files: Seq<(String, Option<Vec<IndexedChunk>>)>) -> Seq<(Seq<char>, Option<Seq<IndexedChunk>>)> {
    files.map_values(
        |f: (String, Option<Vec<IndexedChunk>>)|
            (
                f.0@,
                match f.1 {
                    Some(v) => Some(v@),
                    None => None,
                },
            ),
    )
}

/// The chunks listed for `path` (the first entry for it), or `None` when it is not listed or
/// could not be read.
pub open spec fn chunks_for(files: Seq<(Seq<char>, Option<Seq<IndexedChunk>>)>, path: Seq<char>) -> Option<Seq<IndexedChunk>>
    decreases files.len(),
{
    if files.len() == 0 {
        None
    } else if files[0].0 == path {
        files[0].1
    } else {
        chunks_for(files.drop_first(), path)
    }
}

/// A hit with its snippet filled in: a literal match shows its matched line; another hit
/// shows its chunk as the file reads now; a hit whose file cannot be read, or whose chunk
/// is gone, is dropped.
pub open spec fn materialized(h: HitView, chunks: Option<Seq<IndexedChunk>>) -> Option<HitView> {
    match h.literal_line_number {
        Some(line) if h.literal_preview is Some => Some(
            HitView { snippet: h.literal_preview->Some_0, line_start: line, line_end: line, ..h },
        ),
        _ => match chunks {
            None => None,
            Some(cs) => if h.chunk_index < cs.len() {
                let c = cs[h.chunk_index as int];
                Some(
                    HitView {
                        snippet: snippet_text(c.raw_text@),
                        line_start: c.line_start,
                        line_end: c.line_end,
                        ..h
                    },
                )
            } else {
                None
            },
        },
    }
}

/// The hits that keep a snippet, in order, each with its snippet.
pub open spec fn materialized_hits(hits: Seq<HitView>, files: Seq<(Seq<char>, Option<Seq<IndexedChunk>>)>) -> Seq<HitView>
    decreases hits.len(),
{
    if hits.len() == 0 {
        Seq::empty()
    } else {
        let prev = materialized_hits(hits.drop_last(), files);
        match materialized(hits.last(), chunks_for(files, hits.last().rel_path)) {
            Some(h) => prev.push(h),
            None => prev,
        }
    }
}

/// Filling snippets keeps the hits in order and drops only those without a snippet: entry `t`
/// of the result is input hit `at[t]` with its snippet filled in, the positions `at` increase,
/// and an input hit is among them exactly when it has a snippet (a literal match with its line
/// and preview, or a chunk that its file, read now, still has).
pub proof fn lemma_materialized_in_order(hits: Seq<HitView>, files: Seq<(Seq<char>, Option<Seq<IndexedChunk>>)>) -> (at: Seq<int>)
    ensures
        at.len() == materialized_hits(hits, files).len(),
        forall|t: int| 0 <= t < at.len() ==> 0 <= #[trigger] at[t] < hits.len() && materialized(
            hits[at[t]],
            chunks_for(files, hits[at[t]].rel_path),
        ) == Some(materialized_hits(hits, files)[t]),
        forall|t: int, u: int| 0 <= t < u < at.len() ==> #[trigger] at[t] < #[trigger] at[u],
        forall|i: int| 0 <= i < hits.len() && (#[trigger] materialized(hits[i], chunks_for(files, hits[i].rel_path))) is Some
            ==> exists|t: int| 0 <= t < at.len() && at[t] == i,
    decreases hits.len(),
{
    if hits.len() == 0 {
        Seq::empty()
    } else {
        let n = hits.len() - 1;
        let front = hits.drop_last();
        let prev_at = lemma_materialized_in_order(front, files);
        let prev = materialized_hits(front, files);
        let m = materialized_hits(hits, files);
        let last = materialized(hits.last(), chunks_for(files, hits.last().rel_path));
        assert(hits.last() == hits[n]);
        let at = if last is Some { prev_at.push(n) } else { prev_at };
        assert forall|t: int| 0 <= t < at.len() implies 0 <= #[trigger] at[t] < hits.len() && materialized(
            hits[at[t]],
            chunks_for(files, hits[at[t]].rel_path),
        ) == Some(m[t]) by {
            if t < prev_at.len() {
                assert(at[t] == prev_at[t]);
                assert(front[prev_at[t]] == hits[prev_at[t]]);
                assert(m[t] == prev[t]);
            }
        }
        assert forall|t: int, u: int| 0 <= t < u < at.len() implies #[trigger] at[t] < #[trigger] at[u] by {
            if u < prev_at.len() {
                assert(at[t] == prev_at[t] && at[u] == prev_at[u]);
            } else {
                assert(at[t] == prev_at[t]);
            }
        }
        assert forall|i: int| 0 <= i < hits.len() && (#[trigger] materialized(hits[i], chunks_for(files, hits[i].rel_path))) is Some
            implies exists|t: int| 0 <= t < at.len() && at[t] == i by {
            if i < n {
                assert(front[i] == hits[i]);
                assert(materialized(front[i], chunks_for(files, front[i].rel_path)) is Some);
                let t = choose|t: int| 0 <= t < prev_at.len() && prev_at[t] == i;
                assert(at[t] == i);
            } else {
                assert(at[prev_at.len() as int] == n);
            }
        }
        at
    }
}

/// A hit that literal recall matched, with its line and preview, is always kept, showing that
/// line and preview, whether or not its file can still be read.
pub proof fn lemma_literal_hit_kept(hits: Seq<HitView>, files: Seq<(Seq<char>, Option<Seq<IndexedChunk>>)>, i: int)
    requires
        0 <= i < hits.len(),
        hits[i].literal_line_number is Some,
        hits[i].literal_preview is Some,
    ensures
        exists|t: int|
            0 <= t < materialized_hits(hits, files).len() && #[trigger] materialized_hits(hits, files)[t]
                == (HitView {
                snippet: hits[i].literal_preview->Some_0,
                line_start: hits[i].literal_line_number->Some_0,
                line_end: hits[i].literal_line_number->Some_0,
                ..hits[i]
            }),
    decreases hits.len(),
{
    let prev = materialized_hits(hits.drop_last(), files);
    let m = materialized_hits(hits, files);
    if i == hits.len() - 1 {
        assert(m[prev.len() as int] == m.last());
    } else {
        assert(hits.drop_last()[i] == hits[i]);
        lemma_literal_hit_kept(hits.drop_last(), files, i);
        let t = choose|t: int|
            0 <= t < prev.len() && #[trigger] prev[t] == (HitView {
                snippet: hits[i].literal_preview->Some_0,
                line_start: hits[i].literal_line_number->Some_0,
                line_end: hits[i].literal_line_number->Some_0,
                ..hits[i]
            });
        assert(m[t] == prev[t]);
    }
}

fn find_file<'a>(files: &'a Vec<(String, Option<Vec<IndexedChunk>>)>, path: &str) -> (r: Option<&'a Vec<IndexedChunk>>)
    ensures
        r matches Some(v) ==> chunks_for(file_views(files@), path@) == Some(v@),
        r is None ==> chunks_for(file_views(files@), path@) is None,
{
    let ghost fv = file_views(files@);
    let mut i: usize = 0;
    assert(fv.skip(0) =~= fv);
    while i < files.len()
        invariant
            i <= files@.len(),
            fv == file_views(files@),
            chunks_for(fv, path@) == chunks_for(fv.skip(i as int), path@),
        decreases files@.len() - i,
    {
        assert(fv.skip(i as int)[0] == fv[i as int]);
        assert(fv.skip(i as int).drop_first() =~= fv.skip(i + 1));
        if crate::text::same_text(files[i].0.as_str(), path) {
            return match &files[i].1 {
                Some(v) => Some(v),
                None => None,
            };
        }
        i = i + 1;
    }
    None
}

/// Fills in the snippets of merged hits from the current chunks of their files, dropping
/// the hits that can no longer be shown.
pub fn materialize_live_snippets(hits: Vec<RankedHit>, files: &Vec<(String, Option<Vec<IndexedChunk>>)>) -> (r: Vec<RankedHit>)
    ensures
        hit_views(r@) == materialized_hits(hit_views(hits@), file_views(files@)),
{
    let ghost all = hit_views(hits@);
    let ghost fv = file_views(files@);
    let total = hits.len();
    let mut rest = hits;
    let mut out: Vec<RankedHit> = Vec::new();
    let mut k: usize = 0;
    assert(hit_views(rest@) =~= all.skip(0));
    assert(all.take(0) =~= Seq::<HitView>::empty());
    while rest.len() > 0
        invariant
            k + rest@.len() == all.len(),
            all.len() == total,
            fv == file_views(files@),
            hit_views(rest@) == all.skip(k as int),
            hit_views(out@) == materialized_hits(all.take(k as int), fv),
        decreases rest@.len(),
    {
        let ghost old_rest = rest@;
        let mut h = rest.remove(0);
        assert(rest@ =~= old_rest.drop_first());
        assert(h == old_rest[0]);
        assert(hit_views(old_rest)[0] == all.skip(k as int)[0]);
        assert(hit_views(rest@) =~= hit_views(old_rest).drop_first());
        assert(hit_views(rest@) =~= all.skip(k + 1));
        let ghost hv = h@;
        assert(hv == all[k as int]);
        assert(all.take(k + 1).drop_last() =~= all.take(k as int));
        assert(all.take(k + 1).last() == hv);
        let ghost before = hit_views(out@);
        let literal = match (h.literal_line_number, &h.literal_preview) {
            (Some(line), Some(preview)) => Some((line, preview.clone())),
            _ => None,
        };
        match literal {
            Some((line, preview)) => {
                h.snippet = preview;
                h.line_start = line;
                h.line_end = line;
                out.push(h);
                assert(hit_views(out@) =~= before.push(materialized(hv, chunks_for(fv, hv.rel_path))->Some_0));
            },
            None => {
                match find_file(files, h.rel_path.as_str()) {
                    Some(chunks) => {
                        if h.chunk_index < chunks.len() {
                            let c = &chunks[h.chunk_index];
                            h.snippet = render_snippet(c.raw_text.as_str());
                            h.line_start = c.line_start;
                            h.line_end = c.line_end;
                            out.push(h);
                            assert(hit_views(out@) =~= before.push(materialized(hv, chunks_for(fv, hv.rel_path))->Some_0));
                        }
                    },
                    None => {},
                }
            },
        }
        k = k + 1;
    }
    assert(all.take(k as int) =~= all);
    out
}

/// The longest prefix of `s` that fits in `budget` bytes of UTF-8.
pub fn fit_prefix_exec(s: &[char], budget: usize) -> (r: String)
    ensures
        r@ == fit_prefix(s@, budget as int),
{
    let mut out = String::new();
    let mut used: usize = 0;
    let mut k: usize = 0;
    assert(s@.skip(0) =~= s@);
    assert(fit_prefix(s@, budget as int) == s@.take(0) + fit_prefix(s@.skip(0), budget - 0));
    while k < s.len()
        invariant
            k <= s@.len(),
            used <= budget,
            out@ == s@.take(k as int),
            fit_prefix(s@, budget as int) == s@.take(k as int) + fit_prefix(s@.skip(k as int), budget - used),
        ensures
            out@ == fit_prefix(s@, budget as int),
        decreases s@.len() - k,
    {
        let w = width_of(s[k]);
        assert(s@.skip(k as int)[0] == s@[k as int]);
        assert(s@.skip(k as int).drop_first() =~= s@.skip(k + 1));
        if w > budget - used {
            assert(fit_prefix(s@.skip(k as int), budget - used) =~= Seq::<char>::empty());
            assert(s@.take(k as int) + Seq::<char>::empty() =~= s@.take(k as int));
            break;
        }
        crate::text::push_char(&mut out, s[k]);
        assert(s@.take(k + 1) =~= s@.take(k as int) + seq![s@[k as int]]);
        assert(s@.take(k as int) + (seq![s@[k as int]] + fit_prefix(s@.skip(k + 1), budget - used - w)) =~= s@.take(k + 1) + fit_prefix(s@.skip(k + 1), budget - (used + w)));
        used = used + w;
        k = k + 1;
    }
    proof {
        if k == s@.len() {
            assert(s@.skip(k as int) =~= Seq::<char>::empty());
            assert(s@.take(k as int) =~= s@);
        }
    }
    out
}

} // verus!
