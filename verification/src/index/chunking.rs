//! Line-based chunking of indexable text: inline markers split a line, list and heading
//! decorators are dropped, and neighbouring short pieces are merged into one chunk.
use vstd::prelude::*;

use crate::index::types::{
    DEFAULT_CHUNK_MARKER, DEFAULT_MAX_FILE_BYTES, DEFAULT_MAX_FILE_LINES,
    DEFAULT_SHORT_CHUNK_MERGE_MAX_CHARS,
};
use crate::index::util::{hash_text, stable_text_hash};
use crate::text::{
    chars_of, contains, is_whitespace, is_ws, lines_of, lowercase, skip_chars, split_at_pattern, split_lines,
    split_pattern, words,
    string_of, trim, trim_chars, trim_start, trim_start_chars, views,
};
use crate::index::code_symbols::{
    are_file_symbol_chunks, build_symbol_chunks, language_of_path, renumber_chunks, symbol_count,
    symbol_nodes, symbol_source, CodeLanguage,
};
use crate::paths::{file_name, file_name_of};
use crate::{normalize_query, normalized_text};

verus! {

/// Whether `c` is one of the list or quote bullets `-`, `*`, `+`, `>`.
pub open spec fn is_bullet(c: char) -> bool {
    c == '-' || c == '*' || c == '+' || c == '>'
}

/// The number of `#` characters that `s` starts with.
pub open spec fn leading_hashes(s: Seq<char>) -> nat
    decreases s.len(),
{
    if s.len() > 0 && s[0] == '#' {
        1 + leading_hashes(s.drop_first())
    } else {
        0
    }
}

/// A line without its leading white space and without one list bullet (`- `, `* `, `+ `,
/// `> `) or one heading marker (`#`s followed by a space), with the white space after it.
pub open spec fn strip_decorator(line: Seq<char>) -> Seq<char> {
    let t = trim_start(line);
    let h = leading_hashes(t);
    if t.len() >= 2 && is_bullet(t[0]) && t[1] == ' ' {
        trim_start(t.skip(2))
    } else if h > 0 && h < t.len() && t[h as int] == ' ' {
        trim_start(t.skip(h + 1 as int))
    } else {
        t
    }
}

/// Removes a list bullet or heading marker from the start of a line.
pub fn strip_line_decorator(line: &[char]) -> (r: Vec<char>)
    ensures
        r@ == strip_decorator(line@),
{
    let t = trim_start_chars(line);
    if t.len() >= 2 && (t[0] == '-' || t[0] == '*' || t[0] == '+' || t[0] == '>') && t[1] == ' ' {
        let rest = skip_chars(t.as_slice(), 2);
        return trim_start_chars(rest.as_slice());
    }
    let mut h: usize = 0;
    assert(t@.skip(0) =~= t@);
    while h < t.len() && t[h] == '#'
        invariant
            h <= t@.len(),
            leading_hashes(t@) == h + leading_hashes(t@.skip(h as int)),
        decreases t@.len() - h,
    {
        assert(t@.skip(h as int).drop_first() =~= t@.skip(h + 1));
        h = h + 1;
    }
    assert(leading_hashes(t@.skip(h as int)) == 0);
    if h > 0 && h < t.len() && t[h] == ' ' {
        let rest = skip_chars(t.as_slice(), h + 1);
        return trim_start_chars(rest.as_slice());
    }
    t
}

/// The chunk texts that pieces of one line yield: each piece trimmed, empty pieces dropped,
/// the decorator removed, and pieces whose normalized form is empty dropped.
pub open spec fn kept_pieces(pieces: Seq<Seq<char>>) -> Seq<Seq<char>>
    decreases pieces.len(),
{
    if pieces.len() == 0 {
        Seq::empty()
    } else {
        let prev = kept_pieces(pieces.drop_last());
        let t = trim(pieces.last());
        let c = strip_decorator(t);
        if t.len() == 0 || normalized_text(c).len() == 0 {
            prev
        } else {
            prev.push(c)
        }
    }
}

/// The chunk texts of one line: its pieces between chunk markers that survive cleaning.
pub open spec fn line_segments(line: Seq<char>) -> Seq<Seq<char>> {
    kept_pieces(split_at_pattern(line, DEFAULT_CHUNK_MARKER@))
}

/// The chunk texts of a document, each with its one-based line number.
pub open spec fn doc_segments(lines: Seq<Seq<char>>) -> Seq<(int, Seq<char>)>
    decreases lines.len(),
{
    if lines.len() == 0 {
        Seq::empty()
    } else {
        doc_segments(lines.drop_last()) + line_segments(lines.last()).map_values(
            |c: Seq<char>| (lines.len() as int, c),
        )
    }
}

/// Spans of merged chunk text, as (first line, last line, text).
pub open spec fn merge_segments(segs: Seq<(int, Seq<char>)>) -> Seq<(int, int, Seq<char>)>
    decreases segs.len(),
{
    if segs.len() == 0 {
        Seq::empty()
    } else {
        let prev = merge_segments(segs.drop_last());
        let line = segs.last().0;
        let text = segs.last().1;
        if prev.len() > 0 && prev.last().2.len() + 1 + text.len()
            <= DEFAULT_SHORT_CHUNK_MERGE_MAX_CHARS {
            prev.update(prev.len() - 1, (prev.last().0, line, prev.last().2 + seq!['\n'] + text))
        } else {
            prev.push((line, line, text))
        }
    }
}

/// The chunk spans of a document body.
pub open spec fn text_spans(body: Seq<char>) -> Seq<(int, int, Seq<char>)> {
    merge_segments(doc_segments(lines_of(body)))
}

/// The (line, text) pairs held by a vector of segments.
pub open spec fn seg_views(v: Seq<(usize, Vec<char>)>) -> Seq<(int, Seq<char>)> {
    v.map_values(|s: (usize, Vec<char>)| (s.0 as int, s.1@))
}

/// The (first line, last line, text) triples held by a vector of spans.
pub open spec fn span_views(v: Seq<(usize, usize, Vec<char>)>) -> Seq<(int, int, Seq<char>)> {
    v.map_values(|s: (usize, usize, Vec<char>)| (s.0 as int, s.1 as int, s.2@))
}

fn marker_chars() -> (r: Vec<char>)
    ensures
        r@ == DEFAULT_CHUNK_MARKER@,
        r@.len() > 0,
{
    proof {
        reveal_strlit(" :: ");
    }
    chars_of(DEFAULT_CHUNK_MARKER)
}

/// The chunk texts of one line.
fn line_segments_exec(line: &[char]) -> (r: Vec<Vec<char>>)
    ensures
        views(r@) == line_segments(line@),
{
    let marker = marker_chars();
    let ps = split_pattern(line, marker.as_slice());
    let mut out: Vec<Vec<char>> = Vec::new();
    let mut i: usize = 0;
    assert(views(ps@).take(0) =~= Seq::<Seq<char>>::empty());
    assert(views(out@) =~= Seq::<Seq<char>>::empty());
    while i < ps.len()
        invariant
            i <= ps@.len(),
            views(out@) == kept_pieces(views(ps@).take(i as int)),
        decreases ps@.len() - i,
    {
        assert(views(ps@).take(i + 1).drop_last() =~= views(ps@).take(i as int));
        assert(views(ps@).take(i + 1).last() == ps@[i as int]@);
        let t = trim_chars(ps[i].as_slice());
        if t.len() > 0 {
            let c = strip_line_decorator(t.as_slice());
            let cs = string_of(c.as_slice());
            let normalized = normalize_query(cs.as_str());
            if !normalized.as_str().is_empty() {
                let ghost before = views(out@);
                let ghost cv = c@;
                out.push(c);
                assert(views(out@) =~= before.push(cv));
            }
        }
        i = i + 1;
    }
    assert(views(ps@).take(ps@.len() as int) =~= views(ps@));
    out
}

/// The chunk texts of a document body, each with its one-based line number.
fn chunk_segments(body: &str) -> (r: Vec<(usize, Vec<char>)>)
    ensures
        seg_views(r@) == doc_segments(lines_of(body@)),
{
    let chars = chars_of(body);
    let lines = split_lines(chars.as_slice());
    let mut out: Vec<(usize, Vec<char>)> = Vec::new();
    let mut i: usize = 0;
    assert(views(lines@).take(0) =~= Seq::<Seq<char>>::empty());
    assert(seg_views(out@) =~= Seq::<(int, Seq<char>)>::empty());
    while i < lines.len()
        invariant
            i <= lines@.len(),
            views(lines@) == lines_of(body@),
            seg_views(out@) == doc_segments(views(lines@).take(i as int)),
        decreases lines@.len() - i,
    {
        let segs = line_segments_exec(lines[i].as_slice());
        let ghost base = seg_views(out@);
        let line_no: usize = i + 1;
        let ghost ln = line_no as int;
        let mut j: usize = 0;
        assert(views(segs@).take(0).map_values(|c: Seq<char>| (ln, c)) =~= Seq::<(int, Seq<char>)>::empty());
        assert(base + Seq::<(int, Seq<char>)>::empty() =~= base);
        while j < segs.len()
            invariant
                j <= segs@.len(),
                i < lines@.len(),
                ln == i + 1,
                line_no == i + 1,
                seg_views(out@) == base + views(segs@).take(j as int).map_values(|c: Seq<char>| (ln, c)),
            decreases segs@.len() - j,
        {
            let ghost before = seg_views(out@);
            let piece = segs[j].clone();
            assert(piece@ == segs@[j as int]@);
            out.push((line_no, piece));
            assert(seg_views(out@) =~= before.push((ln, segs@[j as int]@)));
            assert(views(segs@).take(j + 1).map_values(|c: Seq<char>| (ln, c)) =~= views(segs@).take(j as int).map_values(|c: Seq<char>| (ln, c)).push((ln, segs@[j as int]@)));
            j = j + 1;
        }
        assert(views(segs@).take(segs@.len() as int) =~= views(segs@));
        assert(views(lines@).take(i + 1).drop_last() =~= views(lines@).take(i as int));
        assert(views(lines@).take(i + 1).last() == lines@[i as int]@);
        assert(views(lines@).take(i + 1).len() == i + 1);
        i = i + 1;
    }
    assert(views(lines@).take(lines@.len() as int) =~= views(lines@));
    out
}

/// Merges neighbouring short chunk texts: a text joins the previous span, after a line
/// break, while the joined text stays within the short-chunk limit.
fn merge_short_segments(segs: &Vec<(usize, Vec<char>)>) -> (r: Vec<(usize, usize, Vec<char>)>)
    ensures
        span_views(r@) == merge_segments(seg_views(segs@)),
{
    let mut out: Vec<(usize, usize, Vec<char>)> = Vec::new();
    let mut i: usize = 0;
    assert(seg_views(segs@).take(0) =~= Seq::<(int, Seq<char>)>::empty());
    assert(span_views(out@) =~= Seq::<(int, int, Seq<char>)>::empty());
    while i < segs.len()
        invariant
            i <= segs@.len(),
            span_views(out@) == merge_segments(seg_views(segs@).take(i as int)),
        decreases segs@.len() - i,
    {
        let ghost prefix = seg_views(segs@).take(i + 1);
        assert(prefix.drop_last() =~= seg_views(segs@).take(i as int));
        assert(prefix.last() == (segs@[i as int].0 as int, segs@[i as int].1@));
        let line = segs[i].0;
        let text = &segs[i].1;
        let ghost before = span_views(out@);
        let n = out.len();
        let fits = if n > 0 {
            let last_len = out[n - 1].2.len();
            text.len() < DEFAULT_SHORT_CHUNK_MERGE_MAX_CHARS && last_len
                <= DEFAULT_SHORT_CHUNK_MERGE_MAX_CHARS - 1 - text.len()
        } else {
            false
        };
        if fits {
            let ghost pre = out@;
            let mut last = out.pop().unwrap();
            assert(out@ =~= pre.drop_last());
            let ghost last_text = last.2@;
            assert(before.last() == (last.0 as int, last.1 as int, last_text));
            last.2.push('\n');
            let mut k: usize = 0;
            while k < text.len()
                invariant
                    k <= text@.len(),
                    last.2@ == last_text.push('\n') + text@.take(k as int),
                    last.0 as int == before.last().0,
                decreases text@.len() - k,
            {
                last.2.push(text[k]);
                assert(text@.take(k + 1) =~= text@.take(k as int).push(text@[k as int]));
                k = k + 1;
            }
            assert(text@.take(text@.len() as int) =~= text@);
            assert(last_text.push('\n') + text@ =~= last_text + seq!['\n'] + text@);
            last.1 = line;
            let ghost lv = (last.0 as int, last.1 as int, last.2@);
            out.push(last);
            assert(span_views(out@) =~= span_views(pre.drop_last()).push(lv));
            assert(span_views(pre.drop_last()) =~= before.drop_last());
            assert(lv == (before.last().0, line as int, before.last().2 + seq!['\n'] + text@));
            assert(before.update(before.len() - 1, lv) =~= before.drop_last().push(lv));
            assert(span_views(out@) =~= before.update(before.len() - 1, (before.last().0, line as int, before.last().2 + seq!['\n'] + text@)));
        } else {
            let piece = text.clone();
            assert(piece@ == text@);
            out.push((line, line, piece));
            assert(span_views(out@) =~= before.push((line as int, line as int, text@)));
        }
        i = i + 1;
    }
    assert(seg_views(segs@).take(segs@.len() as int) =~= seg_views(segs@));
    out
}

/// One chunk of an indexed document, with the text the lexical index searches, the text
/// whose embedding it shares with equal chunks, and what kind of chunk it is.
#[derive(Clone, Debug)]
pub struct IndexedChunk {
    pub chunk_index: usize,
    pub line_start: usize,
    pub line_end: usize,
    pub raw_text: String,
    pub normalized_text: String,
    pub shared_normalized_text: String,
    pub shared_normalized_text_hash: String,
    pub chunk_kind: String,
    pub language: Option<String>,
    pub symbol_kind: Option<String>,
    pub container: Option<String>,
}

/// Whether `c` is the text chunk number `k` made from `span`.
pub open spec fn is_text_chunk(c: IndexedChunk, k: int, span: (int, int, Seq<char>)) -> bool {
    &&& c.chunk_index == k
    &&& c.line_start == span.0
    &&& c.line_end == span.1
    &&& c.raw_text@ == span.2
    &&& c.normalized_text@ == normalized_text(span.2)
    &&& c.shared_normalized_text@ == normalized_text(span.2)
    &&& c.shared_normalized_text_hash@ == hash_text(vstd::utf8::encode_utf8(normalized_text(span.2)))
    &&& c.chunk_kind@ == "text"@
    &&& c.language is None
    &&& c.symbol_kind is None
    &&& c.container is None
}

/// Whether `chunks` are exactly the text chunks of the spans, numbered from zero.
pub open spec fn are_text_chunks(chunks: Seq<IndexedChunk>, spans: Seq<(int, int, Seq<char>)>) -> bool {
    &&& chunks.len() == spans.len()
    &&& forall|k: int| 0 <= k < chunks.len() ==> is_text_chunk(#[trigger] chunks[k], k, spans[k])
}

fn text_chunk(k: usize, line_start: usize, line_end: usize, raw: &Vec<char>) -> (c: IndexedChunk)
    ensures
        is_text_chunk(c, k as int, (line_start as int, line_end as int, raw@)),
{
    let raw_text = string_of(raw.as_slice());
    let normalized = normalize_query(raw_text.as_str());
    let shared = normalized.clone();
    let hash = stable_text_hash(normalized.as_str());
    IndexedChunk {
        chunk_index: k,
        line_start,
        line_end,
        raw_text,
        normalized_text: normalized,
        shared_normalized_text: shared,
        shared_normalized_text_hash: hash,
        chunk_kind: "text".to_owned(),
        language: None,
        symbol_kind: None,
        container: None,
    }
}

proof fn lemma_doc_segment_lines(lines: Seq<Seq<char>>)
    ensures
        forall|t: int| 0 <= t < doc_segments(lines).len() ==> 1 <= (#[trigger] doc_segments(lines)[t]).0 <= lines.len(),
        forall|t: int, u: int| 0 <= t < u < doc_segments(lines).len() ==> (#[trigger] doc_segments(lines)[t]).0
            <= (#[trigger] doc_segments(lines)[u]).0,
    decreases lines.len(),
{
    if lines.len() > 0 {
        lemma_doc_segment_lines(lines.drop_last());
        let prev = doc_segments(lines.drop_last());
        let tail = line_segments(lines.last()).map_values(|c: Seq<char>| (lines.len() as int, c));
        let all = doc_segments(lines);
        assert(all == prev + tail);
        assert forall|t: int| 0 <= t < all.len() implies 1 <= (#[trigger] all[t]).0 <= lines.len() by {
            if t < prev.len() {
                assert(all[t] == prev[t]);
            } else {
                assert(all[t] == tail[t - prev.len()]);
            }
        }
        assert forall|t: int, u: int| 0 <= t < u < all.len() implies (#[trigger] all[t]).0 <= (#[trigger] all[u]).0 by {
            if u < prev.len() {
                assert(all[t] == prev[t] && all[u] == prev[u]);
            } else if t < prev.len() {
                assert(all[t] == prev[t]);
                assert(all[u] == tail[u - prev.len()]);
            } else {
                assert(all[t] == tail[t - prev.len()]);
                assert(all[u] == tail[u - prev.len()]);
            }
        }
    }
}

proof fn lemma_merged_span_lines(segs: Seq<(int, Seq<char>)>, count: int)
    requires
        forall|t: int| 0 <= t < segs.len() ==> 1 <= (#[trigger] segs[t]).0 <= count,
        forall|t: int, u: int| 0 <= t < u < segs.len() ==> (#[trigger] segs[t]).0 <= (#[trigger] segs[u]).0,
    ensures
        forall|t: int| 0 <= t < merge_segments(segs).len() ==> 1 <= (#[trigger] merge_segments(segs)[t]).0
            <= merge_segments(segs)[t].1 <= count,
        forall|t: int, u: int| 0 <= t < u < merge_segments(segs).len() ==> (#[trigger] merge_segments(segs)[t]).1
            <= (#[trigger] merge_segments(segs)[u]).0,
        merge_segments(segs).len() > 0 ==> merge_segments(segs).last().1 == segs.last().0,
    decreases segs.len(),
{
    if segs.len() > 0 {
        let front = segs.drop_last();
        assert forall|t: int| 0 <= t < front.len() implies 1 <= (#[trigger] front[t]).0 <= count by {
            assert(front[t] == segs[t]);
        }
        assert forall|t: int, u: int| 0 <= t < u < front.len() implies (#[trigger] front[t]).0 <= (#[trigger] front[u]).0 by {
            assert(front[t] == segs[t] && front[u] == segs[u]);
        }
        lemma_merged_span_lines(front, count);
        let prev = merge_segments(front);
        let line = segs.last().0;
        let text = segs.last().1;
        assert(segs.last() == segs[segs.len() - 1]);
        let m = merge_segments(segs);
        if prev.len() > 0 {
            assert(front.last() == segs[segs.len() - 2]);
            assert(prev.last().1 <= line);
        }
        if prev.len() > 0 && prev.last().2.len() + 1 + text.len() <= DEFAULT_SHORT_CHUNK_MERGE_MAX_CHARS {
            let k = prev.len() - 1;
            assert(m == prev.update(k, (prev.last().0, line, prev.last().2 + seq!['\n'] + text)));
            assert forall|t: int| 0 <= t < m.len() implies 1 <= (#[trigger] m[t]).0 <= m[t].1 <= count by {
                if t < k {
                    assert(m[t] == prev[t]);
                }
            }
            assert forall|t: int, u: int| 0 <= t < u < m.len() implies (#[trigger] m[t]).1 <= (#[trigger] m[u]).0 by {
                assert(m[t] == prev[t]);
                if u < k {
                    assert(m[u] == prev[u]);
                } else {
                    assert(prev[t].1 <= prev[k].0);
                }
            }
        } else {
            assert(m == prev.push((line, line, text)));
            assert forall|t: int| 0 <= t < m.len() implies 1 <= (#[trigger] m[t]).0 <= m[t].1 <= count by {
                if t < prev.len() {
                    assert(m[t] == prev[t]);
                }
            }
            assert forall|t: int, u: int| 0 <= t < u < m.len() implies (#[trigger] m[t]).1 <= (#[trigger] m[u]).0 by {
                assert(m[t] == prev[t]);
                if u < prev.len() {
                    assert(m[u] == prev[u]);
                } else {
                    let k = prev.len() - 1;
                    if t < k {
                        assert(prev[t].1 <= prev[k].0);
                    }
                    assert(prev[k] == prev.last());
                }
            }
        }
    }
}

proof fn lemma_kept_pieces_have_words(pieces: Seq<Seq<char>>)
    ensures
        forall|t: int| 0 <= t < kept_pieces(pieces).len() ==> normalized_text(#[trigger] kept_pieces(pieces)[t]).len() > 0,
    decreases pieces.len(),
{
    if pieces.len() > 0 {
        lemma_kept_pieces_have_words(pieces.drop_last());
        let prev = kept_pieces(pieces.drop_last());
        let k = kept_pieces(pieces);
        assert forall|t: int| 0 <= t < k.len() implies normalized_text(#[trigger] k[t]).len() > 0 by {
            if t < prev.len() {
                assert(k[t] == prev[t]);
            }
        }
    }
}

proof fn lemma_doc_segments_have_words(lines: Seq<Seq<char>>)
    ensures
        forall|t: int| 0 <= t < doc_segments(lines).len() ==> normalized_text((#[trigger] doc_segments(lines)[t]).1).len() > 0,
    decreases lines.len(),
{
    if lines.len() > 0 {
        lemma_doc_segments_have_words(lines.drop_last());
        lemma_kept_pieces_have_words(split_at_pattern(lines.last(), DEFAULT_CHUNK_MARKER@));
        let prev = doc_segments(lines.drop_last());
        let segs = line_segments(lines.last());
        let tail = segs.map_values(|c: Seq<char>| (lines.len() as int, c));
        let all = doc_segments(lines);
        assert(all == prev + tail);
        assert forall|t: int| 0 <= t < all.len() implies normalized_text((#[trigger] all[t]).1).len() > 0 by {
            if t < prev.len() {
                assert(all[t] == prev[t]);
            } else {
                assert(all[t] == tail[t - prev.len()]);
                assert(tail[t - prev.len()].1 == segs[t - prev.len()]);
            }
        }
    }
}

/// Joining a text that has words with more text, after a line break, keeps some words.
proof fn lemma_merged_text_has_words(a: Seq<char>, b: Seq<char>)
    requires
        normalized_text(a).len() > 0,
    ensures
        normalized_text(a + seq!['\n'] + b).len() > 0,
{
    let t = seq!['\n'] + b;
    assert(a + seq!['\n'] + b =~= a + t);
    assert(t[0] == '\n');
    crate::text::lemma_words_concat(a, t);
    let lw = |w: Seq<char>| lowercase(w);
    assert((words(a) + words(t)).map_values(lw) =~= words(a).map_values(lw) + words(t).map_values(lw));
    crate::text::lemma_join_prefix_len(words(a).map_values(lw), words(t).map_values(lw), seq![' ']);
}

proof fn lemma_merged_spans_have_words(segs: Seq<(int, Seq<char>)>)
    requires
        forall|t: int| 0 <= t < segs.len() ==> normalized_text((#[trigger] segs[t]).1).len() > 0,
    ensures
        forall|t: int| 0 <= t < merge_segments(segs).len() ==> normalized_text((#[trigger] merge_segments(segs)[t]).2).len() > 0,
    decreases segs.len(),
{
    if segs.len() > 0 {
        let front = segs.drop_last();
        assert forall|t: int| 0 <= t < front.len() implies normalized_text((#[trigger] front[t]).1).len() > 0 by {
            assert(front[t] == segs[t]);
        }
        lemma_merged_spans_have_words(front);
        let prev = merge_segments(front);
        let line = segs.last().0;
        let text = segs.last().1;
        assert(segs.last() == segs[segs.len() - 1]);
        let m = merge_segments(segs);
        if prev.len() > 0 && prev.last().2.len() + 1 + text.len() <= DEFAULT_SHORT_CHUNK_MERGE_MAX_CHARS {
            let k = prev.len() - 1;
            assert(prev.last() == prev[k]);
            lemma_merged_text_has_words(prev.last().2, text);
            assert(m == prev.update(k, (prev.last().0, line, prev.last().2 + seq!['\n'] + text)));
            assert forall|t: int| 0 <= t < m.len() implies normalized_text((#[trigger] m[t]).2).len() > 0 by {
                if t < k {
                    assert(m[t] == prev[t]);
                }
            }
        } else {
            assert(m == prev.push((line, line, text)));
            assert forall|t: int| 0 <= t < m.len() implies normalized_text((#[trigger] m[t]).2).len() > 0 by {
                if t < prev.len() {
                    assert(m[t] == prev[t]);
                }
            }
        }
    }
}

proof fn lemma_decorator_clean(t: Seq<char>, pat: Seq<char>)
    requires
        !contains(t, pat),
    ensures
        !contains(strip_decorator(t), pat),
{
    crate::text::lemma_trimmed_clean(t, pat, 0);
    let u = trim_start(t);
    crate::text::lemma_trimmed_clean(u, pat, 2);
    crate::text::lemma_trimmed_clean(u, pat, leading_hashes(u) as int + 1);
    if u.len() >= 2 {
        crate::text::lemma_trimmed_clean(u.skip(2), pat, 0);
    }
    let h = leading_hashes(u);
    if h > 0 && h < u.len() {
        crate::text::lemma_trimmed_clean(u.skip(h + 1 as int), pat, 0);
    }
}

proof fn lemma_kept_pieces_clean(pieces: Seq<Seq<char>>, pat: Seq<char>)
    requires
        forall|p: int| 0 <= p < pieces.len() ==> !contains(#[trigger] pieces[p], pat),
    ensures
        forall|t: int| 0 <= t < kept_pieces(pieces).len() ==> !contains(#[trigger] kept_pieces(pieces)[t], pat),
    decreases pieces.len(),
{
    if pieces.len() > 0 {
        let front = pieces.drop_last();
        assert forall|p: int| 0 <= p < front.len() implies !contains(#[trigger] front[p], pat) by {
            assert(front[p] == pieces[p]);
        }
        lemma_kept_pieces_clean(front, pat);
        assert(pieces.last() == pieces[pieces.len() - 1]);
        crate::text::lemma_trimmed_clean(pieces.last(), pat, 0);
        lemma_decorator_clean(trim(pieces.last()), pat);
        let prev = kept_pieces(front);
        let k = kept_pieces(pieces);
        assert forall|t: int| 0 <= t < k.len() implies !contains(#[trigger] k[t], pat) by {
            if t < prev.len() {
                assert(k[t] == prev[t]);
            }
        }
    }
}

proof fn lemma_doc_segments_clean(lines: Seq<Seq<char>>)
    ensures
        forall|t: int| 0 <= t < doc_segments(lines).len() ==> !contains((#[trigger] doc_segments(lines)[t]).1, DEFAULT_CHUNK_MARKER@),
    decreases lines.len(),
{
    if lines.len() > 0 {
        lemma_doc_segments_clean(lines.drop_last());
        reveal_strlit(" :: ");
        crate::text::lemma_split_pieces_clean(lines.last(), DEFAULT_CHUNK_MARKER@);
        lemma_kept_pieces_clean(split_at_pattern(lines.last(), DEFAULT_CHUNK_MARKER@), DEFAULT_CHUNK_MARKER@);
        let prev = doc_segments(lines.drop_last());
        let segs = line_segments(lines.last());
        let tail = segs.map_values(|c: Seq<char>| (lines.len() as int, c));
        let all = doc_segments(lines);
        assert(all == prev + tail);
        assert forall|t: int| 0 <= t < all.len() implies !contains((#[trigger] all[t]).1, DEFAULT_CHUNK_MARKER@) by {
            if t < prev.len() {
                assert(all[t] == prev[t]);
            } else {
                assert(all[t] == tail[t - prev.len()]);
                assert(tail[t - prev.len()].1 == segs[t - prev.len()]);
            }
        }
    }
}

proof fn lemma_merged_spans_clean(segs: Seq<(int, Seq<char>)>)
    requires
        forall|t: int| 0 <= t < segs.len() ==> !contains((#[trigger] segs[t]).1, DEFAULT_CHUNK_MARKER@),
    ensures
        forall|t: int| 0 <= t < merge_segments(segs).len() ==> !contains((#[trigger] merge_segments(segs)[t]).2, DEFAULT_CHUNK_MARKER@),
    decreases segs.len(),
{
    reveal_strlit(" :: ");
    if segs.len() > 0 {
        let front = segs.drop_last();
        assert forall|t: int| 0 <= t < front.len() implies !contains((#[trigger] front[t]).1, DEFAULT_CHUNK_MARKER@) by {
            assert(front[t] == segs[t]);
        }
        lemma_merged_spans_clean(front);
        let prev = merge_segments(front);
        let line = segs.last().0;
        let text = segs.last().1;
        assert(segs.last() == segs[segs.len() - 1]);
        let m = merge_segments(segs);
        if prev.len() > 0 && prev.last().2.len() + 1 + text.len() <= DEFAULT_SHORT_CHUNK_MERGE_MAX_CHARS {
            let k = prev.len() - 1;
            assert(prev.last() == prev[k]);
            crate::text::lemma_line_join_clean(prev.last().2, text, DEFAULT_CHUNK_MARKER@);
            assert(m == prev.update(k, (prev.last().0, line, prev.last().2 + seq!['\n'] + text)));
            assert forall|t: int| 0 <= t < m.len() implies !contains((#[trigger] m[t]).2, DEFAULT_CHUNK_MARKER@) by {
                if t < k {
                    assert(m[t] == prev[t]);
                }
            }
        } else {
            assert(m == prev.push((line, line, text)));
            assert forall|t: int| 0 <= t < m.len() implies !contains((#[trigger] m[t]).2, DEFAULT_CHUNK_MARKER@) by {
                if t < prev.len() {
                    assert(m[t] == prev[t]);
                }
            }
        }
    }
}

/// The text chunks of a body are numbered by position, each spans lines within the body
/// (first line at least 1, last line at most the line count), chunks follow one another down
/// the body (each starts no earlier than the previous one ends), and every chunk has words:
/// its normalized text is not empty; and no chunk holds the chunk marker ` :: `.
pub proof fn lemma_text_chunks_well_formed(body: Seq<char>, chunks: Seq<IndexedChunk>)
    requires
        are_text_chunks(chunks, text_spans(body)),
    ensures
        forall|k: int| 0 <= k < chunks.len() ==> (#[trigger] chunks[k]).chunk_index == k && 1 <= chunks[k].line_start
            <= chunks[k].line_end <= lines_of(body).len(),
        forall|k: int, l: int| 0 <= k < l < chunks.len() ==> (#[trigger] chunks[k]).line_end <= (#[trigger] chunks[l]).line_start,
        forall|k: int| 0 <= k < chunks.len() ==> (#[trigger] chunks[k]).normalized_text@.len() > 0,
        forall|k: int| 0 <= k < chunks.len() ==> !contains((#[trigger] chunks[k]).raw_text@, DEFAULT_CHUNK_MARKER@),
{
    let lines = lines_of(body);
    lemma_doc_segments_clean(lines);
    lemma_merged_spans_clean(doc_segments(lines));
    lemma_doc_segments_have_words(lines);
    lemma_merged_spans_have_words(doc_segments(lines));
    lemma_doc_segment_lines(lines);
    lemma_merged_span_lines(doc_segments(lines), lines.len() as int);
    let spans = text_spans(body);
    assert forall|k: int| 0 <= k < chunks.len() implies (#[trigger] chunks[k]).chunk_index == k && 1 <= chunks[k].line_start
        <= chunks[k].line_end <= lines.len() by {
        assert(is_text_chunk(chunks[k], k, spans[k]));
    }
    assert forall|k: int, l: int| 0 <= k < l < chunks.len() implies (#[trigger] chunks[k]).line_end <= (#[trigger] chunks[l]).line_start by {
        assert(is_text_chunk(chunks[k], k, spans[k]));
        assert(is_text_chunk(chunks[l], l, spans[l]));
    }
}

/// Splits a document body into line-based text chunks: lines split at the inline marker,
/// pieces trimmed and stripped of a list or heading decorator, pieces with no words dropped,
/// and neighbouring short pieces merged.
pub fn build_chunks(body: &str) -> (r: Vec<IndexedChunk>)
    ensures
        are_text_chunks(r@, text_spans(body@)),
{
    let segs = chunk_segments(body);
    let spans = merge_short_segments(&segs);
    let mut out: Vec<IndexedChunk> = Vec::new();
    let mut k: usize = 0;
    while k < spans.len()
        invariant
            k <= spans@.len(),
            span_views(spans@) == text_spans(body@),
            out@.len() == k,
            forall|j: int| 0 <= j < k ==> is_text_chunk(#[trigger] out@[j], j, span_views(spans@)[j]),
        decreases spans@.len() - k,
    {
        let c = text_chunk(k, spans[k].0, spans[k].1, &spans[k].2);
        out.push(c);
        k = k + 1;
    }
    out
}

/// Whether `c` is a control character (Unicode general category Cc).
pub open spec fn is_control(c: char) -> bool {
    (c as u32) <= 0x1f || (0x7f <= (c as u32) && (c as u32) <= 0x9f)
}

fn is_control_char(c: char) -> (r: bool)
    ensures
        r == is_control(c),
{
    let u = c as u32;
    u <= 0x1f || (0x7f <= u && u <= 0x9f)
}

/// Whether bytes pass the encoding and character whitelist: no NUL byte, well-formed
/// UTF-8, and no control character other than white space.
pub open spec fn text_whitelisted(bytes: Seq<u8>) -> bool {
    &&& !bytes.contains(0u8)
    &&& vstd::utf8::valid_utf8(bytes)
    &&& forall|i: int|
        0 <= i < vstd::utf8::decode_utf8(bytes).len() ==> {
            let c = #[trigger] vstd::utf8::decode_utf8(bytes)[i];
            is_ws(c) || !is_control(c)
        }
}

/// `std::str::from_utf8`: it succeeds exactly on well-formed UTF-8, and the text it hands
/// back is what the bytes encode.
#[verifier::external_body]
fn utf8_text(bytes: &[u8]) -> (r: Option<String>)
    ensures
        r is Some <==> vstd::utf8::valid_utf8(bytes@),
        r matches Some(s) ==> s@ == vstd::utf8::decode_utf8(bytes@),
{
    match std::str::from_utf8(bytes) {
        Ok(text) => Some(text.to_owned()),
        Err(_) => None,
    }
}

/// Checks the encoding and character whitelist on a file's bytes.
pub fn bytes_are_text_whitelisted(bytes: &[u8]) -> (r: bool)
    ensures
        r == text_whitelisted(bytes@),
{
    let mut i: usize = 0;
    while i < bytes.len()
        invariant
            i <= bytes@.len(),
            forall|j: int| 0 <= j < i ==> bytes@[j] != 0u8,
        decreases bytes@.len() - i,
    {
        if bytes[i] == 0 {
            assert(bytes@[i as int] == 0u8);
            return false;
        }
        i = i + 1;
    }
    assert(!bytes@.contains(0u8));
    let text = match utf8_text(bytes) {
        Some(text) => text,
        None => return false,
    };
    let chars = chars_of(text.as_str());
    let mut k: usize = 0;
    while k < chars.len()
        invariant
            k <= chars@.len(),
            chars@ == vstd::utf8::decode_utf8(bytes@),
            forall|j: int| 0 <= j < k ==> is_ws(chars@[j]) || !is_control(chars@[j]),
        decreases chars@.len() - k,
    {
        let c = chars[k];
        if !is_whitespace(c) && is_control_char(c) {
            return false;
        }
        k = k + 1;
    }
    true
}

/// The code of `c` with ASCII upper-case letters folded to lower case.
pub open spec fn ascii_fold(c: char) -> u32 {
    if 65 <= (c as u32) && (c as u32) <= 90 {
        (c as u32 + 32) as u32
    } else {
        c as u32
    }
}

/// Whether two texts are equal when ASCII letters are compared without case.
pub open spec fn eq_ignore_ascii_case(a: Seq<char>, b: Seq<char>) -> bool {
    a.len() == b.len() && forall|i: int| 0 <= i < a.len() ==> ascii_fold(a[i]) == ascii_fold(b[i])
}

fn fold_char(c: char) -> (r: u32)
    ensures
        r == ascii_fold(c),
{
    let u = c as u32;
    if 65 <= u && u <= 90 {
        u + 32
    } else {
        u
    }
}

/// Compares two texts without regard to ASCII case.
pub fn eq_ignore_ascii_case_exec(a: &[char], b: &str) -> (r: bool)
    ensures
        r == eq_ignore_ascii_case(a@, b@),
{
    let bv = chars_of(b);
    if a.len() != bv.len() {
        return false;
    }
    let mut i: usize = 0;
    while i < a.len()
        invariant
            i <= a@.len(),
            a@.len() == bv@.len(),
            bv@ == b@,
            forall|j: int| 0 <= j < i ==> ascii_fold(a@[j]) == ascii_fold(bv@[j]),
        decreases a@.len() - i,
    {
        if fold_char(a[i]) != fold_char(bv[i]) {
            return false;
        }
        i = i + 1;
    }
    true
}

/// The index of the last `.` in `s`, or -1.
pub open spec fn last_dot(s: Seq<char>) -> int
    decreases s.len(),
{
    if s.len() == 0 {
        -1
    } else if s.last() == '.' {
        s.len() - 1
    } else {
        last_dot(s.drop_last())
    }
}

/// The extension of a file name as `Path::extension` gives it: the text after the last dot,
/// unless the name has no dot, starts with its only dot, or is `..`.
pub open spec fn file_extension(name: Seq<char>) -> Option<Seq<char>> {
    let k = last_dot(name);
    if k <= 0 || name =~= seq!['.', '.'] {
        None
    } else {
        Some(name.skip(k + 1))
    }
}

proof fn lemma_last_dot(s: Seq<char>)
    ensures
        -1 <= last_dot(s) < s.len(),
        last_dot(s) >= 0 ==> s[last_dot(s)] == '.',
    decreases s.len(),
{
    if s.len() > 0 && s.last() != '.' {
        lemma_last_dot(s.drop_last());
    }
}

/// The extension of a file name.
pub fn extension_of(name: &[char]) -> (r: Option<Vec<char>>)
    ensures
        r matches Some(e) ==> file_extension(name@) == Some(e@),
        r is None ==> file_extension(name@) is None,
{
    let mut k: usize = name.len();
    proof {
        lemma_last_dot(name@);
    }
    assert(name@.take(k as int) =~= name@);
    while k > 0 && name[k - 1] != '.'
        invariant
            k <= name@.len(),
            last_dot(name@) == last_dot(name@.take(k as int)),
        decreases k,
    {
        assert(name@.take(k as int).drop_last() =~= name@.take(k - 1));
        k = k - 1;
    }
    if k > 0 {
        assert(name@.take(k as int).last() == name@[k - 1]);
    }
    if k <= 1 || (name.len() == 2 && name[0] == '.' && name[1] == '.') {
        assert(k <= 1 ==> last_dot(name@) <= 0);
        return None;
    }
    assert(!(name@ =~= seq!['.', '.']));
    Some(skip_chars(name, k))
}

/// Whether `ext` is one of the document extensions (`adoc`, `asciidoc`, `markdown`, `md`,
/// `org`, `rst`, `text`, `txt`), compared without ASCII case.
pub open spec fn is_document_extension(ext: Seq<char>) -> bool {
    ||| eq_ignore_ascii_case(ext, "adoc"@)
    ||| eq_ignore_ascii_case(ext, "asciidoc"@)
    ||| eq_ignore_ascii_case(ext, "markdown"@)
    ||| eq_ignore_ascii_case(ext, "md"@)
    ||| eq_ignore_ascii_case(ext, "org"@)
    ||| eq_ignore_ascii_case(ext, "rst"@)
    ||| eq_ignore_ascii_case(ext, "text"@)
    ||| eq_ignore_ascii_case(ext, "txt"@)
}

/// Whether `name` is one of the project-document base names (`LICENSE`, `README`,
/// `CHANGELOG`, `CONTRIBUTING`), compared without ASCII case.
pub open spec fn is_document_basename(name: Seq<char>) -> bool {
    ||| eq_ignore_ascii_case(name, "LICENSE"@)
    ||| eq_ignore_ascii_case(name, "README"@)
    ||| eq_ignore_ascii_case(name, "CHANGELOG"@)
    ||| eq_ignore_ascii_case(name, "CONTRIBUTING"@)
}

fn document_extension(ext: &[char]) -> (r: bool)
    ensures
        r == is_document_extension(ext@),
{
    eq_ignore_ascii_case_exec(ext, "adoc") || eq_ignore_ascii_case_exec(ext, "asciidoc")
        || eq_ignore_ascii_case_exec(ext, "markdown") || eq_ignore_ascii_case_exec(ext, "md")
        || eq_ignore_ascii_case_exec(ext, "org") || eq_ignore_ascii_case_exec(ext, "rst")
        || eq_ignore_ascii_case_exec(ext, "text") || eq_ignore_ascii_case_exec(ext, "txt")
}

fn document_basename(name: &[char]) -> (r: bool)
    ensures
        r == is_document_basename(name@),
{
    eq_ignore_ascii_case_exec(name, "LICENSE") || eq_ignore_ascii_case_exec(name, "README")
        || eq_ignore_ascii_case_exec(name, "CHANGELOG") || eq_ignore_ascii_case_exec(
        name,
        "CONTRIBUTING",
    )
}

/// A file prepared for the index: its size and modification time as read from disk, the
/// hash of its bytes, and its chunks.
#[derive(Clone, Debug)]
pub struct IndexedDocument {
    pub size_bytes: u64,
    pub modified_unix_ms: u64,
    pub content_hash: String,
    pub chunks: Vec<IndexedChunk>,
}

/// The text of an indexable file: non-empty, within the size limit, passing the encoding and
/// character whitelist, and within the line limit; `None` for any other file.
pub open spec fn document_text(bytes: Seq<u8>) -> Option<Seq<char>> {
    if 0 < bytes.len() && bytes.len() <= DEFAULT_MAX_FILE_BYTES && text_whitelisted(bytes)
        && lines_of(vstd::utf8::decode_utf8(bytes)).len() <= DEFAULT_MAX_FILE_LINES {
        Some(vstd::utf8::decode_utf8(bytes))
    } else {
        None
    }
}

/// Whether `chunks` are the chunks of a document: its text chunks, then its symbol chunks
/// numbered on from them.
pub open spec fn are_document_chunks(chunks: Seq<IndexedChunk>, path: Seq<char>, body: Seq<char>) -> bool {
    let m = text_spans(body).len() as int;
    &&& chunks.len() == m + symbol_count(path, body)
    &&& are_text_chunks(chunks.take(m), text_spans(body))
    &&& are_file_symbol_chunks(chunks.skip(m), path, body, m)
}

/// The chunks of a document body: its line-based text chunks followed by the symbol chunks
/// of its code, if any; `None` only when their numbers would not fit.
pub fn document_chunks(path: &str, body: &str) -> (r: Option<Vec<IndexedChunk>>)
    ensures
        r is Some <==> text_spans(body@).len() + symbol_count(path@, body@) <= usize::MAX + 1,
        r matches Some(chunks) ==> are_document_chunks(chunks@, path@, body@),
{
    let mut chunks = build_chunks(body);
    let m = chunks.len();
    let symbols = build_symbol_chunks(path, body);
    let ghost sv = symbols@;
    let renumbered = match renumber_chunks(symbols, m) {
        Some(v) => v,
        None => return None,
    };
    let ghost tv = chunks@;
    let ghost rv = renumbered@;
    let total = renumbered.len();
    let mut rest = renumbered;
    let mut k: usize = 0;
    assert(rest@ =~= rv.skip(0));
    assert(tv + rv.take(0) =~= tv);
    while rest.len() > 0
        invariant
            k <= rv.len(),
            rv.len() == total,
            k + rest@.len() == rv.len(),
            rest@ == rv.skip(k as int),
            chunks@ == tv + rv.take(k as int),
        decreases rest@.len(),
    {
        let c = rest.remove(0);
        assert(c == rv[k as int]);
        assert(rest@ =~= rv.skip(k + 1));
        chunks.push(c);
        assert(chunks@ =~= tv + rv.take(k + 1));
        k = k + 1;
    }
    assert(rv.take(k as int) =~= rv);
    assert(chunks@.take(m as int) =~= tv);
    assert(chunks@.skip(m as int) =~= rv);
    proof {
        match symbol_source(path@, body@) {
            Some(src) => {
                let found = symbol_nodes(src.0, src.1, body@, path@, src.1.len() as int);
                assert forall|j: int| 0 <= j < rv.len() implies crate::index::code_symbols::is_symbol_chunk(
                    #[trigger] rv[j],
                    crate::index::code_symbols::symbol_chunk_view(src.0, src.1, body@, path@, found[j])->Some_0,
                    src.0,
                    m + j,
                ) by {
                    assert(crate::index::code_symbols::is_symbol_chunk(
                        sv[j],
                        crate::index::code_symbols::symbol_chunk_view(src.0, src.1, body@, path@, found[j])->Some_0,
                        src.0,
                        0 + j,
                    ));
                }
            },
            None => {},
        }
    }
    Some(chunks)
}

/// Prepares a file's bytes for the index, or `None` when the file is not indexable or yields
/// no chunk. `path` is how the file is named in its symbol chunks.
pub fn indexable_document(path: &str, bytes: &[u8], modified_unix_ms: u64) -> (r: Option<IndexedDocument>)
    ensures
        r is Some <==> (document_text(bytes@) matches Some(text) && 0 < text_spans(text).len()
            + symbol_count(path@, text) <= usize::MAX + 1),
        r matches Some(d) ==> {
            &&& d.size_bytes == bytes@.len()
            &&& d.modified_unix_ms == modified_unix_ms
            &&& d.content_hash@ == hash_text(bytes@)
            &&& are_document_chunks(d.chunks@, path@, vstd::utf8::decode_utf8(bytes@))
        },
{
    if bytes.len() == 0 || bytes.len() as u64 > DEFAULT_MAX_FILE_BYTES {
        return None;
    }
    if !bytes_are_text_whitelisted(bytes) {
        return None;
    }
    let body = match utf8_text(bytes) {
        Some(body) => body,
        None => return None,
    };
    let chars = chars_of(body.as_str());
    let lines = split_lines(chars.as_slice());
    if lines.len() > DEFAULT_MAX_FILE_LINES {
        return None;
    }
    let chunks = match document_chunks(path, body.as_str()) {
        Some(chunks) => chunks,
        None => return None,
    };
    if chunks.len() == 0 {
        return None;
    }
    Some(IndexedDocument {
        size_bytes: bytes.len() as u64,
        modified_unix_ms,
        content_hash: crate::index::util::stable_hash(bytes),
        chunks,
    })
}

/// Whether a file's name admits it to the index: a document extension, a project-document
/// base name, or the extension of a supported code language.
pub open spec fn is_candidate_name(path: Seq<char>) -> bool {
    match file_name_of(path) {
        Some(name) => {
            ||| (file_extension(name) matches Some(ext) && is_document_extension(ext))
            ||| is_document_basename(name)
            ||| language_of_path(path) is Some
        },
        None => false,
    }
}

/// Checks the name whitelist for the file at `path`; its content is checked separately.
pub fn is_candidate_file_name(path: &str) -> (r: bool)
    ensures
        r == is_candidate_name(path@),
{
    let name = match file_name(path) {
        Some(name) => name,
        None => return false,
    };
    let by_extension = match extension_of(name.as_slice()) {
        Some(ext) => document_extension(ext.as_slice()),
        None => false,
    };
    by_extension || document_basename(name.as_slice()) || CodeLanguage::detect(path).is_some()
}

} // verus!
