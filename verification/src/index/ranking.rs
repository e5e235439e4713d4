//! Rank fusion of the lexical, literal and vector retrieval channels.
//!
//! The channels' lexical and vector scores are carried as order keys: 64-bit integers whose
//! order is the order of the floating-point scores they stand for (the caller maps each score
//! to its key), so that merging, filtering and ordering are decided here on integers.
//! `ZERO_SCORE_KEY` stands for a score of zero. The fused score of a hit, the sum of
//! `1 / (RRF_K + rank)` over the channels that ranked it, is a fraction of integers and is
//! compared exactly by cross-multiplying.
use vstd::prelude::*;
use vstd::multiset::Multiset;

use crate::index::natural::{compare, from_word, limbs_value, scaled, sum, Comparison};
use crate::text::chars_less;

verus! {

broadcast use vstd::seq_lib::group_to_multiset_ensures;

/// The order key of a score of zero.
pub const ZERO_SCORE_KEY: u64 = 0x8000_0000_0000_0000;
/// The constant of reciprocal-rank fusion: a channel that ranks a chunk at `rank` (from 0)
/// adds `1 / (RRF_K + rank)` to its fused score.
pub const RRF_K: u64 = 20;
/// The order key of the smallest vector similarity that takes part in rank fusion (0.20).
pub const MIN_VECTOR_SCORE_KEY: u64 = 0xBFC9_9999_9999_999A;

/// One candidate chunk as one retrieval channel reported it.
#[derive(Debug)]
pub struct StoredChunk {
    pub chunk_id: i64,
    pub rel_path: String,
    pub chunk_index: usize,
    pub line_start: usize,
    pub line_end: usize,
    pub chunk_kind: String,
    pub language: Option<String>,
    pub lexical_key: u64,
    pub vector_key: u64,
    pub indexed_text_match: bool,
    pub partial_text_match: bool,
    pub literal_line_number: Option<usize>,
    pub literal_preview: Option<String>,
}

/// A merged search hit: what the channels found for one chunk, and the rank it had in each.
#[derive(Debug)]
pub struct RankedHit {
    pub chunk_id: i64,
    pub rel_path: String,
    pub snippet: String,
    pub line_start: usize,
    pub line_end: usize,
    pub lexical_key: u64,
    pub vector_key: u64,
    pub indexed_text_match: bool,
    pub partial_text_match: bool,
    pub literal_line_number: Option<usize>,
    pub literal_preview: Option<String>,
    pub chunk_index: usize,
    pub chunk_kind: String,
    pub language: Option<String>,
    pub lexical_rank: Option<usize>,
    pub literal_rank: Option<usize>,
    pub vector_rank: Option<usize>,
}

/// The spec-level content of a candidate row.
pub struct RowView {
    pub chunk_id: i64,
    pub rel_path: Seq<char>,
    pub chunk_index: usize,
    pub line_start: usize,
    pub line_end: usize,
    pub chunk_kind: Seq<char>,
    pub language: Option<Seq<char>>,
    pub lexical_key: u64,
    pub vector_key: u64,
    pub indexed_text_match: bool,
    pub partial_text_match: bool,
    pub literal_line_number: Option<usize>,
    pub literal_preview: Option<Seq<char>>,
}

/// The spec-level content of a merged hit.
pub struct HitView {
    pub chunk_id: i64,
    pub rel_path: Seq<char>,
    pub snippet: Seq<char>,
    pub line_start: usize,
    pub line_end: usize,
    pub lexical_key: u64,
    pub vector_key: u64,
    pub indexed_text_match: bool,
    pub partial_text_match: bool,
    pub literal_line_number: Option<usize>,
    pub literal_preview: Option<Seq<char>>,
    pub chunk_index: usize,
    pub chunk_kind: Seq<char>,
    pub language: Option<Seq<char>>,
    pub lexical_rank: Option<usize>,
    pub literal_rank: Option<usize>,
    pub vector_rank: Option<usize>,
}

impl View for StoredChunk {
    type V = RowView;

    open spec fn view(&self) -> RowView {
        RowView {
            chunk_id: self.chunk_id,
            rel_path: self.rel_path@,
            chunk_index: self.chunk_index,
            line_start: self.line_start,
            line_end: self.line_end,
            chunk_kind: self.chunk_kind@,
            language: crate::text::opt_text(self.language),
            lexical_key: self.lexical_key,
            vector_key: self.vector_key,
            indexed_text_match: self.indexed_text_match,
            partial_text_match: self.partial_text_match,
            literal_line_number: self.literal_line_number,
            literal_preview: crate::text::opt_text(self.literal_preview),
        }
    }
}

impl View for RankedHit {
    type V = HitView;

    open spec fn view(&self) -> HitView {
        HitView {
            chunk_id: self.chunk_id,
            rel_path: self.rel_path@,
            snippet: self.snippet@,
            line_start: self.line_start,
            line_end: self.line_end,
            lexical_key: self.lexical_key,
            vector_key: self.vector_key,
            indexed_text_match: self.indexed_text_match,
            partial_text_match: self.partial_text_match,
            literal_line_number: self.literal_line_number,
            literal_preview: crate::text::opt_text(self.literal_preview),
            chunk_index: self.chunk_index,
            chunk_kind: self.chunk_kind@,
            language: crate::text::opt_text(self.language),
            lexical_rank: self.lexical_rank,
            literal_rank: self.literal_rank,
            vector_rank: self.vector_rank,
        }
    }
}

/// The retrieval channels.
#[derive(Clone, Copy, Debug, PartialEq, Eq, Structural)]
pub enum Channel {
    Lexical,
    Literal,
    Vector,
}

/// The hit a channel's row starts when its chunk was not seen before.
pub open spec fn fresh_hit(row: RowView, channel: Channel, rank: usize) -> HitView {
    HitView {
        chunk_id: row.chunk_id,
        rel_path: row.rel_path,
        snippet: Seq::empty(),
        line_start: row.line_start,
        line_end: row.line_end,
        lexical_key: row.lexical_key,
        vector_key: row.vector_key,
        indexed_text_match: row.indexed_text_match,
        partial_text_match: row.partial_text_match,
        literal_line_number: row.literal_line_number,
        literal_preview: row.literal_preview,
        chunk_index: row.chunk_index,
        chunk_kind: row.chunk_kind,
        language: row.language,
        lexical_rank: if channel == Channel::Lexical { Some(rank) } else { None },
        literal_rank: if channel == Channel::Literal { Some(rank) } else { None },
        vector_rank: if channel == Channel::Vector { Some(rank) } else { None },
    }
}

/// The larger of two keys.
pub open spec fn max_key(a: u64, b: u64) -> u64 {
    if a >= b { a } else { b }
}

/// A hit after another row of `channel` for the same chunk: lexical and literal rows raise the
/// lexical score to the larger one, a vector row sets the vector score; match flags accumulate;
/// a literal row's line and preview win, other rows only fill what is missing; the path is
/// filled when missing; the channel's rank becomes this row's.
pub open spec fn absorb(e: HitView, row: RowView, channel: Channel, rank: usize) -> HitView {
    HitView {
        rel_path: if channel != Channel::Lexical && e.rel_path.len() == 0 {
            row.rel_path
        } else {
            e.rel_path
        },
        lexical_key: if channel == Channel::Vector {
            e.lexical_key
        } else {
            max_key(e.lexical_key, row.lexical_key)
        },
        vector_key: if channel == Channel::Vector { row.vector_key } else { e.vector_key },
        indexed_text_match: e.indexed_text_match || row.indexed_text_match,
        partial_text_match: e.partial_text_match || row.partial_text_match,
        literal_line_number: if channel == Channel::Literal {
            if row.literal_line_number is Some { row.literal_line_number } else { e.literal_line_number }
        } else {
            if e.literal_line_number is None { row.literal_line_number } else { e.literal_line_number }
        },
        literal_preview: if channel == Channel::Literal {
            if row.literal_preview is Some { row.literal_preview } else { e.literal_preview }
        } else {
            if e.literal_preview is None { row.literal_preview } else { e.literal_preview }
        },
        lexical_rank: if channel == Channel::Lexical { Some(rank) } else { e.lexical_rank },
        literal_rank: if channel == Channel::Literal { Some(rank) } else { e.literal_rank },
        vector_rank: if channel == Channel::Vector { Some(rank) } else { e.vector_rank },
        ..e
    }
}

/// The position of the hit for chunk `id` among `hits`, if there is one.
pub open spec fn position_of(hits: Seq<HitView>, id: i64) -> Option<int>
    decreases hits.len(),
{
    if hits.len() == 0 {
        None
    } else if hits.last().chunk_id == id {
        Some(hits.len() - 1)
    } else {
        position_of(hits.drop_last(), id)
    }
}

/// `hits` after one row of `channel` at `rank`.
pub open spec fn merge_row(hits: Seq<HitView>, row: RowView, channel: Channel, rank: usize) -> Seq<
    HitView,
> {
    match position_of(hits, row.chunk_id) {
        Some(i) => hits.update(i, absorb(hits[i], row, channel, rank)),
        None => hits.push(fresh_hit(row, channel, rank)),
    }
}

/// `hits` after the rows of one channel, in order, each at its position as rank.
pub open spec fn merge_rows(hits: Seq<HitView>, rows: Seq<RowView>, channel: Channel) -> Seq<HitView>
    decreases rows.len(),
{
    if rows.len() == 0 {
        hits
    } else {
        merge_row(merge_rows(hits, rows.drop_last(), channel), rows.last(), channel, (rows.len() - 1) as usize)
    }
}

/// Whether a hit keeps some positive score.
pub open spec fn has_positive_score(h: HitView) -> bool {
    h.lexical_key > ZERO_SCORE_KEY || h.vector_key > ZERO_SCORE_KEY
}

/// The hits with a positive score, in order.
pub open spec fn positive_hits(hits: Seq<HitView>) -> Seq<HitView> {
    hits.filter(|h: HitView| has_positive_score(h))
}

/// The merged hits of the three channels: one per chunk, in order of first sight, without
/// those whose scores are all non-positive.
pub open spec fn merged_hits(lexical: Seq<RowView>, literal: Seq<RowView>, vector: Seq<RowView>) -> Seq<
    HitView,
> {
    positive_hits(merge_rows(merge_rows(merge_rows(Seq::empty(), lexical, Channel::Lexical), literal, Channel::Literal), vector, Channel::Vector))
}

/// The spec-level rows of a row vector.
pub open spec fn row_views(rows: Seq<StoredChunk>) -> Seq<RowView> {
    rows.map_values(|r: StoredChunk| r@)
}

/// The spec-level hits of a hit vector.
pub open spec fn hit_views(hits: Seq<RankedHit>) -> Seq<HitView> {
    hits.map_values(|h: RankedHit| h@)
}

/// Whether no two hits are for the same chunk.
pub open spec fn distinct_chunks(hits: Seq<HitView>) -> bool {
    forall|i: int, j: int| 0 <= i < j < hits.len() ==> hits[i].chunk_id != hits[j].chunk_id
}

} // verus!

verus! {

/// A found position holds the chunk.
pub proof fn lemma_position_of(hits: Seq<HitView>, id: i64)
    ensures
        position_of(hits, id) matches Some(i) ==> 0 <= i < hits.len() && hits[i].chunk_id == id,
        position_of(hits, id) is None ==> forall|k: int| 0 <= k < hits.len() ==> hits[k].chunk_id != id,
    decreases hits.len(),
{
    if hits.len() > 0 {
        lemma_position_of(hits.drop_last(), id);
        assert forall|k: int| 0 <= k < hits.len() - 1 implies hits[k] == hits.drop_last()[k] by {}
    }
}

fn find_position(hits: &Vec<RankedHit>, id: i64) -> (r: Option<usize>)
    ensures
        match r {
            Some(i) => position_of(hit_views(hits@), id) == Some(i as int),
            None => position_of(hit_views(hits@), id) is None,
        },
{
    let mut i: usize = hits.len();
    assert(hit_views(hits@).take(i as int) =~= hit_views(hits@));
    while i > 0
        invariant
            i <= hits@.len(),
            position_of(hit_views(hits@), id) == position_of(hit_views(hits@).take(i as int), id),
        decreases i,
    {
        let ghost prefix = hit_views(hits@).take(i as int);
        assert(prefix.drop_last() =~= hit_views(hits@).take(i - 1));
        if hits[i - 1].chunk_id == id {
            return Some(i - 1);
        }
        i = i - 1;
    }
    None
}

fn fresh(row: StoredChunk, channel: Channel, rank: usize) -> (h: RankedHit)
    ensures
        h@ == fresh_hit(row@, channel, rank),
{
    RankedHit {
        chunk_id: row.chunk_id,
        rel_path: row.rel_path,
        snippet: String::new(),
        line_start: row.line_start,
        line_end: row.line_end,
        lexical_key: row.lexical_key,
        vector_key: row.vector_key,
        indexed_text_match: row.indexed_text_match,
        partial_text_match: row.partial_text_match,
        literal_line_number: row.literal_line_number,
        literal_preview: row.literal_preview,
        chunk_index: row.chunk_index,
        chunk_kind: row.chunk_kind,
        language: row.language,
        lexical_rank: if channel == Channel::Lexical { Some(rank) } else { None },
        literal_rank: if channel == Channel::Literal { Some(rank) } else { None },
        vector_rank: if channel == Channel::Vector { Some(rank) } else { None },
    }
}

fn absorb_row(e: RankedHit, row: StoredChunk, channel: Channel, rank: usize) -> (h: RankedHit)
    ensures
        h@ == absorb(e@, row@, channel, rank),
{
    let mut e = e;
    let empty_path = e.rel_path.as_str().is_empty();
    if channel != Channel::Vector {
        if row.lexical_key > e.lexical_key {
            e.lexical_key = row.lexical_key;
        }
    } else {
        e.vector_key = row.vector_key;
    }
    e.indexed_text_match = e.indexed_text_match || row.indexed_text_match;
    e.partial_text_match = e.partial_text_match || row.partial_text_match;
    if channel == Channel::Literal {
        if row.literal_line_number.is_some() {
            e.literal_line_number = row.literal_line_number;
        }
        if row.literal_preview.is_some() {
            e.literal_preview = row.literal_preview;
        }
    } else {
        if e.literal_line_number.is_none() {
            e.literal_line_number = row.literal_line_number;
        }
        if e.literal_preview.is_none() {
            e.literal_preview = row.literal_preview;
        }
    }
    if channel != Channel::Lexical && empty_path {
        e.rel_path = row.rel_path;
    }
    match channel {
        Channel::Lexical => e.lexical_rank = Some(rank),
        Channel::Literal => e.literal_rank = Some(rank),
        Channel::Vector => e.vector_rank = Some(rank),
    }
    e
}

fn merge_channel(hits: &mut Vec<RankedHit>, rows: Vec<StoredChunk>, channel: Channel)
    ensures
        hit_views(final(hits)@) == merge_rows(hit_views(old(hits)@), row_views(rows@), channel),
{
    let ghost original = row_views(rows@);
    let ghost start = hit_views(hits@);
    let total = rows.len();
    // reverse the rows so that popping yields them in their original order
    let mut rows = rows;
    let mut reversed: Vec<StoredChunk> = Vec::new();
    while rows.len() > 0
        invariant
            row_views(reversed@) + row_views(rows@).reverse() == original.reverse(),
        decreases rows@.len(),
    {
        let ghost before_rows = row_views(rows@);
        let ghost before_rev = row_views(reversed@);
        let row = rows.pop().unwrap();
        reversed.push(row);
        assert(row_views(reversed@) =~= before_rev.push(before_rows.last()));
        assert(before_rows.reverse() =~= seq![before_rows.last()] + row_views(rows@).reverse());
        assert(row_views(reversed@) + row_views(rows@).reverse() =~= before_rev + before_rows.reverse());
    }
    assert(row_views(reversed@) =~= original.reverse());
    let mut rank: usize = 0;
    assert(original.take(0) =~= Seq::<RowView>::empty());
    while reversed.len() > 0
        invariant
            rank + reversed@.len() == original.len(),
            original.len() == total,
            row_views(reversed@) == original.skip(rank as int).reverse(),
            hit_views(hits@) == merge_rows(start, original.take(rank as int), channel),
        decreases reversed@.len(),
    {
        let ghost before_rev = row_views(reversed@);
        let row = reversed.pop().unwrap();
        proof {
            assert(row@ == before_rev.last());
            assert(before_rev.last() == original.skip(rank as int).reverse().last());
            assert(original.skip(rank as int).reverse().last() == original[rank as int]);
            assert(row_views(reversed@) =~= before_rev.drop_last());
            assert(original.skip(rank + 1).reverse() =~= original.skip(rank as int).reverse().drop_last());
            assert(original.take(rank + 1).drop_last() =~= original.take(rank as int));
            assert(original.take(rank + 1).last() == original[rank as int]);
        }
        let ghost before_hits = hit_views(hits@);
        proof {
            lemma_position_of(before_hits, row.chunk_id);
        }
        match find_position(hits, row.chunk_id) {
            Some(pos) => {
                let e = hits.remove(pos);
                let updated = absorb_row(e, row, channel, rank);
                hits.insert(pos, updated);
                assert(hit_views(hits@) =~= before_hits.update(pos as int, absorb(before_hits[pos as int], original[rank as int], channel, rank)));
            },
            None => {
                let h = fresh(row, channel, rank);
                hits.push(h);
                assert(hit_views(hits@) =~= before_hits.push(fresh_hit(original[rank as int], channel, rank)));
            },
        }
        rank = rank + 1;
    }
    assert(original.take(original.len() as int) =~= original);
}

/// Fuses the three channels' candidates: one hit per chunk, with each channel's rank, keeping
/// only hits with some positive score, listed in rank order (source priority, then the fused
/// score `sum of 1 / (RRF_K + rank)`, then lexical score, then path).
pub fn merge_ranked_hits(
    lexical_rows: Vec<StoredChunk>,
    literal_rows: Vec<StoredChunk>,
    vector_rows: Vec<StoredChunk>,
) -> (r: Vec<RankedHit>)
    ensures
        hit_views(r@) == rank_order(
            merged_hits(row_views(lexical_rows@), row_views(literal_rows@), row_views(vector_rows@)),
        ),
        hit_views(r@).to_multiset() == merged_hits(
            row_views(lexical_rows@),
            row_views(literal_rows@),
            row_views(vector_rows@),
        ).to_multiset(),
        ranked(hit_views(r@)),
        forall|i: int, j: int| 0 <= i < j < r@.len() ==> sources_in_order(#[trigger] hit_views(r@)[i], #[trigger] hit_views(r@)[j]),
{
    let merged = merge_channels(lexical_rows, literal_rows, vector_rows);
    let r = sort_ranked_hits(merged);
    proof {
        assert forall|i: int, j: int| 0 <= i < j < r@.len() implies sources_in_order(#[trigger] hit_views(r@)[i], #[trigger] hit_views(r@)[j]) by {
            lemma_rank_order_by_sources(hit_views(r@), i, j);
        }
    }
    r
}

/// The channels' candidates merged: one hit per chunk in order of first sight, keeping only
/// hits with some positive score.
fn merge_channels(
    lexical_rows: Vec<StoredChunk>,
    literal_rows: Vec<StoredChunk>,
    vector_rows: Vec<StoredChunk>,
) -> (r: Vec<RankedHit>)
    ensures
        hit_views(r@) == merged_hits(row_views(lexical_rows@), row_views(literal_rows@), row_views(vector_rows@)),
{
    let mut hits: Vec<RankedHit> = Vec::new();
    assert(hit_views(hits@) =~= Seq::<HitView>::empty());
    merge_channel(&mut hits, lexical_rows, Channel::Lexical);
    merge_channel(&mut hits, literal_rows, Channel::Literal);
    merge_channel(&mut hits, vector_rows, Channel::Vector);
    let ghost all = hit_views(hits@);
    let total = hits.len();
    let mut kept: Vec<RankedHit> = Vec::new();
    let mut rest = hits;
    let mut reversed: Vec<RankedHit> = Vec::new();
    while rest.len() > 0
        invariant
            hit_views(reversed@) + hit_views(rest@).reverse() == all.reverse(),
        decreases rest@.len(),
    {
        let ghost before_rest = hit_views(rest@);
        let ghost before_rev = hit_views(reversed@);
        let h = rest.pop().unwrap();
        reversed.push(h);
        assert(hit_views(reversed@) =~= before_rev.push(before_rest.last()));
        assert(before_rest.reverse() =~= seq![before_rest.last()] + hit_views(rest@).reverse());
        assert(hit_views(reversed@) + hit_views(rest@).reverse() =~= before_rev + before_rest.reverse());
    }
    assert(hit_views(reversed@) =~= all.reverse());
    let mut k: usize = 0;
    while reversed.len() > 0
        invariant
            k + reversed@.len() == all.len(),
            all.len() == total,
            hit_views(reversed@) == all.skip(k as int).reverse(),
            hit_views(kept@) == positive_hits(all.take(k as int)),
        decreases reversed@.len(),
    {
        let ghost before_rev = hit_views(reversed@);
        let h = reversed.pop().unwrap();
        proof {
            assert(h@ == all.skip(k as int).reverse().last());
            assert(all.skip(k as int).reverse().last() == all[k as int]);
            assert(hit_views(reversed@) =~= before_rev.drop_last());
            assert(all.skip(k + 1).reverse() =~= all.skip(k as int).reverse().drop_last());
            assert(all.take(k + 1).drop_last() =~= all.take(k as int));
            reveal(Seq::filter);
        }
        let ghost before_kept = hit_views(kept@);
        if h.lexical_key > ZERO_SCORE_KEY || h.vector_key > ZERO_SCORE_KEY {
            kept.push(h);
            assert(hit_views(kept@) =~= before_kept.push(all[k as int]));
        }
        k = k + 1;
    }
    assert(all.take(all.len() as int) =~= all);
    kept
}

} // verus!

verus! {

/// Merging a row keeps hits for distinct chunks.
proof fn lemma_merge_row_distinct(hits: Seq<HitView>, row: RowView, channel: Channel, rank: usize)
    requires
        distinct_chunks(hits),
    ensures
        distinct_chunks(merge_row(hits, row, channel, rank)),
{
    lemma_position_of(hits, row.chunk_id);
}

proof fn lemma_merge_rows_distinct(hits: Seq<HitView>, rows: Seq<RowView>, channel: Channel)
    requires
        distinct_chunks(hits),
    ensures
        distinct_chunks(merge_rows(hits, rows, channel)),
    decreases rows.len(),
{
    if rows.len() > 0 {
        lemma_merge_rows_distinct(hits, rows.drop_last(), channel);
        lemma_merge_row_distinct(merge_rows(hits, rows.drop_last(), channel), rows.last(), channel, (rows.len() - 1) as usize);
    }
}

proof fn lemma_filter_distinct(hits: Seq<HitView>)
    requires
        distinct_chunks(hits),
    ensures
        distinct_chunks(positive_hits(hits)),
    decreases hits.len(),
{
    reveal(Seq::filter);
    if hits.len() > 0 {
        lemma_filter_distinct(hits.drop_last());
        let prev = positive_hits(hits.drop_last());
        if has_positive_score(hits.last()) {
            assert forall|i: int| 0 <= i < prev.len() implies prev[i].chunk_id != hits.last().chunk_id by {
                let f = |h: HitView| has_positive_score(h);
                assert(hits.drop_last().filter(f).contains(prev[i]));
                hits.drop_last().lemma_filter_contains_rev(f, prev[i]);
                let j = choose|j: int| 0 <= j < hits.drop_last().len() && hits.drop_last()[j] == prev[i];
                assert(hits[j] == prev[i]);
            }
            assert(positive_hits(hits) =~= prev.push(hits.last()));
        } else {
            assert(positive_hits(hits) =~= prev);
        }
    }
}

/// Rank fusion yields at most one hit per chunk.
pub proof fn lemma_merged_hits_distinct(lexical: Seq<RowView>, literal: Seq<RowView>, vector: Seq<RowView>)
    ensures
        distinct_chunks(merged_hits(lexical, literal, vector)),
{
    let e = Seq::<HitView>::empty();
    lemma_merge_rows_distinct(e, lexical, Channel::Lexical);
    let a = merge_rows(e, lexical, Channel::Lexical);
    lemma_merge_rows_distinct(a, literal, Channel::Literal);
    let b = merge_rows(a, literal, Channel::Literal);
    lemma_merge_rows_distinct(b, vector, Channel::Vector);
    lemma_filter_distinct(merge_rows(b, vector, Channel::Vector));
}

/// Every fused hit keeps a positive lexical or vector score.
pub proof fn lemma_merged_hits_positive(lexical: Seq<RowView>, literal: Seq<RowView>, vector: Seq<RowView>, i: int)
    requires
        0 <= i < merged_hits(lexical, literal, vector).len(),
    ensures
        has_positive_score(merged_hits(lexical, literal, vector)[i]),
{
    let all = merge_rows(merge_rows(merge_rows(Seq::empty(), lexical, Channel::Lexical), literal, Channel::Literal), vector, Channel::Vector);
    let f = |h: HitView| has_positive_score(h);
    all.lemma_filter_pred(f, i);
}

/// Whether some hit for chunk `id` has a lexical score of at least `k`.
pub open spec fn lexical_at_least(hits: Seq<HitView>, id: i64, k: u64) -> bool {
    exists|i: int| 0 <= i < hits.len() && hits[i].chunk_id == id && hits[i].lexical_key >= k
}

/// Whether some hit for chunk `id` has the vector score `k`.
pub open spec fn vector_score_is(hits: Seq<HitView>, id: i64, k: u64) -> bool {
    exists|i: int| 0 <= i < hits.len() && hits[i].chunk_id == id && hits[i].vector_key == k
}

proof fn lemma_merge_row_keeps_lexical(hits: Seq<HitView>, row: RowView, channel: Channel, rank: usize, id: i64, k: u64)
    requires
        lexical_at_least(hits, id, k),
    ensures
        lexical_at_least(merge_row(hits, row, channel, rank), id, k),
{
    let i = choose|i: int| 0 <= i < hits.len() && hits[i].chunk_id == id && hits[i].lexical_key >= k;
    lemma_position_of(hits, row.chunk_id);
    let n = merge_row(hits, row, channel, rank);
    match position_of(hits, row.chunk_id) {
        Some(p) => {
            assert(n[i].chunk_id == id && n[i].lexical_key >= k);
        },
        None => {
            assert(n[i] == hits[i]);
        },
    }
}

proof fn lemma_merge_row_adds_lexical(hits: Seq<HitView>, row: RowView, channel: Channel, rank: usize)
    requires
        channel != Channel::Vector,
    ensures
        lexical_at_least(merge_row(hits, row, channel, rank), row.chunk_id, row.lexical_key),
{
    lemma_position_of(hits, row.chunk_id);
    let n = merge_row(hits, row, channel, rank);
    match position_of(hits, row.chunk_id) {
        Some(p) => {
            assert(n[p].chunk_id == row.chunk_id && n[p].lexical_key >= row.lexical_key);
        },
        None => {
            assert(n[hits.len() as int].chunk_id == row.chunk_id);
        },
    }
}

proof fn lemma_merge_rows_keeps_lexical(hits: Seq<HitView>, rows: Seq<RowView>, channel: Channel, id: i64, k: u64)
    requires
        lexical_at_least(hits, id, k),
    ensures
        lexical_at_least(merge_rows(hits, rows, channel), id, k),
    decreases rows.len(),
{
    if rows.len() > 0 {
        lemma_merge_rows_keeps_lexical(hits, rows.drop_last(), channel, id, k);
        lemma_merge_row_keeps_lexical(
            merge_rows(hits, rows.drop_last(), channel),
            rows.last(),
            channel,
            (rows.len() - 1) as usize,
            id,
            k,
        );
    }
}

proof fn lemma_merge_rows_adds_lexical(hits: Seq<HitView>, rows: Seq<RowView>, channel: Channel, j: int)
    requires
        channel != Channel::Vector,
        0 <= j < rows.len(),
    ensures
        lexical_at_least(merge_rows(hits, rows, channel), rows[j].chunk_id, rows[j].lexical_key),
    decreases rows.len(),
{
    let prev = merge_rows(hits, rows.drop_last(), channel);
    let rank = (rows.len() - 1) as usize;
    if j == rows.len() - 1 {
        lemma_merge_row_adds_lexical(prev, rows.last(), channel, rank);
    } else {
        lemma_merge_rows_adds_lexical(hits, rows.drop_last(), channel, j);
        assert(rows.drop_last()[j] == rows[j]);
        lemma_merge_row_keeps_lexical(prev, rows.last(), channel, rank, rows[j].chunk_id, rows[j].lexical_key);
    }
}

proof fn lemma_merge_row_keeps_vector(hits: Seq<HitView>, row: RowView, channel: Channel, rank: usize, id: i64, k: u64)
    requires
        vector_score_is(hits, id, k),
        channel == Channel::Vector ==> row.chunk_id != id,
    ensures
        vector_score_is(merge_row(hits, row, channel, rank), id, k),
{
    let i = choose|i: int| 0 <= i < hits.len() && hits[i].chunk_id == id && hits[i].vector_key == k;
    lemma_position_of(hits, row.chunk_id);
    let n = merge_row(hits, row, channel, rank);
    match position_of(hits, row.chunk_id) {
        Some(p) => {
            assert(n[i].chunk_id == id && n[i].vector_key == k);
        },
        None => {
            assert(n[i] == hits[i]);
        },
    }
}

proof fn lemma_merge_rows_keeps_vector(hits: Seq<HitView>, rows: Seq<RowView>, channel: Channel, id: i64, k: u64)
    requires
        vector_score_is(hits, id, k),
        channel == Channel::Vector ==> forall|m: int| 0 <= m < rows.len() ==> rows[m].chunk_id != id,
    ensures
        vector_score_is(merge_rows(hits, rows, channel), id, k),
    decreases rows.len(),
{
    if rows.len() > 0 {
        assert forall|m: int| 0 <= m < rows.drop_last().len() implies rows.drop_last()[m] == rows[m] by {}
        lemma_merge_rows_keeps_vector(hits, rows.drop_last(), channel, id, k);
        lemma_merge_row_keeps_vector(
            merge_rows(hits, rows.drop_last(), channel),
            rows.last(),
            channel,
            (rows.len() - 1) as usize,
            id,
            k,
        );
    }
}

proof fn lemma_merge_rows_adds_vector(hits: Seq<HitView>, rows: Seq<RowView>, j: int)
    requires
        0 <= j < rows.len(),
        forall|m: int| j < m < rows.len() ==> rows[m].chunk_id != rows[j].chunk_id,
    ensures
        vector_score_is(merge_rows(hits, rows, Channel::Vector), rows[j].chunk_id, rows[j].vector_key),
    decreases rows.len(),
{
    let prev = merge_rows(hits, rows.drop_last(), Channel::Vector);
    let rank = (rows.len() - 1) as usize;
    if j == rows.len() - 1 {
        lemma_position_of(prev, rows.last().chunk_id);
        let n = merge_row(prev, rows.last(), Channel::Vector, rank);
        match position_of(prev, rows.last().chunk_id) {
            Some(p) => {
                assert(n[p].chunk_id == rows[j].chunk_id && n[p].vector_key == rows[j].vector_key);
            },
            None => {
                assert(n[prev.len() as int].chunk_id == rows[j].chunk_id);
            },
        }
    } else {
        assert(rows.drop_last()[j] == rows[j]);
        lemma_merge_rows_adds_vector(hits, rows.drop_last(), j);
        lemma_merge_row_keeps_vector(prev, rows.last(), Channel::Vector, rank, rows[j].chunk_id, rows[j].vector_key);
    }
}

proof fn lemma_positive_surfaces(all: Seq<HitView>, i: int)
    requires
        0 <= i < all.len(),
        has_positive_score(all[i]),
    ensures
        exists|t: int| 0 <= t < positive_hits(all).len() && positive_hits(all)[t] == all[i],
{
    let f = |h: HitView| has_positive_score(h);
    all.lemma_filter_contains(f, i);
    assert(positive_hits(all) == all.filter(f));
    assert(positive_hits(all).contains(all[i]));
}

/// Whether some row reports chunk `id`.
pub open spec fn reports_chunk(rows: Seq<RowView>, id: i64) -> bool {
    exists|j: int| 0 <= j < rows.len() && #[trigger] rows[j].chunk_id == id
}

/// Whether some hit is for chunk `id`.
pub open spec fn has_hit_for(hits: Seq<HitView>, id: i64) -> bool {
    exists|k: int| 0 <= k < hits.len() && #[trigger] hits[k].chunk_id == id
}

proof fn lemma_merge_rows_ids(hits: Seq<HitView>, rows: Seq<RowView>, channel: Channel, i: int)
    requires
        0 <= i < merge_rows(hits, rows, channel).len(),
    ensures
        has_hit_for(hits, merge_rows(hits, rows, channel)[i].chunk_id) || reports_chunk(
            rows,
            merge_rows(hits, rows, channel)[i].chunk_id,
        ),
    decreases rows.len(),
{
    if rows.len() > 0 {
        let prev = merge_rows(hits, rows.drop_last(), channel);
        let row = rows.last();
        let rank = (rows.len() - 1) as usize;
        let m = merge_rows(hits, rows, channel);
        lemma_position_of(prev, row.chunk_id);
        assert(rows[rows.len() - 1].chunk_id == row.chunk_id);
        match position_of(prev, row.chunk_id) {
            Some(p) => {
                assert(m == prev.update(p, absorb(prev[p], row, channel, rank)));
                if i == p {
                    assert(m[i].chunk_id == row.chunk_id);
                } else {
                    assert(m[i] == prev[i]);
                    lemma_merge_rows_ids(hits, rows.drop_last(), channel, i);
                    if reports_chunk(rows.drop_last(), prev[i].chunk_id) {
                        let j = choose|j: int| 0 <= j < rows.drop_last().len() && #[trigger] rows.drop_last()[j].chunk_id == prev[i].chunk_id;
                        assert(rows[j] == rows.drop_last()[j]);
                    }
                }
            },
            None => {
                assert(m == prev.push(fresh_hit(row, channel, rank)));
                if i < prev.len() {
                    assert(m[i] == prev[i]);
                    lemma_merge_rows_ids(hits, rows.drop_last(), channel, i);
                    if reports_chunk(rows.drop_last(), prev[i].chunk_id) {
                        let j = choose|j: int| 0 <= j < rows.drop_last().len() && #[trigger] rows.drop_last()[j].chunk_id == prev[i].chunk_id;
                        assert(rows[j] == rows.drop_last()[j]);
                    }
                } else {
                    assert(m[i].chunk_id == row.chunk_id);
                }
            },
        }
    }
}

/// The position of the last row for chunk `id` among `rows`, if any.
pub open spec fn last_position(rows: Seq<RowView>, id: i64) -> Option<int>
    decreases rows.len(),
{
    if rows.len() == 0 {
        None
    } else if rows.last().chunk_id == id {
        Some(rows.len() - 1)
    } else {
        last_position(rows.drop_last(), id)
    }
}

/// The rank a hit has in `channel`.
pub open spec fn rank_in(h: HitView, channel: Channel) -> Option<usize> {
    match channel {
        Channel::Lexical => h.lexical_rank,
        Channel::Literal => h.literal_rank,
        Channel::Vector => h.vector_rank,
    }
}

proof fn lemma_last_position(rows: Seq<RowView>, id: i64)
    ensures
        last_position(rows, id) matches Some(p) ==> 0 <= p < rows.len() && rows[p].chunk_id == id && forall|q: int|
            p < q < rows.len() ==> #[trigger] rows[q].chunk_id != id,
        last_position(rows, id) is None <==> !reports_chunk(rows, id),
    decreases rows.len(),
{
    if rows.len() > 0 {
        lemma_last_position(rows.drop_last(), id);
        if rows.last().chunk_id != id {
            if reports_chunk(rows, id) {
                let j = choose|j: int| 0 <= j < rows.len() && #[trigger] rows[j].chunk_id == id;
                assert(j < rows.len() - 1);
                assert(rows.drop_last()[j] == rows[j]);
            }
            if reports_chunk(rows.drop_last(), id) {
                let j = choose|j: int| 0 <= j < rows.drop_last().len() && #[trigger] rows.drop_last()[j].chunk_id == id;
                assert(rows[j] == rows.drop_last()[j]);
            }
            if let Some(p) = last_position(rows.drop_last(), id) {
                assert(rows[p] == rows.drop_last()[p]);
                assert forall|q: int| p < q < rows.len() implies #[trigger] rows[q].chunk_id != id by {
                    if q < rows.len() - 1 {
                        assert(rows[q] == rows.drop_last()[q]);
                    }
                }
            }
        } else {
            assert(rows[rows.len() - 1].chunk_id == id);
        }
    }
}

/// Merging one channel's rows keeps existing hits in place and appends hits for new chunks;
/// each channel rank becomes the position of the chunk's last row in that channel, and the
/// other channels' ranks stay (none for a new hit).
proof fn lemma_merge_rows_ranks(hits: Seq<HitView>, rows: Seq<RowView>, channel: Channel)
    requires
        distinct_chunks(hits),
    ensures
        merge_rows(hits, rows, channel).len() >= hits.len(),
        forall|i: int| 0 <= i < hits.len() ==> (#[trigger] merge_rows(hits, rows, channel)[i]).chunk_id == hits[i].chunk_id,
        forall|i: int| hits.len() <= i < merge_rows(hits, rows, channel).len() ==> !has_hit_for(
            hits,
            (#[trigger] merge_rows(hits, rows, channel)[i]).chunk_id,
        ),
        forall|i: int| 0 <= i < merge_rows(hits, rows, channel).len() ==> {
            let h = #[trigger] merge_rows(hits, rows, channel)[i];
            &&& rank_in(h, channel) == match last_position(rows, h.chunk_id) {
                Some(p) => Some(p as usize),
                None => rank_in(hits[i], channel),
            }
            &&& (last_position(rows, h.chunk_id) is None ==> i < hits.len())
            &&& forall|c: Channel| c != channel ==> #[trigger] rank_in(h, c) == (if i < hits.len() {
                rank_in(hits[i], c)
            } else {
                None
            })
        },
    decreases rows.len(),
{
    let m = merge_rows(hits, rows, channel);
    if rows.len() > 0 {
        let front = rows.drop_last();
        let row = rows.last();
        let n = rows.len() - 1;
        lemma_merge_rows_ranks(hits, front, channel);
        lemma_merge_rows_distinct(hits, front, channel);
        let prev = merge_rows(hits, front, channel);
        lemma_position_of(prev, row.chunk_id);
        assert(rows[n] == row);
        assert forall|id: i64| id != row.chunk_id implies #[trigger] last_position(rows, id) == last_position(front, id) by {}
        assert(last_position(rows, row.chunk_id) == Some(n));
        match position_of(prev, row.chunk_id) {
            Some(p) => {
                assert(m == prev.update(p, absorb(prev[p], row, channel, n as usize)));
                assert forall|i: int| 0 <= i < hits.len() implies (#[trigger] m[i]).chunk_id == hits[i].chunk_id by {
                    assert(m[i].chunk_id == prev[i].chunk_id);
                }
                assert forall|i: int| hits.len() <= i < m.len() implies !has_hit_for(hits, (#[trigger] m[i]).chunk_id) by {
                    assert(m[i].chunk_id == prev[i].chunk_id);
                }
                assert forall|i: int| 0 <= i < m.len() implies {
                    let h = #[trigger] m[i];
                    &&& rank_in(h, channel) == match last_position(rows, h.chunk_id) {
                        Some(q) => Some(q as usize),
                        None => rank_in(hits[i], channel),
                    }
                    &&& (last_position(rows, h.chunk_id) is None ==> i < hits.len())
                    &&& forall|c: Channel| c != channel ==> #[trigger] rank_in(h, c) == (if i < hits.len() {
                        rank_in(hits[i], c)
                    } else {
                        None
                    })
                } by {
                    if i == p {
                        assert forall|c: Channel| c != channel implies #[trigger] rank_in(m[i], c) == rank_in(prev[i], c) by {}
                    } else {
                        assert(m[i] == prev[i]);
                        assert(prev[i].chunk_id != prev[p].chunk_id);
                    }
                }
            },
            None => {
                assert(m == prev.push(fresh_hit(row, channel, n as usize)));
                assert forall|i: int| 0 <= i < hits.len() implies (#[trigger] m[i]).chunk_id == hits[i].chunk_id by {
                    assert(m[i] == prev[i]);
                }
                assert forall|i: int| hits.len() <= i < m.len() implies !has_hit_for(hits, (#[trigger] m[i]).chunk_id) by {
                    if i < prev.len() {
                        assert(m[i] == prev[i]);
                    } else {
                        if has_hit_for(hits, row.chunk_id) {
                            let k = choose|k: int| 0 <= k < hits.len() && #[trigger] hits[k].chunk_id == row.chunk_id;
                            assert(prev[k].chunk_id == row.chunk_id);
                        }
                    }
                }
                assert forall|i: int| 0 <= i < m.len() implies {
                    let h = #[trigger] m[i];
                    &&& rank_in(h, channel) == match last_position(rows, h.chunk_id) {
                        Some(q) => Some(q as usize),
                        None => rank_in(hits[i], channel),
                    }
                    &&& (last_position(rows, h.chunk_id) is None ==> i < hits.len())
                    &&& forall|c: Channel| c != channel ==> #[trigger] rank_in(h, c) == (if i < hits.len() {
                        rank_in(hits[i], c)
                    } else {
                        None
                    })
                } by {
                    if i < prev.len() {
                        assert(m[i] == prev[i]);
                        assert(prev[i].chunk_id != row.chunk_id);
                    } else {
                        assert(m[i] == fresh_hit(row, channel, n as usize));
                        assert forall|c: Channel| c != channel implies #[trigger] rank_in(m[i], c) is None by {}
                    }
                }
            },
        }
    }
}

/// Whether `h`'s lexical score is at least that of every row for its chunk in `rows` and of
/// its earlier hit `old`, and is either `old`'s or some row's.
pub open spec fn lexical_from(h: HitView, old: Option<HitView>, rows: Seq<RowView>) -> bool {
    &&& forall|j: int| 0 <= j < rows.len() && rows[j].chunk_id == h.chunk_id ==> h.lexical_key >= #[trigger] rows[j].lexical_key
    &&& (old matches Some(o) ==> h.lexical_key >= o.lexical_key)
    &&& (old matches Some(o) && h.lexical_key == o.lexical_key) || exists|j: int|
        0 <= j < rows.len() && #[trigger] rows[j].chunk_id == h.chunk_id && h.lexical_key == rows[j].lexical_key
}

/// The hit at position `i` before a merge, if there was one.
pub open spec fn earlier_hit(hits: Seq<HitView>, i: int) -> Option<HitView> {
    if 0 <= i < hits.len() {
        Some(hits[i])
    } else {
        None
    }
}

proof fn lemma_merge_rows_cover(hits: Seq<HitView>, rows: Seq<RowView>, channel: Channel)
    ensures
        forall|j: int| 0 <= j < rows.len() ==> has_hit_for(merge_rows(hits, rows, channel), #[trigger] rows[j].chunk_id),
    decreases rows.len(),
{
    let m = merge_rows(hits, rows, channel);
    if rows.len() > 0 {
        let front = rows.drop_last();
        let row = rows.last();
        let n = rows.len() - 1;
        lemma_merge_rows_cover(hits, front, channel);
        let prev = merge_rows(hits, front, channel);
        lemma_position_of(prev, row.chunk_id);
        assert forall|j: int| 0 <= j < rows.len() implies has_hit_for(m, #[trigger] rows[j].chunk_id) by {
            if j < n {
                assert(rows[j] == front[j]);
                let k = choose|k: int| 0 <= k < prev.len() && #[trigger] prev[k].chunk_id == front[j].chunk_id;
                assert(m[k].chunk_id == prev[k].chunk_id);
            } else {
                match position_of(prev, row.chunk_id) {
                    Some(p) => assert(m[p].chunk_id == row.chunk_id),
                    None => assert(m[prev.len() as int].chunk_id == row.chunk_id),
                }
            }
        }
    }
}

/// Merging lexical or literal rows: each hit's lexical score is the largest of its earlier
/// one and its chunk's rows.
proof fn lemma_merge_rows_lexical(hits: Seq<HitView>, rows: Seq<RowView>, channel: Channel)
    requires
        distinct_chunks(hits),
        channel != Channel::Vector,
    ensures
        forall|i: int| 0 <= i < merge_rows(hits, rows, channel).len() ==> lexical_from(
            #[trigger] merge_rows(hits, rows, channel)[i],
            earlier_hit(hits, i),
            rows,
        ),
    decreases rows.len(),
{
    let m = merge_rows(hits, rows, channel);
    lemma_merge_rows_ranks(hits, rows, channel);
    if rows.len() > 0 {
        let front = rows.drop_last();
        let row = rows.last();
        let n = rows.len() - 1;
        lemma_merge_rows_lexical(hits, front, channel);
        lemma_merge_rows_ranks(hits, front, channel);
        lemma_merge_rows_distinct(hits, front, channel);
        lemma_merge_rows_cover(hits, front, channel);
        let prev = merge_rows(hits, front, channel);
        lemma_position_of(prev, row.chunk_id);
        assert(rows[n] == row);
        assert forall|i: int| 0 <= i < m.len() implies lexical_from(#[trigger] m[i], earlier_hit(hits, i), rows) by {
            let h = m[i];
            if i < prev.len() {
                let o = prev[i];
                assert(lexical_from(o, earlier_hit(hits, i), front));
                if h == o {
                    if o.chunk_id == row.chunk_id {
                        // the row was absorbed elsewhere only if its chunk had another position
                        assert(position_of(prev, row.chunk_id) == Some(i));
                    }
                    assert forall|j: int| 0 <= j < rows.len() && rows[j].chunk_id == h.chunk_id implies h.lexical_key >= #[trigger] rows[j].lexical_key by {
                        if j < n {
                            assert(rows[j] == front[j]);
                        } else {
                            match position_of(prev, row.chunk_id) {
                                Some(p) => {
                                    if p != i {
                                        assert(prev[p].chunk_id == row.chunk_id);
                                        assert(prev[i].chunk_id != prev[p].chunk_id);
                                    } else {
                                        assert(m[i] == absorb(prev[i], row, channel, n as usize));
                                    }
                                },
                                None => {},
                            }
                        }
                    }
                    if !(earlier_hit(hits, i) matches Some(e) && h.lexical_key == e.lexical_key) {
                        let j = choose|j: int| 0 <= j < front.len() && #[trigger] front[j].chunk_id == o.chunk_id && o.lexical_key == front[j].lexical_key;
                        assert(rows[j] == front[j]);
                    }
                } else {
                    assert(position_of(prev, row.chunk_id) == Some(i));
                    assert(h == absorb(o, row, channel, n as usize));
                    assert(o.chunk_id == row.chunk_id);
                    assert forall|j: int| 0 <= j < rows.len() && rows[j].chunk_id == h.chunk_id implies h.lexical_key >= #[trigger] rows[j].lexical_key by {
                        if j < n {
                            assert(rows[j] == front[j]);
                        }
                    }
                    if !(earlier_hit(hits, i) matches Some(e) && h.lexical_key == e.lexical_key) {
                        if h.lexical_key == row.lexical_key {
                            assert(rows[n].chunk_id == h.chunk_id);
                        } else {
                            assert(h.lexical_key == o.lexical_key);
                            let j = choose|j: int| 0 <= j < front.len() && #[trigger] front[j].chunk_id == o.chunk_id && o.lexical_key == front[j].lexical_key;
                            assert(rows[j] == front[j]);
                        }
                    }
                }
            } else {
                assert(position_of(prev, row.chunk_id) is None);
                assert(m == prev.push(fresh_hit(row, channel, n as usize)));
                assert(h == fresh_hit(row, channel, n as usize));
                assert(i >= hits.len());
                assert(rows[n].chunk_id == h.chunk_id);
                assert forall|j: int| 0 <= j < rows.len() && rows[j].chunk_id == h.chunk_id implies h.lexical_key >= #[trigger] rows[j].lexical_key by {
                    if j < n {
                        assert(rows[j] == front[j]);
                        assert(has_hit_for(prev, front[j].chunk_id));
                        let k = choose|k: int| 0 <= k < prev.len() && #[trigger] prev[k].chunk_id == front[j].chunk_id;
                        assert(false);
                    }
                }
            }
        }
    }
}

/// Whether `h`'s vector score comes from the last row for its chunk in `rows`, or, with no such
/// row, is its earlier hit's.
pub open spec fn vector_from(h: HitView, old: Option<HitView>, rows: Seq<RowView>) -> bool {
    match last_position(rows, h.chunk_id) {
        Some(p) => h.vector_key == rows[p].vector_key,
        None => old matches Some(o) && h.vector_key == o.vector_key,
    }
}

/// Whether `h` keeps score `key` of its earlier hit, or, being new, takes it from some row for
/// its chunk in `rows`.
pub open spec fn kept_or_first(h: HitView, old: Option<HitView>, rows: Seq<RowView>, lexical: bool) -> bool {
    let k = if lexical { h.lexical_key } else { h.vector_key };
    match old {
        Some(o) => k == (if lexical { o.lexical_key } else { o.vector_key }),
        None => exists|j: int|
            0 <= j < rows.len() && #[trigger] rows[j].chunk_id == h.chunk_id && k == (if lexical {
                rows[j].lexical_key
            } else {
                rows[j].vector_key
            }),
    }
}

/// Merging one channel's rows: vector rows set the vector score (the last row counts) and
/// leave the lexical score as it was; lexical and literal rows leave the vector score as it
/// was; a new hit takes the untouched score from its chunk's row.
proof fn lemma_merge_rows_other_scores(hits: Seq<HitView>, rows: Seq<RowView>, channel: Channel)
    requires
        distinct_chunks(hits),
    ensures
        forall|i: int| 0 <= i < merge_rows(hits, rows, channel).len() ==> ({
            let h = #[trigger] merge_rows(hits, rows, channel)[i];
            &&& channel == Channel::Vector ==> vector_from(h, earlier_hit(hits, i), rows) && kept_or_first(h, earlier_hit(hits, i), rows, true)
            &&& channel != Channel::Vector ==> kept_or_first(h, earlier_hit(hits, i), rows, false)
        }),
    decreases rows.len(),
{
    let m = merge_rows(hits, rows, channel);
    lemma_merge_rows_ranks(hits, rows, channel);
    if rows.len() > 0 {
        let front = rows.drop_last();
        let row = rows.last();
        let n = rows.len() - 1;
        lemma_merge_rows_other_scores(hits, front, channel);
        lemma_merge_rows_ranks(hits, front, channel);
        lemma_merge_rows_distinct(hits, front, channel);
        let prev = merge_rows(hits, front, channel);
        lemma_position_of(prev, row.chunk_id);
        assert(rows[n] == row);
        assert forall|id: i64| id != row.chunk_id implies #[trigger] last_position(rows, id) == last_position(front, id) by {}
        assert(last_position(rows, row.chunk_id) == Some(n));
        assert forall|i: int| 0 <= i < m.len() implies ({
            let h = #[trigger] m[i];
            &&& channel == Channel::Vector ==> vector_from(h, earlier_hit(hits, i), rows) && kept_or_first(h, earlier_hit(hits, i), rows, true)
            &&& channel != Channel::Vector ==> kept_or_first(h, earlier_hit(hits, i), rows, false)
        }) by {
            let h = m[i];
            let e = earlier_hit(hits, i);
            if i < prev.len() {
                let o = prev[i];
                assert(vector_from(o, e, front) || channel != Channel::Vector);
                if e is None {
                    if channel == Channel::Vector {
                        let j = choose|j: int| 0 <= j < front.len() && #[trigger] front[j].chunk_id == o.chunk_id && o.lexical_key == front[j].lexical_key;
                        assert(rows[j] == front[j]);
                    } else {
                        let j = choose|j: int| 0 <= j < front.len() && #[trigger] front[j].chunk_id == o.chunk_id && o.vector_key == front[j].vector_key;
                        assert(rows[j] == front[j]);
                    }
                }
                if position_of(prev, row.chunk_id) == Some(i) {
                    assert(h == absorb(o, row, channel, n as usize));
                    assert(o.chunk_id == row.chunk_id);
                } else {
                    assert(h == o);
                    assert(o.chunk_id != row.chunk_id) by {
                        match position_of(prev, row.chunk_id) {
                            Some(p) => assert(prev[p].chunk_id != prev[i].chunk_id),
                            None => {},
                        }
                    }
                    if channel == Channel::Vector {
                        lemma_last_position(front, o.chunk_id);
                        if let Some(q) = last_position(front, o.chunk_id) {
                            assert(rows[q] == front[q]);
                        }
                    }
                }
            } else {
                assert(position_of(prev, row.chunk_id) is None);
                assert(h == fresh_hit(row, channel, n as usize));
                assert(e is None);
                assert(rows[n].chunk_id == h.chunk_id);
            }
        }
    }
}

/// A position as a channel rank.
pub open spec fn as_rank(p: Option<int>) -> Option<usize> {
    match p {
        Some(q) => Some(q as usize),
        None => None,
    }
}

/// What rank fusion records for each fused hit, chunk by chunk: in each channel, the rank is
/// the position of the chunk's last row there (none if the channel did not report it); the
/// lexical score is the largest of the chunk's lexical and literal rows (a chunk only the
/// vector channel reported keeps the lexical score of one of its vector rows); the vector
/// score is that of the chunk's last vector row (a chunk the vector channel did not report
/// keeps the vector score of one of its lexical or literal rows).
pub proof fn lemma_fused_hit_fields(lexical: Seq<RowView>, literal: Seq<RowView>, vector: Seq<RowView>, t: int)
    requires
        0 <= t < merged_hits(lexical, literal, vector).len(),
    ensures
        ({
            let h = merged_hits(lexical, literal, vector)[t];
            let id = h.chunk_id;
            &&& h.lexical_rank == as_rank(last_position(lexical, id))
            &&& h.literal_rank == as_rank(last_position(literal, id))
            &&& h.vector_rank == as_rank(last_position(vector, id))
            &&& forall|j: int| 0 <= j < lexical.len() && lexical[j].chunk_id == id ==> h.lexical_key >= #[trigger] lexical[j].lexical_key
            &&& forall|j: int| 0 <= j < literal.len() && literal[j].chunk_id == id ==> h.lexical_key >= #[trigger] literal[j].lexical_key
            &&& (reports_chunk(lexical, id) || reports_chunk(literal, id)) ==> (exists|j: int|
                0 <= j < lexical.len() && #[trigger] lexical[j].chunk_id == id && h.lexical_key == lexical[j].lexical_key)
                || (exists|j: int| 0 <= j < literal.len() && #[trigger] literal[j].chunk_id == id && h.lexical_key == literal[j].lexical_key)
            &&& !(reports_chunk(lexical, id) || reports_chunk(literal, id)) ==> exists|j: int|
                0 <= j < vector.len() && #[trigger] vector[j].chunk_id == id && h.lexical_key == vector[j].lexical_key
            &&& (last_position(vector, id) matches Some(p) ==> h.vector_key == vector[p].vector_key)
            &&& !reports_chunk(vector, id) ==> (exists|j: int|
                0 <= j < lexical.len() && #[trigger] lexical[j].chunk_id == id && h.vector_key == lexical[j].vector_key)
                || (exists|j: int| 0 <= j < literal.len() && #[trigger] literal[j].chunk_id == id && h.vector_key == literal[j].vector_key)
        }),
{
    let e = Seq::<HitView>::empty();
    let a = merge_rows(e, lexical, Channel::Lexical);
    let b = merge_rows(a, literal, Channel::Literal);
    let c = merge_rows(b, vector, Channel::Vector);
    lemma_merge_rows_distinct(e, lexical, Channel::Lexical);
    lemma_merge_rows_distinct(a, literal, Channel::Literal);
    lemma_merge_rows_ranks(e, lexical, Channel::Lexical);
    lemma_merge_rows_ranks(a, literal, Channel::Literal);
    lemma_merge_rows_ranks(b, vector, Channel::Vector);
    lemma_merge_rows_lexical(e, lexical, Channel::Lexical);
    lemma_merge_rows_lexical(a, literal, Channel::Literal);
    lemma_merge_rows_other_scores(e, lexical, Channel::Lexical);
    lemma_merge_rows_other_scores(a, literal, Channel::Literal);
    lemma_merge_rows_other_scores(b, vector, Channel::Vector);
    lemma_merge_rows_cover(e, lexical, Channel::Lexical);
    lemma_merge_rows_cover(a, literal, Channel::Literal);
    let h = merged_hits(lexical, literal, vector)[t];
    let id = h.chunk_id;
    lemma_last_position(lexical, id);
    lemma_last_position(literal, id);
    lemma_last_position(vector, id);
    let f = |x: HitView| has_positive_score(x);
    assert(merged_hits(lexical, literal, vector) == c.filter(f));
    assert(c.filter(f).contains(h));
    c.lemma_filter_contains_rev(f, h);
    let x = choose|x: int| 0 <= x < c.len() && c[x] == h;
    // the chunk is not in the earlier passes exactly when those channels did not report it
    if x < b.len() {
        assert(b[x].chunk_id == id);
    }
    if x < a.len() {
        assert(a[x].chunk_id == id);
        assert(b[x].chunk_id == id);
    }
    assert(reports_chunk(lexical, id) ==> x < a.len()) by {
        if reports_chunk(lexical, id) && x >= a.len() {
            let j = choose|j: int| 0 <= j < lexical.len() && #[trigger] lexical[j].chunk_id == id;
            assert(has_hit_for(a, lexical[j].chunk_id));
            let k = choose|k: int| 0 <= k < a.len() && #[trigger] a[k].chunk_id == lexical[j].chunk_id;
            assert(b[k].chunk_id == id);
            if x < b.len() {
                assert(!has_hit_for(a, b[x].chunk_id));
            } else {
                assert(!has_hit_for(b, c[x].chunk_id));
                assert(has_hit_for(b, id));
            }
        }
    }
    assert(reports_chunk(literal, id) ==> x < b.len()) by {
        if reports_chunk(literal, id) && x >= b.len() {
            let j = choose|j: int| 0 <= j < literal.len() && #[trigger] literal[j].chunk_id == id;
            assert(has_hit_for(b, literal[j].chunk_id));
            assert(!has_hit_for(b, c[x].chunk_id));
        }
    }
    assert(x < a.len() ==> reports_chunk(lexical, id)) by {
        if x < a.len() {
            assert(last_position(lexical, a[x].chunk_id) is Some);
        }
    }
    assert(a.len() <= x < b.len() ==> reports_chunk(literal, id)) by {
        if a.len() <= x < b.len() {
            assert(last_position(literal, b[x].chunk_id) is Some);
        }
    }
    assert(x >= b.len() ==> reports_chunk(vector, id)) by {
        if x >= b.len() {
            assert(last_position(vector, c[x].chunk_id) is Some);
        }
    }
    // lexical scores
    if x < a.len() {
        assert(lexical_from(a[x], earlier_hit(e, x), lexical));
        assert(lexical_from(b[x], earlier_hit(a, x), literal));
        assert(kept_or_first(c[x], earlier_hit(b, x), vector, true));
        assert(earlier_hit(e, x) is None);
    } else if x < b.len() {
        assert(lexical_from(b[x], earlier_hit(a, x), literal));
        assert(earlier_hit(a, x) is None);
        assert(kept_or_first(c[x], earlier_hit(b, x), vector, true));
    } else {
        assert(earlier_hit(b, x) is None);
        assert(kept_or_first(c[x], earlier_hit(b, x), vector, true));
    }
    // vector scores
    assert(vector_from(c[x], earlier_hit(b, x), vector));
    if !reports_chunk(vector, id) {
        assert(x < b.len());
        assert(kept_or_first(b[x], earlier_hit(a, x), literal, false));
        if x < a.len() {
            assert(kept_or_first(a[x], earlier_hit(e, x), lexical, false));
        }
    }
    // ranks, pass by pass
    let hc = c[x];
    assert(rank_in(hc, Channel::Vector) == match last_position(vector, id) {
        Some(p) => Some(p as usize),
        None => rank_in(b[x], Channel::Vector),
    });
    if x < b.len() {
        let hb = b[x];
        assert(rank_in(hc, Channel::Lexical) == rank_in(hb, Channel::Lexical));
        assert(rank_in(hc, Channel::Literal) == rank_in(hb, Channel::Literal));
        assert(rank_in(hb, Channel::Literal) == match last_position(literal, id) {
            Some(p) => Some(p as usize),
            None => rank_in(a[x], Channel::Literal),
        });
        if x < a.len() {
            let ha = a[x];
            assert(rank_in(hb, Channel::Lexical) == rank_in(ha, Channel::Lexical));
            assert(rank_in(hb, Channel::Vector) == rank_in(ha, Channel::Vector));
            assert(rank_in(ha, Channel::Lexical) == match last_position(lexical, id) {
                Some(p) => Some(p as usize),
                None => rank_in(e[x], Channel::Lexical),
            });
            assert(rank_in(ha, Channel::Literal) is None);
            assert(rank_in(ha, Channel::Vector) is None);
        } else {
            assert(rank_in(hb, Channel::Lexical) is None);
            assert(rank_in(hb, Channel::Vector) is None);
        }
    } else {
        assert(rank_in(hc, Channel::Lexical) is None);
        assert(rank_in(hc, Channel::Literal) is None);
    }
    assert(h.lexical_rank == as_rank(last_position(lexical, id)));
    assert(h.literal_rank == as_rank(last_position(literal, id)));
    assert(h.vector_rank == as_rank(last_position(vector, id)));
    assert(forall|j: int| 0 <= j < lexical.len() && lexical[j].chunk_id == id ==> h.lexical_key >= #[trigger] lexical[j].lexical_key);
    assert(forall|j: int| 0 <= j < literal.len() && literal[j].chunk_id == id ==> h.lexical_key >= #[trigger] literal[j].lexical_key);
}

/// Every hit that `merge_ranked_hits` returns is one of the merged hits (so the per-chunk facts
/// of `lemma_fused_hit_fields` hold of it), and every merged hit is returned.
pub proof fn lemma_ranked_result_is_merged(lexical: Seq<RowView>, literal: Seq<RowView>, vector: Seq<RowView>, r: Seq<HitView>)
    requires
        r.to_multiset() == merged_hits(lexical, literal, vector).to_multiset(),
    ensures
        forall|t: int| 0 <= t < r.len() ==> merged_hits(lexical, literal, vector).contains(#[trigger] r[t]),
        forall|s: int| 0 <= s < merged_hits(lexical, literal, vector).len() ==> r.contains(
            #[trigger] merged_hits(lexical, literal, vector)[s],
        ),
{
    let m = merged_hits(lexical, literal, vector);
    assert forall|t: int| 0 <= t < r.len() implies m.contains(#[trigger] r[t]) by {
        assert(r.contains(r[t]));
        assert(r.to_multiset().count(r[t]) > 0);
    }
    assert forall|s: int| 0 <= s < m.len() implies r.contains(#[trigger] m[s]) by {
        assert(m.contains(m[s]));
        assert(m.to_multiset().count(m[s]) > 0);
    }
}

/// Rank fusion invents no chunk: every fused hit is for a chunk that some channel reported.
pub proof fn lemma_merged_hits_come_from_rows(lexical: Seq<RowView>, literal: Seq<RowView>, vector: Seq<RowView>, i: int)
    requires
        0 <= i < merged_hits(lexical, literal, vector).len(),
    ensures
        ({
            let id = merged_hits(lexical, literal, vector)[i].chunk_id;
            reports_chunk(lexical, id) || reports_chunk(literal, id) || reports_chunk(vector, id)
        }),
{
    let e = Seq::<HitView>::empty();
    let a = merge_rows(e, lexical, Channel::Lexical);
    let b = merge_rows(a, literal, Channel::Literal);
    let c = merge_rows(b, vector, Channel::Vector);
    let h = merged_hits(lexical, literal, vector)[i];
    let f = |x: HitView| has_positive_score(x);
    assert(merged_hits(lexical, literal, vector) == c.filter(f));
    assert(c.filter(f).contains(h));
    c.lemma_filter_contains_rev(f, h);
    let x = choose|x: int| 0 <= x < c.len() && c[x] == h;
    lemma_merge_rows_ids(b, vector, Channel::Vector, x);
    if has_hit_for(b, h.chunk_id) {
        let y = choose|y: int| 0 <= y < b.len() && #[trigger] b[y].chunk_id == h.chunk_id;
        lemma_merge_rows_ids(a, literal, Channel::Literal, y);
        if has_hit_for(a, h.chunk_id) {
            let z = choose|z: int| 0 <= z < a.len() && #[trigger] a[z].chunk_id == h.chunk_id;
            lemma_merge_rows_ids(e, lexical, Channel::Lexical, z);
        }
    }
}

/// A chunk that the lexical channel reports with a positive lexical score is among the fused
/// hits, with a lexical score at least that row's: keyword matches are never lost in rank
/// fusion.
pub proof fn lemma_lexical_row_surfaces(lexical: Seq<RowView>, literal: Seq<RowView>, vector: Seq<RowView>, j: int)
    requires
        0 <= j < lexical.len(),
        lexical[j].lexical_key > ZERO_SCORE_KEY,
    ensures
        exists|t: int|
            0 <= t < merged_hits(lexical, literal, vector).len() && merged_hits(lexical, literal, vector)[t].chunk_id
                == lexical[j].chunk_id && merged_hits(lexical, literal, vector)[t].lexical_key >= lexical[j].lexical_key,
{
    let e = Seq::<HitView>::empty();
    let a = merge_rows(e, lexical, Channel::Lexical);
    let b = merge_rows(a, literal, Channel::Literal);
    let c = merge_rows(b, vector, Channel::Vector);
    let (id, k) = (lexical[j].chunk_id, lexical[j].lexical_key);
    lemma_merge_rows_adds_lexical(e, lexical, Channel::Lexical, j);
    lemma_merge_rows_keeps_lexical(a, literal, Channel::Literal, id, k);
    lemma_merge_rows_keeps_lexical(b, vector, Channel::Vector, id, k);
    let i = choose|i: int| 0 <= i < c.len() && c[i].chunk_id == id && c[i].lexical_key >= k;
    assert(has_positive_score(c[i]));
    lemma_positive_surfaces(c, i);
    assert(merged_hits(lexical, literal, vector) == positive_hits(c));
    let t = choose|t: int| 0 <= t < positive_hits(c).len() && positive_hits(c)[t] == c[i];
    assert(merged_hits(lexical, literal, vector)[t].chunk_id == id);
    assert(merged_hits(lexical, literal, vector)[t].lexical_key >= k);
}

/// A chunk that literal recall reports with a positive lexical score is among the fused hits,
/// with a lexical score at least that row's: exact wording found in the files is never lost in
/// rank fusion.
pub proof fn lemma_literal_row_surfaces(lexical: Seq<RowView>, literal: Seq<RowView>, vector: Seq<RowView>, j: int)
    requires
        0 <= j < literal.len(),
        literal[j].lexical_key > ZERO_SCORE_KEY,
    ensures
        exists|t: int|
            0 <= t < merged_hits(lexical, literal, vector).len() && merged_hits(lexical, literal, vector)[t].chunk_id
                == literal[j].chunk_id && merged_hits(lexical, literal, vector)[t].lexical_key >= literal[j].lexical_key,
{
    let e = Seq::<HitView>::empty();
    let a = merge_rows(e, lexical, Channel::Lexical);
    let b = merge_rows(a, literal, Channel::Literal);
    let c = merge_rows(b, vector, Channel::Vector);
    let (id, k) = (literal[j].chunk_id, literal[j].lexical_key);
    lemma_merge_rows_adds_lexical(a, literal, Channel::Literal, j);
    lemma_merge_rows_keeps_lexical(b, vector, Channel::Vector, id, k);
    let i = choose|i: int| 0 <= i < c.len() && c[i].chunk_id == id && c[i].lexical_key >= k;
    assert(has_positive_score(c[i]));
    lemma_positive_surfaces(c, i);
    assert(merged_hits(lexical, literal, vector) == positive_hits(c));
    let t = choose|t: int| 0 <= t < positive_hits(c).len() && positive_hits(c)[t] == c[i];
    assert(merged_hits(lexical, literal, vector)[t].chunk_id == id);
    assert(merged_hits(lexical, literal, vector)[t].lexical_key >= k);
}

/// A chunk that the vector channel reports with a positive similarity, in its last row for
/// that chunk, is among the fused hits with that similarity: semantic matches surface beside
/// keyword matches.
pub proof fn lemma_vector_row_surfaces(lexical: Seq<RowView>, literal: Seq<RowView>, vector: Seq<RowView>, j: int)
    requires
        0 <= j < vector.len(),
        vector[j].vector_key > ZERO_SCORE_KEY,
        forall|m: int| j < m < vector.len() ==> vector[m].chunk_id != vector[j].chunk_id,
    ensures
        exists|t: int|
            0 <= t < merged_hits(lexical, literal, vector).len() && merged_hits(lexical, literal, vector)[t].chunk_id
                == vector[j].chunk_id && merged_hits(lexical, literal, vector)[t].vector_key == vector[j].vector_key,
{
    let e = Seq::<HitView>::empty();
    let a = merge_rows(e, lexical, Channel::Lexical);
    let b = merge_rows(a, literal, Channel::Literal);
    let c = merge_rows(b, vector, Channel::Vector);
    lemma_merge_rows_adds_vector(b, vector, j);
    let i = choose|i: int| 0 <= i < c.len() && c[i].chunk_id == vector[j].chunk_id && c[i].vector_key == vector[j].vector_key;
    assert(has_positive_score(c[i]));
    lemma_positive_surfaces(c, i);
    assert(merged_hits(lexical, literal, vector) == positive_hits(c));
    let t = choose|t: int| 0 <= t < positive_hits(c).len() && positive_hits(c)[t] == c[i];
    assert(merged_hits(lexical, literal, vector)[t].chunk_id == vector[j].chunk_id);
}

} // verus!

verus! {

/// Whether a hit has a positive vector score.
pub open spec fn is_semantic(h: HitView) -> bool {
    h.vector_key > ZERO_SCORE_KEY
}

/// The source priority of a hit, compared as the tuple (literal match, number of matching
/// channels, full-text match, vector match): literal recall first, then agreement.
pub open spec fn source_priority(h: HitView) -> int {
    let p = if h.partial_text_match { 1int } else { 0int };
    let f = if h.indexed_text_match { 1int } else { 0int };
    let v = if is_semantic(h) { 1int } else { 0int };
    p * 16 + (p + f + v) * 4 + f * 2 + v
}

/// The factor a channel's rank brings to the fused score's denominator: `RRF_K + rank`, or 1
/// when the channel did not rank the hit.
pub open spec fn rank_factor(rank: Option<usize>) -> int {
    match rank {
        Some(r) => RRF_K + r,
        None => 1,
    }
}

/// The fraction `n / d` plus the channel's reciprocal-rank term `1 / (RRF_K + rank)`, when the
/// channel ranked the hit.
pub open spec fn add_rank_term(f: (int, int), rank: Option<usize>) -> (int, int) {
    match rank {
        Some(r) => (f.0 * (RRF_K + r) + f.1, f.1 * (RRF_K + r)),
        None => f,
    }
}

/// The fused score of a hit, the sum of `1 / (RRF_K + rank)` over the channels that ranked
/// it, as (numerator, denominator).
pub open spec fn fused_score(h: HitView) -> (int, int) {
    add_rank_term(add_rank_term(add_rank_term((0, 1), h.lexical_rank), h.literal_rank), h.vector_rank)
}

/// Whether `a`'s fused score is above `b`'s (the fractions compared exactly).
pub open spec fn fused_above(a: HitView, b: HitView) -> bool {
    fused_score(a).0 * fused_score(b).1 > fused_score(b).0 * fused_score(a).1
}

/// Whether `a` and `b` have the same fused score.
pub open spec fn fused_tied(a: HitView, b: HitView) -> bool {
    fused_score(a).0 * fused_score(b).1 == fused_score(b).0 * fused_score(a).1
}

/// Whether hit `a` is listed before hit `b`: higher source priority, then higher fused score,
/// then higher lexical score, then the smaller path.
pub open spec fn ranks_before(a: HitView, b: HitView) -> bool {
    source_priority(a) > source_priority(b) || (source_priority(a) == source_priority(b) && (
    fused_above(a, b) || (fused_tied(a, b) && (a.lexical_key > b.lexical_key || (a.lexical_key
        == b.lexical_key && chars_less(a.rel_path, b.rel_path))))))
}

/// Whether hits are listed in rank order.
pub open spec fn ranked(hits: Seq<HitView>) -> bool {
    forall|i: int, j: int| 0 <= i < j < hits.len() ==> !ranks_before(hits[j], hits[i])
}

/// The rank order is transitive and irreflexive.
pub proof fn lemma_ranks_before(a: HitView, b: HitView, c: HitView)
    ensures
        ranks_before(a, b) && ranks_before(b, c) ==> ranks_before(a, c),
        !ranks_before(a, a),
{
    lemma_fused_denominator_positive(a);
    lemma_fused_denominator_positive(b);
    lemma_fused_denominator_positive(c);
    lemma_cross_transitive(
        fused_score(a).0,
        fused_score(a).1,
        fused_score(b).0,
        fused_score(b).1,
        fused_score(c).0,
        fused_score(c).1,
    );
    crate::text::lemma_chars_less_irreflexive(a.rel_path);
    if chars_less(a.rel_path, b.rel_path) && chars_less(b.rel_path, c.rel_path) {
        crate::text::lemma_chars_less_transitive(a.rel_path, b.rel_path, c.rel_path);
    }
}

/// A fused score's denominator is positive.
proof fn lemma_fused_denominator_positive(h: HitView)
    ensures
        fused_score(h).1 >= 1,
        fused_score(h).1 == rank_factor(h.lexical_rank) * rank_factor(h.literal_rank) * rank_factor(
            h.vector_rank,
        ),
{
    let g1 = rank_factor(h.lexical_rank);
    let g2 = rank_factor(h.literal_rank);
    let g3 = rank_factor(h.vector_rank);
    let f1 = add_rank_term((0, 1), h.lexical_rank);
    let f2 = add_rank_term(f1, h.literal_rank);
    assert(f1.1 == g1);
    assert(f2.1 == g1 * g2);
    assert(fused_score(h).1 == g1 * g2 * g3);
    assert(g1 * g2 * g3 >= 1) by (nonlinear_arith)
        requires
            g1 >= 1,
            g2 >= 1,
            g3 >= 1,
    ;
}

/// Comparing fractions with positive denominators by cross-multiplying is transitive.
proof fn lemma_cross_transitive(na: int, da: int, nb: int, db: int, nc: int, dc: int)
    requires
        da >= 1,
        db >= 1,
        dc >= 1,
    ensures
        na * db > nb * da && nb * dc > nc * db ==> na * dc > nc * da,
        na * db > nb * da && nb * dc == nc * db ==> na * dc > nc * da,
        na * db == nb * da && nb * dc > nc * db ==> na * dc > nc * da,
        na * db == nb * da && nb * dc == nc * db ==> na * dc == nc * da,
        !(na * da > na * da),
        na * da == na * da,
{
    assert((na * db - nb * da) * dc == na * db * dc - nb * da * dc) by (nonlinear_arith);
    assert((nb * dc - nc * db) * da == nb * dc * da - nc * db * da) by (nonlinear_arith);
    assert((na * dc - nc * da) * db == na * dc * db - nc * da * db) by (nonlinear_arith);
    assert(na * db * dc == na * dc * db) by (nonlinear_arith);
    assert(nb * da * dc == nb * dc * da) by (nonlinear_arith);
    assert(nc * db * da == nc * da * db) by (nonlinear_arith);
    assert((na * db - nb * da) * dc + (nb * dc - nc * db) * da == (na * dc - nc * da) * db);
    let x = na * db - nb * da;
    let y = nb * dc - nc * db;
    let z = na * dc - nc * da;
    assert(x * dc + y * da == z * db);
    assert(x > 0 && y >= 0 ==> z > 0) by (nonlinear_arith)
        requires
            x * dc + y * da == z * db,
            da >= 1,
            db >= 1,
            dc >= 1,
    ;
    assert(x >= 0 && y > 0 ==> z > 0) by (nonlinear_arith)
        requires
            x * dc + y * da == z * db,
            da >= 1,
            db >= 1,
            dc >= 1,
    ;
    assert(x == 0 && y == 0 ==> z == 0) by (nonlinear_arith)
        requires
            x * dc + y * da == z * db,
            db >= 1,
    ;
}

/// The channel's rank factor as a machine word.
fn rank_factor_word(rank: Option<usize>) -> (r: u128)
    ensures
        r == rank_factor(rank),
        1 <= r < 0x1_0000_0000_0000_0000_0000_0000,
{
    match rank {
        Some(k) => RRF_K as u128 + k as u128,
        None => 1,
    }
}

/// The fraction `(n, d)` in limbs, plus the channel's reciprocal-rank term.
fn add_rank_term_limbs(n: Vec<u32>, d: Vec<u32>, rank: Option<usize>) -> (r: (Vec<u32>, Vec<u32>))
    ensures
        (limbs_value(r.0@) as int, limbs_value(r.1@) as int) == add_rank_term(
            (limbs_value(n@) as int, limbs_value(d@) as int),
            rank,
        ),
{
    match rank {
        Some(k) => {
            let f = rank_factor_word(rank);
            let scaled_n = scaled(&n, f);
            (sum(&scaled_n, &d), scaled(&d, f))
        },
        None => (n, d),
    }
}

/// The fused score of a hit as (numerator, denominator) in limbs.
fn fused_score_limbs(h: &RankedHit) -> (r: (Vec<u32>, Vec<u32>))
    ensures
        (limbs_value(r.0@) as int, limbs_value(r.1@) as int) == fused_score(h@),
{
    let (n, d) = add_rank_term_limbs(from_word(0), from_word(1), h.lexical_rank);
    let (n, d) = add_rank_term_limbs(n, d, h.literal_rank);
    add_rank_term_limbs(n, d, h.vector_rank)
}

/// `x` times the denominator of `h`'s fused score.
fn times_fused_denominator(x: &Vec<u32>, h: &RankedHit) -> (r: Vec<u32>)
    ensures
        limbs_value(r@) == limbs_value(x@) * fused_score(h@).1,
{
    let g1 = rank_factor_word(h.lexical_rank);
    let g2 = rank_factor_word(h.literal_rank);
    let g3 = rank_factor_word(h.vector_rank);
    let a = scaled(x, g1);
    let b = scaled(&a, g2);
    let c = scaled(&b, g3);
    proof {
        lemma_fused_denominator_positive(h@);
        let v = limbs_value(x@) as int;
        assert(v * g1 * g2 * g3 == v * (g1 * g2 * g3)) by (nonlinear_arith);
    }
    c
}

/// How `a`'s fused score compares with `b`'s, exactly.
fn fused_score_order(a: &RankedHit, b: &RankedHit) -> (r: Comparison)
    ensures
        r == Comparison::Greater <==> fused_above(a@, b@),
        r == Comparison::Equal <==> fused_tied(a@, b@),
        r == Comparison::Less <==> fused_above(b@, a@),
{
    let (na, _) = fused_score_limbs(a);
    let (nb, _) = fused_score_limbs(b);
    let left = times_fused_denominator(&na, b);
    let right = times_fused_denominator(&nb, a);
    compare(&left, &right)
}

fn priority_of(h: &RankedHit) -> (r: u8)
    ensures
        r == source_priority(h@),
{
    let p: u8 = if h.partial_text_match { 1 } else { 0 };
    let f: u8 = if h.indexed_text_match { 1 } else { 0 };
    let v: u8 = if h.vector_key > ZERO_SCORE_KEY { 1 } else { 0 };
    p * 16 + (p + f + v) * 4 + f * 2 + v
}

fn hit_ranks_before(a: &RankedHit, b: &RankedHit) -> (r: bool)
    ensures
        r == ranks_before(a@, b@),
{
    let pa = priority_of(a);
    let pb = priority_of(b);
    if pa != pb {
        return pa > pb;
    }
    match fused_score_order(a, b) {
        Comparison::Greater => return true,
        Comparison::Less => return false,
        Comparison::Equal => {},
    }
    if a.lexical_key != b.lexical_key {
        return a.lexical_key > b.lexical_key;
    }
    let x = crate::text::chars_of(a.rel_path.as_str());
    let y = crate::text::chars_of(b.rel_path.as_str());
    crate::text::chars_before(x.as_slice(), y.as_slice())
}

/// Where a hit goes among hits in rank order: before the first one it ranks before, else at
/// the end.
pub open spec fn insertion_point(sorted: Seq<HitView>, h: HitView) -> int
    decreases sorted.len(),
{
    if sorted.len() == 0 {
        0
    } else if ranks_before(h, sorted[0]) {
        0
    } else {
        1 + insertion_point(sorted.drop_first(), h)
    }
}

/// The hits in rank order, as a stable sort lists them: each hit in turn is placed after every
/// earlier hit it does not rank before.
pub open spec fn rank_order(hits: Seq<HitView>) -> Seq<HitView>
    decreases hits.len(),
{
    if hits.len() == 0 {
        Seq::empty()
    } else {
        let prev = rank_order(hits.drop_last());
        prev.insert(insertion_point(prev, hits.last()), hits.last())
    }
}

proof fn lemma_insertion_point(sorted: Seq<HitView>, h: HitView, p: int)
    requires
        0 <= p <= sorted.len(),
        forall|j: int| 0 <= j < p ==> !ranks_before(h, #[trigger] sorted[j]),
        p == sorted.len() || ranks_before(h, sorted[p]),
    ensures
        insertion_point(sorted, h) == p,
    decreases p,
{
    if p > 0 {
        assert(!ranks_before(h, sorted[0]));
        assert forall|j: int| 0 <= j < p - 1 implies !ranks_before(h, #[trigger] sorted.drop_first()[j]) by {
            assert(sorted.drop_first()[j] == sorted[j + 1]);
        }
        if p < sorted.len() {
            assert(sorted.drop_first()[p - 1] == sorted[p]);
        }
        lemma_insertion_point(sorted.drop_first(), h, p - 1);
    }
}

/// Lists hits in rank order; hits that tie keep their relative order.
pub fn sort_ranked_hits(hits: Vec<RankedHit>) -> (r: Vec<RankedHit>)
    ensures
        hit_views(r@) == rank_order(hit_views(hits@)),
        hit_views(r@).to_multiset() == hit_views(hits@).to_multiset(),
        ranked(hit_views(r@)),
{
    let ghost all = hit_views(hits@);
    let mut rest = hits;
    let mut reversed: Vec<RankedHit> = Vec::new();
    while rest.len() > 0
        invariant
            hit_views(reversed@) + hit_views(rest@).reverse() == all.reverse(),
        decreases rest@.len(),
    {
        let ghost before_rest = hit_views(rest@);
        let ghost before_rev = hit_views(reversed@);
        let h = rest.pop().unwrap();
        reversed.push(h);
        assert(hit_views(reversed@) =~= before_rev.push(before_rest.last()));
        assert(before_rest.reverse() =~= seq![before_rest.last()] + hit_views(rest@).reverse());
        assert(hit_views(reversed@) + hit_views(rest@).reverse() =~= before_rev + before_rest.reverse());
    }
    assert(hit_views(reversed@) =~= all.reverse());
    let mut out: Vec<RankedHit> = Vec::new();
    let ghost mut k: int = 0;
    assert(all.take(0).to_multiset() =~= Multiset::empty());
    while reversed.len() > 0
        invariant
            0 <= k <= all.len(),
            k + reversed@.len() == all.len(),
            hit_views(reversed@) == all.skip(k).reverse(),
            hit_views(out@).to_multiset() == all.take(k).to_multiset(),
            hit_views(out@) == rank_order(all.take(k)),
            ranked(hit_views(out@)),
        decreases reversed@.len(),
    {
        let ghost before_rev = hit_views(reversed@);
        let h = reversed.pop().unwrap();
        proof {
            assert(h@ == all.skip(k).reverse().last());
            assert(all.skip(k).reverse().last() == all[k]);
            assert(hit_views(reversed@) =~= before_rev.drop_last());
            assert(all.skip(k + 1).reverse() =~= all.skip(k).reverse().drop_last());
            assert(all.take(k + 1) =~= all.take(k).push(all[k]));
        }
        let mut pos: usize = 0;
        while pos < out.len() && !hit_ranks_before(&h, &out[pos])
            invariant
                pos <= out@.len(),
                forall|j: int| 0 <= j < pos ==> !ranks_before(h@, #[trigger] out@[j]@),
            decreases out@.len() - pos,
        {
            pos = pos + 1;
        }
        let ghost old_out = hit_views(out@);
        proof {
            assert forall|j: int| 0 <= j < pos implies !ranks_before(h@, #[trigger] old_out[j]) by {
                assert(old_out[j] == out@[j]@);
            }
            if pos < out@.len() {
                assert(old_out[pos as int] == out@[pos as int]@);
            }
            lemma_insertion_point(old_out, h@, pos as int);
            assert(all.take(k + 1).drop_last() =~= all.take(k));
            assert(all.take(k + 1).last() == all[k]);
            assert forall|i: int, j: int| 0 <= i < j < old_out.len() + 1 implies !ranks_before(
                old_out.insert(pos as int, h@)[j],
                old_out.insert(pos as int, h@)[i],
            ) by {
                let s = old_out.insert(pos as int, h@);
                if j == pos {
                    assert(s[i] == old_out[i]);
                    assert(old_out[i] == out@[i]@);
                } else if i == pos {
                    assert(s[j] == old_out[j - 1]);
                    assert(ranks_before(h@, old_out[pos as int]));
                    lemma_ranks_before(old_out[j - 1], h@, old_out[pos as int]);
                    lemma_ranks_before(h@, h@, h@);
                } else {
                    let oi = if i < pos { i } else { i - 1 };
                    let oj = if j < pos { j } else { j - 1 };
                    assert(s[i] == old_out[oi]);
                    assert(s[j] == old_out[oj]);
                }
            }
        }
        let ghost hv = h@;
        out.insert(pos, h);
        assert(hit_views(out@) =~= old_out.insert(pos as int, hv));
        proof {
            k = k + 1;
        }
    }
    assert(all.take(all.len() as int) =~= all);
    out
}

proof fn lemma_fraction_denominator(f: (int, int), rank: Option<usize>)
    requires
        f.1 >= 1,
    ensures
        add_rank_term(f, rank).1 >= 1,
{
    if let Some(r) = rank {
        let m = RRF_K + r;
        assert(f.1 * m >= 1) by (nonlinear_arith)
            requires
                f.1 >= 1,
                m >= 1,
        ;
    }
}

proof fn lemma_same_term_keeps_order(f: (int, int), g: (int, int), rank: Option<usize>)
    requires
        f.1 >= 1,
        g.1 >= 1,
        f.0 * g.1 > g.0 * f.1,
    ensures
        add_rank_term(f, rank).0 * add_rank_term(g, rank).1 > add_rank_term(g, rank).0 * add_rank_term(f, rank).1,
{
    if let Some(r) = rank {
        let m = RRF_K + r;
        let (n1, d1, n2, d2) = (f.0, f.1, g.0, g.1);
        assert((n1 * m + d1) * (d2 * m) == n1 * m * (d2 * m) + d1 * (d2 * m)) by (nonlinear_arith);
        assert((n2 * m + d2) * (d1 * m) == n2 * m * (d1 * m) + d2 * (d1 * m)) by (nonlinear_arith);
        assert(n1 * m * (d2 * m) == m * m * (n1 * d2)) by (nonlinear_arith);
        assert(n2 * m * (d1 * m) == m * m * (n2 * d1)) by (nonlinear_arith);
        assert(d1 * (d2 * m) == d2 * (d1 * m)) by (nonlinear_arith);
        assert(m * m * (n1 * d2 - n2 * d1) == m * m * (n1 * d2) - m * m * (n2 * d1)) by (nonlinear_arith);
        assert(m * m * (n1 * d2 - n2 * d1) > 0) by (nonlinear_arith)
            requires
                m >= 1,
                n1 * d2 - n2 * d1 > 0,
        ;
    }
}

proof fn lemma_better_term_scores_higher(f: (int, int), x: usize, y: Option<usize>)
    requires
        f.1 >= 1,
        y matches Some(v) ==> x < v,
    ensures
        add_rank_term(f, Some(x)).0 * add_rank_term(f, y).1 > add_rank_term(f, y).0 * add_rank_term(f, Some(x)).1,
{
    let (n, d) = (f.0, f.1);
    let a = RRF_K + x;
    match y {
        Some(v) => {
            let b = RRF_K + v;
            assert((n * a + d) * (d * b) == n * a * (d * b) + d * (d * b)) by (nonlinear_arith);
            assert((n * b + d) * (d * a) == n * b * (d * a) + d * (d * a)) by (nonlinear_arith);
            assert(n * a * (d * b) == n * b * (d * a)) by (nonlinear_arith);
            assert(d * (d * b) - d * (d * a) == d * d * (b - a)) by (nonlinear_arith);
            assert(d * d * (b - a) > 0) by (nonlinear_arith)
                requires
                    d >= 1,
                    b > a,
            ;
        },
        None => {
            assert((n * a + d) * d == n * a * d + d * d) by (nonlinear_arith);
            assert(n * a * d == n * (d * a)) by (nonlinear_arith);
            assert(d * d > 0) by (nonlinear_arith)
                requires
                    d >= 1,
            ;
        },
    }
}

/// A better rank scores higher: of two hits ranked alike by the other channels, the one that
/// a channel ranks nearer the top, or that the channel ranks while the other is not ranked by
/// it at all, has the higher fused score.
pub proof fn lemma_better_rank_scores_higher(a: HitView, b: HitView, channel: Channel, x: usize)
    requires
        rank_in(a, channel) == Some(x),
        rank_in(b, channel) matches Some(y) ==> x < y,
        forall|c: Channel| c != channel ==> #[trigger] rank_in(a, c) == rank_in(b, c),
    ensures
        fused_above(a, b),
{
    let e = (0int, 1int);
    assert(rank_in(a, Channel::Lexical) == a.lexical_rank);
    assert(rank_in(a, Channel::Literal) == a.literal_rank);
    assert(rank_in(a, Channel::Vector) == a.vector_rank);
    assert(rank_in(b, Channel::Lexical) == b.lexical_rank);
    assert(rank_in(b, Channel::Literal) == b.literal_rank);
    assert(rank_in(b, Channel::Vector) == b.vector_rank);
    let fa1 = add_rank_term(e, a.lexical_rank);
    let fb1 = add_rank_term(e, b.lexical_rank);
    lemma_fraction_denominator(e, a.lexical_rank);
    lemma_fraction_denominator(e, b.lexical_rank);
    let fa2 = add_rank_term(fa1, a.literal_rank);
    let fb2 = add_rank_term(fb1, b.literal_rank);
    lemma_fraction_denominator(fa1, a.literal_rank);
    lemma_fraction_denominator(fb1, b.literal_rank);
    lemma_fraction_denominator(fa2, a.vector_rank);
    lemma_fraction_denominator(fb2, b.vector_rank);
    match channel {
        Channel::Lexical => {
            lemma_better_term_scores_higher(e, x, b.lexical_rank);
            lemma_same_term_keeps_order(fa1, fb1, a.literal_rank);
            lemma_same_term_keeps_order(fa2, fb2, a.vector_rank);
        },
        Channel::Literal => {
            assert(fa1 == fb1);
            lemma_better_term_scores_higher(fa1, x, b.literal_rank);
            lemma_same_term_keeps_order(fa2, fb2, a.vector_rank);
        },
        Channel::Vector => {
            assert(fa1 == fb1);
            assert(fa2 == fb2);
            lemma_better_term_scores_higher(fa2, x, b.vector_rank);
        },
    }
}

/// How many retrieval sources back a hit: a literal match, a full-text match and a positive
/// vector score each count one.
pub open spec fn agreeing_sources(h: HitView) -> int {
    (if h.partial_text_match { 1int } else { 0int }) + (if h.indexed_text_match { 1int } else { 0int }) + (if h.vector_key
        > ZERO_SCORE_KEY {
        1int
    } else {
        0int
    })
}

/// Whether hit `a` may be listed before hit `b` as far as their sources go: a literal match
/// first; then more agreeing sources; then a full-text match; then a positive vector score.
pub open spec fn sources_in_order(a: HitView, b: HitView) -> bool {
    &&& (b.partial_text_match ==> a.partial_text_match)
    &&& (a.partial_text_match == b.partial_text_match ==> agreeing_sources(a) >= agreeing_sources(b))
    &&& (a.partial_text_match == b.partial_text_match && agreeing_sources(a) == agreeing_sources(b)
        && b.indexed_text_match ==> a.indexed_text_match)
    &&& (a.partial_text_match == b.partial_text_match && agreeing_sources(a) == agreeing_sources(b)
        && a.indexed_text_match == b.indexed_text_match && b.vector_key > ZERO_SCORE_KEY ==> a.vector_key
        > ZERO_SCORE_KEY)
}

/// In rank order, sources decide first: literal matches come first; among hits alike in that,
/// more agreeing sources come first; among those alike again, full-text matches come before
/// others, and then hits with a positive vector score before those without.
pub proof fn lemma_rank_order_by_sources(hits: Seq<HitView>, i: int, j: int)
    requires
        ranked(hits),
        0 <= i < j < hits.len(),
    ensures
        sources_in_order(hits[i], hits[j]),
{
    assert(!ranks_before(hits[j], hits[i]));
}

/// What rank order means pair by pair: an earlier hit has at least the source priority of a
/// later one; with equal priority at least its fused score; with equal priority and fused
/// score at least its lexical score; and with all three equal a path that is not greater.
pub proof fn lemma_ranked_pairs(hits: Seq<HitView>, i: int, j: int)
    requires
        ranked(hits),
        0 <= i < j < hits.len(),
    ensures
        source_priority(hits[i]) >= source_priority(hits[j]),
        source_priority(hits[i]) == source_priority(hits[j]) ==> !fused_above(hits[j], hits[i]),
        source_priority(hits[i]) == source_priority(hits[j]) && fused_tied(hits[i], hits[j])
            ==> hits[i].lexical_key >= hits[j].lexical_key,
        source_priority(hits[i]) == source_priority(hits[j]) && fused_tied(hits[i], hits[j])
            && hits[i].lexical_key == hits[j].lexical_key ==> !chars_less(hits[j].rel_path, hits[i].rel_path),
{
    assert(!ranks_before(hits[j], hits[i]));
    lemma_fused_denominator_positive(hits[i]);
    lemma_fused_denominator_positive(hits[j]);
}

/// In rank order, hits found by literal recall come first: a hit without a literal match is
/// never listed before one with it.
pub proof fn lemma_partial_hits_first(hits: Seq<HitView>, i: int, j: int)
    requires
        ranked(hits),
        0 <= i < j < hits.len(),
        hits[j].partial_text_match,
    ensures
        hits[i].partial_text_match,
{
    if !hits[i].partial_text_match {
        assert(source_priority(hits[j]) >= 16);
        assert(source_priority(hits[i]) <= 11);
        assert(ranks_before(hits[j], hits[i]));
    }
}

/// The hits kept when lexical hits exist: every hit with a positive lexical score, and the
/// first `budget` purely semantic ones; hits with neither score go.
pub open spec fn capped_hits(hits: Seq<HitView>, budget: nat) -> Seq<HitView>
    decreases hits.len(),
{
    if hits.len() == 0 {
        Seq::empty()
    } else {
        let h = hits[0];
        if h.lexical_key > ZERO_SCORE_KEY {
            seq![h] + capped_hits(hits.drop_first(), budget)
        } else if h.vector_key <= ZERO_SCORE_KEY {
            capped_hits(hits.drop_first(), budget)
        } else if budget > 0 {
            seq![h] + capped_hits(hits.drop_first(), (budget - 1) as nat)
        } else {
            capped_hits(hits.drop_first(), budget)
        }
    }
}

/// Whether some hit has a positive lexical score.
pub open spec fn any_lexical(hits: Seq<HitView>) -> bool {
    exists|i: int| 0 <= i < hits.len() && hits[i].lexical_key > ZERO_SCORE_KEY
}

/// When lexical hits exist, purely semantic hits are capped at
/// `MAX_SEMANTIC_ONLY_HITS_WITH_LEXICAL`; without lexical hits the list is left alone.
pub fn limit_semantic_only_hits(hits: Vec<RankedHit>) -> (r: Vec<RankedHit>)
    ensures
        !any_lexical(hit_views(hits@)) ==> hit_views(r@) == hit_views(hits@),
        any_lexical(hit_views(hits@)) ==> hit_views(r@) == capped_hits(
            hit_views(hits@),
            crate::index::types::MAX_SEMANTIC_ONLY_HITS_WITH_LEXICAL as nat,
        ),
{
    let mut any = false;
    let mut i: usize = 0;
    while i < hits.len()
        invariant
            i <= hits@.len(),
            any == exists|j: int| 0 <= j < i && hits@[j].lexical_key > ZERO_SCORE_KEY,
        decreases hits@.len() - i,
    {
        if hits[i].lexical_key > ZERO_SCORE_KEY {
            any = true;
        }
        i = i + 1;
    }
    assert(any == any_lexical(hit_views(hits@))) by {
        if any {
            let j = choose|j: int| 0 <= j < hits@.len() && hits@[j].lexical_key > ZERO_SCORE_KEY;
            assert(hit_views(hits@)[j].lexical_key > ZERO_SCORE_KEY);
        }
    }
    if !any {
        return hits;
    }
    let ghost all = hit_views(hits@);
    let mut rest = hits;
    let mut reversed: Vec<RankedHit> = Vec::new();
    while rest.len() > 0
        invariant
            hit_views(reversed@) + hit_views(rest@).reverse() == all.reverse(),
        decreases rest@.len(),
    {
        let ghost before_rest = hit_views(rest@);
        let ghost before_rev = hit_views(reversed@);
        let h = rest.pop().unwrap();
        reversed.push(h);
        assert(hit_views(reversed@) =~= before_rev.push(before_rest.last()));
        assert(before_rest.reverse() =~= seq![before_rest.last()] + hit_views(rest@).reverse());
        assert(hit_views(reversed@) + hit_views(rest@).reverse() =~= before_rev + before_rest.reverse());
    }
    assert(hit_views(reversed@) =~= all.reverse());
    let mut kept: Vec<RankedHit> = Vec::new();
    let mut budget: usize = crate::index::types::MAX_SEMANTIC_ONLY_HITS_WITH_LEXICAL;
    let ghost mut k: int = 0;
    assert(all.skip(0) =~= all);
    while reversed.len() > 0
        invariant
            0 <= k <= all.len(),
            k + reversed@.len() == all.len(),
            hit_views(reversed@) == all.skip(k).reverse(),
            hit_views(kept@) + capped_hits(all.skip(k), budget as nat) == capped_hits(
                all,
                crate::index::types::MAX_SEMANTIC_ONLY_HITS_WITH_LEXICAL as nat,
            ),
        decreases reversed@.len(),
    {
        let ghost before_rev = hit_views(reversed@);
        let ghost before_kept = hit_views(kept@);
        let h = reversed.pop().unwrap();
        proof {
            assert(h@ == all.skip(k).reverse().last());
            assert(all.skip(k).reverse().last() == all[k]);
            assert(hit_views(reversed@) =~= before_rev.drop_last());
            assert(all.skip(k + 1).reverse() =~= all.skip(k).reverse().drop_last());
            assert(all.skip(k).drop_first() =~= all.skip(k + 1));
            assert(all.skip(k)[0] == all[k]);
        }
        if h.lexical_key > ZERO_SCORE_KEY {
            kept.push(h);
            assert(hit_views(kept@) =~= before_kept.push(all[k]));
            assert(before_kept.push(all[k]) + capped_hits(all.skip(k + 1), budget as nat) =~= before_kept + (seq![all[k]] + capped_hits(all.skip(k + 1), budget as nat)));
        } else if h.vector_key <= ZERO_SCORE_KEY {
        } else if budget > 0 {
            kept.push(h);
            assert(hit_views(kept@) =~= before_kept.push(all[k]));
            assert(before_kept.push(all[k]) + capped_hits(all.skip(k + 1), (budget - 1) as nat) =~= before_kept + (seq![all[k]] + capped_hits(all.skip(k + 1), (budget - 1) as nat)));
            budget = budget - 1;
        }
        proof {
            k = k + 1;
        }
    }
    assert(capped_hits(all.skip(k), budget as nat) =~= Seq::<HitView>::empty());
    assert(hit_views(kept@) + Seq::<HitView>::empty() =~= hit_views(kept@));
    kept
}


/// The hits an index search lists after semantic-only capping: capped when lexical hits
/// exist, else unchanged.
pub open spec fn semantic_limited(hits: Seq<HitView>) -> Seq<HitView> {
    if any_lexical(hits) {
        capped_hits(hits, crate::index::types::MAX_SEMANTIC_ONLY_HITS_WITH_LEXICAL as nat)
    } else {
        hits
    }
}

/// The hits an index search returns: with vectors on, semantic-only hits capped; then at most
/// the first `limit`.
pub fn finish_hits(hits: Vec<RankedHit>, vectors_enabled: bool, limit: usize) -> (r: Vec<RankedHit>)
    ensures
        ({
            let kept = if vectors_enabled { semantic_limited(hit_views(hits@)) } else { hit_views(hits@) };
            hit_views(r@) == if kept.len() <= limit { kept } else { kept.take(limit as int) }
        }),
        r@.len() <= limit,
{
    let mut kept = if vectors_enabled { limit_semantic_only_hits(hits) } else { hits };
    let ghost before = hit_views(kept@);
    if kept.len() > limit {
        kept.truncate(limit);
        assert(hit_views(kept@) =~= before.take(limit as int));
    }
    kept
}
} // verus!

verus! {

/// The rows whose vector similarity reaches the merge floor, in order.
pub open spec fn mergeable_rows(rows: Seq<RowView>) -> Seq<RowView> {
    rows.filter(|r: RowView| r.vector_key >= MIN_VECTOR_SCORE_KEY)
}

/// Whether a vector similarity (as its order key) is strong enough for rank fusion.
pub fn vector_score_is_mergeable(vector_key: u64) -> (r: bool)
    ensures
        r == (vector_key >= MIN_VECTOR_SCORE_KEY),
{
    vector_key >= MIN_VECTOR_SCORE_KEY
}

/// Drops vector candidates too weak to take part in rank fusion.
pub fn keep_mergeable_vector_rows(rows: Vec<StoredChunk>) -> (r: Vec<StoredChunk>)
    ensures
        row_views(r@) == mergeable_rows(row_views(rows@)),
{
    let ghost all = row_views(rows@);
    let mut rest = rows;
    let mut reversed: Vec<StoredChunk> = Vec::new();
    while rest.len() > 0
        invariant
            row_views(reversed@) + row_views(rest@).reverse() == all.reverse(),
        decreases rest@.len(),
    {
        let ghost before_rest = row_views(rest@);
        let ghost before_rev = row_views(reversed@);
        let h = rest.pop().unwrap();
        reversed.push(h);
        assert(row_views(reversed@) =~= before_rev.push(before_rest.last()));
        assert(before_rest.reverse() =~= seq![before_rest.last()] + row_views(rest@).reverse());
        assert(row_views(reversed@) + row_views(rest@).reverse() =~= before_rev + before_rest.reverse());
    }
    assert(row_views(reversed@) =~= all.reverse());
    let mut kept: Vec<StoredChunk> = Vec::new();
    let ghost mut k: int = 0;
    while reversed.len() > 0
        invariant
            0 <= k <= all.len(),
            k + reversed@.len() == all.len(),
            row_views(reversed@) == all.skip(k).reverse(),
            row_views(kept@) == mergeable_rows(all.take(k)),
        decreases reversed@.len(),
    {
        let ghost before_rev = row_views(reversed@);
        let h = reversed.pop().unwrap();
        proof {
            assert(h@ == all.skip(k).reverse().last());
            assert(all.skip(k).reverse().last() == all[k]);
            assert(row_views(reversed@) =~= before_rev.drop_last());
            assert(all.skip(k + 1).reverse() =~= all.skip(k).reverse().drop_last());
            assert(all.take(k + 1).drop_last() =~= all.take(k));
            reveal(Seq::filter);
        }
        let ghost before_kept = row_views(kept@);
        if h.vector_key >= MIN_VECTOR_SCORE_KEY {
            kept.push(h);
            assert(row_views(kept@) =~= before_kept.push(all[k]));
        }
        proof {
            k = k + 1;
        }
    }
    assert(all.take(all.len() as int) =~= all);
    kept
}

/// The literal-recall rows with one row per chunk: the best-ranked (first) one, in order.
pub open spec fn first_per_chunk(rows: Seq<RowView>) -> Seq<RowView>
    decreases rows.len(),
{
    if rows.len() == 0 {
        Seq::empty()
    } else {
        let prev = first_per_chunk(rows.drop_last());
        if exists|i: int| 0 <= i < prev.len() && prev[i].chunk_id == rows.last().chunk_id {
            prev
        } else {
            prev.push(rows.last())
        }
    }
}

/// Keeps, for each chunk, only the best-ranked literal-recall row.
pub fn dedupe_literal_rows(rows: Vec<StoredChunk>) -> (r: Vec<StoredChunk>)
    ensures
        row_views(r@) == first_per_chunk(row_views(rows@)),
{
    let ghost all = row_views(rows@);
    let mut rest = rows;
    let mut reversed: Vec<StoredChunk> = Vec::new();
    while rest.len() > 0
        invariant
            row_views(reversed@) + row_views(rest@).reverse() == all.reverse(),
        decreases rest@.len(),
    {
        let ghost before_rest = row_views(rest@);
        let ghost before_rev = row_views(reversed@);
        let h = rest.pop().unwrap();
        reversed.push(h);
        assert(row_views(reversed@) =~= before_rev.push(before_rest.last()));
        assert(before_rest.reverse() =~= seq![before_rest.last()] + row_views(rest@).reverse());
        assert(row_views(reversed@) + row_views(rest@).reverse() =~= before_rev + before_rest.reverse());
    }
    assert(row_views(reversed@) =~= all.reverse());
    let mut kept: Vec<StoredChunk> = Vec::new();
    let ghost mut k: int = 0;
    while reversed.len() > 0
        invariant
            0 <= k <= all.len(),
            k + reversed@.len() == all.len(),
            row_views(reversed@) == all.skip(k).reverse(),
            row_views(kept@) == first_per_chunk(all.take(k)),
        decreases reversed@.len(),
    {
        let ghost before_rev = row_views(reversed@);
        let h = reversed.pop().unwrap();
        proof {
            assert(h@ == all.skip(k).reverse().last());
            assert(all.skip(k).reverse().last() == all[k]);
            assert(row_views(reversed@) =~= before_rev.drop_last());
            assert(all.skip(k + 1).reverse() =~= all.skip(k).reverse().drop_last());
            assert(all.take(k + 1).drop_last() =~= all.take(k));
        }
        let ghost before_kept = row_views(kept@);
        let mut seen = false;
        let mut j: usize = 0;
        while j < kept.len()
            invariant
                j <= kept@.len(),
                seen == exists|t: int| 0 <= t < j && kept@[t].chunk_id == h.chunk_id,
            decreases kept@.len() - j,
        {
            if kept[j].chunk_id == h.chunk_id {
                seen = true;
            }
            j = j + 1;
        }
        proof {
            if seen {
                let t = choose|t: int| 0 <= t < kept@.len() && kept@[t].chunk_id == h.chunk_id;
                assert(before_kept[t].chunk_id == all[k].chunk_id);
            } else {
                assert forall|t: int| 0 <= t < before_kept.len() implies before_kept[t].chunk_id != all[k].chunk_id by {
                    assert(before_kept[t] == kept@[t]@);
                }
            }
        }
        if !seen {
            kept.push(h);
            assert(row_views(kept@) =~= before_kept.push(all[k]));
        }
        proof {
            k = k + 1;
        }
    }
    assert(all.take(all.len() as int) =~= all);
    kept
}

/// A term as an FTS5 string: in double quotes, with inner double quotes doubled.
pub open spec fn fts_quoted(term: Seq<char>) -> Seq<char> {
    seq!['"'] + doubled_quotes(term) + seq!['"']
}

/// `s` with each double quote written twice.
pub open spec fn doubled_quotes(s: Seq<char>) -> Seq<char>
    decreases s.len(),
{
    if s.len() == 0 {
        Seq::empty()
    } else {
        doubled_quotes(s.drop_last()) + (if s.last() == '"' { seq!['"', '"'] } else { seq![s.last()] })
    }
}

/// The FTS5 match expression for a query: its quoted terms joined by ` OR `.
pub open spec fn fts_match_text(terms: Seq<Seq<char>>) -> Seq<char> {
    crate::text::join(terms.map_values(|t: Seq<char>| fts_quoted(t)), " OR "@)
}

/// The FTS5 match expression that finds chunks holding any of the query's terms.
pub fn fts_match_query(query: &crate::Query) -> (r: String)
    ensures
        r@ == fts_match_text(query@.1),
{
    let terms = query.terms();
    let mut quoted: Vec<Vec<char>> = Vec::new();
    let mut i: usize = 0;
    while i < terms.len()
        invariant
            i <= terms@.len(),
            crate::string_views(terms@) == query@.1,
            crate::text::views(quoted@) == query@.1.take(i as int).map_values(|t: Seq<char>| fts_quoted(t)),
        decreases terms@.len() - i,
    {
        let t = crate::text::chars_of(terms[i].as_str());
        let mut q: Vec<char> = Vec::new();
        q.push('"');
        let mut j: usize = 0;
        while j < t.len()
            invariant
                j <= t@.len(),
                q@ == seq!['"'] + doubled_quotes(t@.take(j as int)),
            decreases t@.len() - j,
        {
            assert(t@.take(j + 1).drop_last() =~= t@.take(j as int));
            if t[j] == '"' {
                q.push('"');
                q.push('"');
            } else {
                q.push(t[j]);
            }
            j = j + 1;
            assert(q@ =~= seq!['"'] + doubled_quotes(t@.take(j as int)));
        }
        q.push('"');
        assert(t@.take(t@.len() as int) =~= t@);
        assert(t@ == query@.1[i as int]);
        let ghost before = crate::text::views(quoted@);
        assert(q@ =~= fts_quoted(query@.1[i as int]));
        let ghost qv = q@;
        quoted.push(q);
        assert(crate::text::views(quoted@) =~= before.push(qv));
        assert(query@.1.take(i + 1) =~= query@.1.take(i as int).push(query@.1[i as int]));
        assert(crate::text::views(quoted@) =~= query@.1.take(i + 1).map_values(|t: Seq<char>| fts_quoted(t)));
        i = i + 1;
    }
    assert(query@.1.take(terms@.len() as int) =~= query@.1);
    let sep = crate::text::chars_of(" OR ");
    let joined = crate::text::join_chars(&quoted, sep.as_slice());
    crate::text::string_of(joined.as_slice())
}

/// The path of a literal match relative to the index root, with slashes, when the match
/// lies under the root.
pub open spec fn hit_rel_path(root: Seq<char>, path: Seq<char>) -> Option<Seq<char>> {
    match crate::paths::relative_to(root, path) {
        Some(rel) => Some(crate::index::util::forward_slashes(rel)),
        None => None,
    }
}

/// The path of a literal match relative to the index root.
pub fn rg_hit_rel_path(root: &str, path: &str) -> (r: Option<String>)
    ensures
        crate::text::opt_text(r) == hit_rel_path(root@, path@),
{
    match crate::paths::relative_path(root, path) {
        Some(rel) => Some(crate::index::util::to_forward_slashes(rel.as_str())),
        None => None,
    }
}

/// How many of the first `n` terms occur in `text`.
pub open spec fn covered_count(text: Seq<char>, terms: Seq<Seq<char>>, n: int) -> int
    decreases n,
{
    if n <= 0 {
        0
    } else {
        covered_count(text, terms, n - 1) + if crate::text::contains(text, terms[n - 1]) {
            1int
        } else {
            0int
        }
    }
}

/// How many query terms occur in a chunk's normalized text: the coverage part of a chunk's
/// lexical score.
pub fn covered_terms(text: &str, terms: &[String]) -> (r: usize)
    ensures
        r == covered_count(text@, crate::string_views(terms@), terms@.len() as int),
{
    let hay = crate::text::chars_of(text);
    let mut count: usize = 0;
    let mut i: usize = 0;
    while i < terms.len()
        invariant
            i <= terms@.len(),
            hay@ == text@,
            count == covered_count(text@, crate::string_views(terms@), i as int),
            count <= i,
        decreases terms@.len() - i,
    {
        let needle = crate::text::chars_of(terms[i].as_str());
        if crate::text::contains_chars(hay.as_slice(), needle.as_slice()) {
            count = count + 1;
        }
        i = i + 1;
    }
    count
}

} // verus!
