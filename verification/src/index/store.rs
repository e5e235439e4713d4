//! Bookkeeping for shared chunks: chunks with equal normalized text share one stored row and
//! one embedding, and each shared row counts the chunk references that point at it.
use vstd::prelude::*;

use crate::index::chunking::{IndexedChunk, IndexedDocument};
use crate::text::same_text;
use vstd::hash_map::StringHashMap;
use crate::{other, ZgError};

verus! {

/// How often `x` occurs in `s`.
pub open spec fn occurrences(s: Seq<i64>, x: i64) -> int
    decreases s.len(),
{
    if s.len() == 0 {
        0
    } else {
        occurrences(s.drop_last(), x) + if s.last() == x {
            1int
        } else {
            0int
        }
    }
}

/// Whether the keys of `pairs` are pairwise distinct.
pub open spec fn distinct_keys(pairs: Seq<(i64, i64)>) -> bool {
    forall|i: int, j: int| 0 <= i < j < pairs.len() ==> pairs[i].0 != pairs[j].0
}

/// The value paired with `x`, or zero when `x` is not a key.
pub open spec fn count_in(pairs: Seq<(i64, i64)>, x: i64) -> int
    decreases pairs.len(),
{
    if pairs.len() == 0 {
        0
    } else if pairs.last().0 == x {
        pairs.last().1 as int
    } else {
        count_in(pairs.drop_last(), x)
    }
}

/// Whether `x` is a key of `pairs`.
pub open spec fn has_key(pairs: Seq<(i64, i64)>, x: i64) -> bool {
    exists|i: int| 0 <= i < pairs.len() && (#[trigger] pairs[i]).0 == x
}

proof fn lemma_count_in_absent(pairs: Seq<(i64, i64)>, x: i64)
    requires
        !has_key(pairs, x),
    ensures
        count_in(pairs, x) == 0,
    decreases pairs.len(),
{
    if pairs.len() > 0 {
        assert(!has_key(pairs.drop_last(), x)) by {
            if has_key(pairs.drop_last(), x) {
                let i = choose|i: int| 0 <= i < pairs.drop_last().len() && (#[trigger] pairs.drop_last()[i]).0 == x;
                assert(pairs[i].0 == x);
            }
        }
        assert(pairs[pairs.len() - 1].0 != x);
        lemma_count_in_absent(pairs.drop_last(), x);
    }
}

proof fn lemma_count_in_at(pairs: Seq<(i64, i64)>, i: int)
    requires
        distinct_keys(pairs),
        0 <= i < pairs.len(),
    ensures
        count_in(pairs, pairs[i].0) == pairs[i].1,
    decreases pairs.len(),
{
    if i < pairs.len() - 1 {
        assert(pairs.last().0 != pairs[i].0);
        assert(pairs.drop_last()[i] == pairs[i]);
        lemma_count_in_at(pairs.drop_last(), i);
    }
}

proof fn lemma_count_in_push(pairs: Seq<(i64, i64)>, p: (i64, i64), x: i64)
    ensures
        count_in(pairs.push(p), x) == if p.0 == x {
            p.1 as int
        } else {
            count_in(pairs, x)
        },
{
    assert(pairs.push(p).drop_last() =~= pairs);
}

/// Counts how many chunk references point at each shared chunk id, ids in order of first
/// appearance.
pub fn count_refs(ids: &Vec<i64>) -> (r: Vec<(i64, i64)>)
    requires
        ids@.len() < i64::MAX,
    ensures
        distinct_keys(r@),
        forall|x: i64| count_in(r@, x) == occurrences(ids@, x),
        forall|x: i64| has_key(r@, x) <==> occurrences(ids@, x) > 0,
{
    let mut out: Vec<(i64, i64)> = Vec::new();
    let mut i: usize = 0;
    assert(ids@.take(0) =~= Seq::<i64>::empty());
    while i < ids.len()
        invariant
            i <= ids@.len(),
            ids@.len() < i64::MAX,
            distinct_keys(out@),
            forall|x: i64| count_in(out@, x) == occurrences(ids@.take(i as int), x),
            forall|x: i64| has_key(out@, x) <==> occurrences(ids@.take(i as int), x) > 0,
            forall|k: int| 0 <= k < out@.len() ==> 0 < (#[trigger] out@[k]).1 <= i,
        decreases ids@.len() - i,
    {
        let x = ids[i];
        assert(ids@.take(i + 1).drop_last() =~= ids@.take(i as int));
        assert(ids@.take(i + 1).last() == x);
        assert forall|x2: i64| occurrences(ids@.take(i + 1), x2) == occurrences(ids@.take(i as int), x2) + if x2 == x { 1int } else { 0int } by {}
        let mut j: usize = 0;
        let mut at: Option<usize> = None;
        while j < out.len()
            invariant
                j <= out@.len(),
                at matches Some(p) ==> p < j && out@[p as int].0 == x,
                at is None ==> forall|t: int| 0 <= t < j ==> out@[t].0 != x,
            decreases out@.len() - j,
        {
            if at.is_none() && out[j].0 == x {
                at = Some(j);
            }
            j = j + 1;
        }
        let ghost before = out@;
        match at {
            Some(p) => {
                let (key, count) = out[p];
                proof {
                    lemma_count_in_at(before, p as int);
                }
                out.set(p, (key, count + 1));
                assert forall|x2: i64| count_in(out@, x2) == occurrences(ids@.take(i + 1), x2) by {
                    if x2 == x {
                        assert(distinct_keys(out@));
                        lemma_count_in_at(out@, p as int);
                    } else {
                        lemma_count_update_other(before, p as int, (key, (count + 1) as i64), x2);
                    }
                }
                assert(has_key(before, x)) by {
                    assert(before[p as int].0 == x);
                }
                assert forall|x2: i64| has_key(out@, x2) <==> has_key(before, x2) by {
                    if has_key(before, x2) {
                        let t = choose|t: int| 0 <= t < before.len() && (#[trigger] before[t]).0 == x2;
                        assert(out@[t].0 == x2);
                    }
                    if has_key(out@, x2) {
                        let t = choose|t: int| 0 <= t < out@.len() && (#[trigger] out@[t]).0 == x2;
                        assert(before[t].0 == x2);
                    }
                }
                assert forall|x2: i64| has_key(out@, x2) <==> occurrences(ids@.take(i + 1), x2) > 0 by {
                    assert(has_key(out@, x2) <==> has_key(before, x2));
                    assert(has_key(before, x2) <==> occurrences(ids@.take(i as int), x2) > 0);
                }
                assert forall|k: int| 0 <= k < out@.len() implies 0 < (#[trigger] out@[k]).1 <= i + 1 by {
                    if k != p {
                        assert(out@[k] == before[k]);
                    }
                }
            },
            None => {
                assert(!has_key(before, x));
                proof {
                    lemma_count_in_absent(before, x);
                }
                out.push((x, 1));
                assert forall|x2: i64| count_in(out@, x2) == occurrences(ids@.take(i + 1), x2) by {
                    lemma_count_in_push(before, (x, 1), x2);
                }
                assert forall|x2: i64| has_key(out@, x2) <==> occurrences(ids@.take(i + 1), x2) > 0 by {
                    if has_key(before, x2) {
                        let t = choose|t: int| 0 <= t < before.len() && (#[trigger] before[t]).0 == x2;
                        assert(out@[t].0 == x2);
                    }
                    if x2 == x {
                        assert(out@[before.len() as int].0 == x2);
                    }
                    if has_key(out@, x2) && x2 != x {
                        let t = choose|t: int| 0 <= t < out@.len() && (#[trigger] out@[t]).0 == x2;
                        assert(t < before.len());
                        assert(before[t].0 == x2);
                    }
                }
            },
        }
        i = i + 1;
    }
    assert(ids@.take(ids@.len() as int) =~= ids@);
    out
}

proof fn lemma_count_update_other(pairs: Seq<(i64, i64)>, p: int, v: (i64, i64), x: i64)
    requires
        0 <= p < pairs.len(),
        v.0 == pairs[p].0,
        x != v.0,
    ensures
        count_in(pairs.update(p, v), x) == count_in(pairs, x),
    decreases pairs.len(),
{
    if p == pairs.len() - 1 {
        assert(pairs.update(p, v).drop_last() =~= pairs.drop_last());
    } else {
        assert(pairs.update(p, v).drop_last() =~= pairs.drop_last().update(p, v));
        lemma_count_update_other(pairs.drop_last(), p, v, x);
    }
}

/// Whether every count of `pairs` is non-negative.
pub open spec fn nonnegative_counts(pairs: Seq<(i64, i64)>) -> bool {
    forall|k: int| 0 <= k < pairs.len() ==> (#[trigger] pairs[k]).1 >= 0
}

/// The value paired with `x` in `pairs`.
fn lookup_count(pairs: &Vec<(i64, i64)>, x: i64) -> (r: i64)
    requires
        distinct_keys(pairs@),
    ensures
        r == count_in(pairs@, x),
        has_key(pairs@, x) || r == 0,
        nonnegative_counts(pairs@) ==> r >= 0,
{
    let mut j: usize = 0;
    while j < pairs.len()
        invariant
            j <= pairs@.len(),
            distinct_keys(pairs@),
            forall|t: int| 0 <= t < j ==> pairs@[t].0 != x,
        decreases pairs@.len() - j,
    {
        if pairs[j].0 == x {
            proof {
                lemma_count_in_at(pairs@, j as int);
            }
            return pairs[j].1;
        }
        j = j + 1;
    }
    proof {
        lemma_count_in_absent(pairs@, x);
    }
    0
}

/// The changes that turn the reference counts `old` of a file's previous chunks into the
/// counts `new` of its current chunks: for each shared chunk id whose count changes, the
/// difference. Applied to `old`, the changes give exactly `new`.
pub fn ref_count_deltas(old: &Vec<(i64, i64)>, new: &Vec<(i64, i64)>) -> (r: Vec<(i64, i64)>)
    requires
        distinct_keys(old@),
        distinct_keys(new@),
        nonnegative_counts(old@),
        nonnegative_counts(new@),
    ensures
        distinct_keys(r@),
        forall|k: int| 0 <= k < r@.len() ==> (#[trigger] r@[k]).1 != 0,
        forall|x: i64| count_in(old@, x) + count_in(r@, x) == count_in(new@, x),
{
    let mut out: Vec<(i64, i64)> = Vec::new();
    let mut i: usize = 0;
    while i < old.len()
        invariant
            i <= old@.len(),
            distinct_keys(old@),
            distinct_keys(new@),
            nonnegative_counts(old@),
            nonnegative_counts(new@),
            distinct_keys(out@),
            forall|k: int| 0 <= k < out@.len() ==> (#[trigger] out@[k]).1 != 0,
            forall|k: int| 0 <= k < out@.len() ==> has_key(old@.take(i as int), (#[trigger] out@[k]).0),
            forall|x: i64| has_key(old@.take(i as int), x) ==> count_in(old@, x) + count_in(out@, x) == count_in(new@, x),
            forall|x: i64| !has_key(old@.take(i as int), x) ==> count_in(out@, x) == 0,
        decreases old@.len() - i,
    {
        let (x, oc) = old[i];
        let nc = lookup_count(new, x);
        proof {
            lemma_count_in_at(old@, i as int);
        }
        let d = nc - oc;
        let ghost before = out@;
        assert(!has_key(old@.take(i as int), x)) by {
            if has_key(old@.take(i as int), x) {
                let t = choose|t: int| 0 <= t < old@.take(i as int).len() && (#[trigger] old@.take(i as int)[t]).0 == x;
                assert(old@[t].0 == x);
            }
        }
        assert forall|y: i64| has_key(old@.take(i + 1), y) <==> (has_key(old@.take(i as int), y) || y == x) by {
            if has_key(old@.take(i + 1), y) {
                let t = choose|t: int| 0 <= t < old@.take(i + 1).len() && (#[trigger] old@.take(i + 1)[t]).0 == y;
                if t < i {
                    assert(old@.take(i as int)[t].0 == y);
                }
            }
            if has_key(old@.take(i as int), y) {
                let t = choose|t: int| 0 <= t < old@.take(i as int).len() && (#[trigger] old@.take(i as int)[t]).0 == y;
                assert(old@.take(i + 1)[t].0 == y);
            }
            if y == x {
                assert(old@.take(i + 1)[i as int].0 == y);
            }
        }
        if d != 0 {
            out.push((x, d));
            assert forall|y: i64| count_in(out@, y) == if y == x { d as int } else { count_in(before, y) } by {
                lemma_count_in_push(before, (x, d), y);
            }
            assert forall|a: int, b: int| 0 <= a < b < out@.len() implies out@[a].0 != out@[b].0 by {
                if b == before.len() {
                    assert(has_key(old@.take(i as int), before[a].0));
                }
            }
        } else {
            assert(count_in(out@, x) == 0);
        }
        i = i + 1;
    }
    assert(old@.take(old@.len() as int) =~= old@);
    let ghost after_old = out@;
    let mut j: usize = 0;
    while j < new.len()
        invariant
            j <= new@.len(),
            distinct_keys(old@),
            distinct_keys(new@),
            distinct_keys(out@),
            forall|k: int| 0 <= k < out@.len() ==> (#[trigger] out@[k]).1 != 0,
            forall|k: int| 0 <= k < out@.len() ==> has_key(old@, (#[trigger] out@[k]).0) || has_key(new@.take(j as int), out@[k].0),
            forall|x: i64| has_key(old@, x) ==> count_in(old@, x) + count_in(out@, x) == count_in(new@, x),
            forall|x: i64| !has_key(old@, x) && has_key(new@.take(j as int), x) ==> count_in(out@, x) == count_in(new@, x),
            forall|x: i64| !has_key(old@, x) && !has_key(new@.take(j as int), x) ==> count_in(out@, x) == 0,
        decreases new@.len() - j,
    {
        let (x, nc) = new[j];
        proof {
            lemma_count_in_at(new@, j as int);
        }
        let in_old = has_key_exec(old, x);
        let ghost before = out@;
        assert(!has_key(new@.take(j as int), x)) by {
            if has_key(new@.take(j as int), x) {
                let t = choose|t: int| 0 <= t < new@.take(j as int).len() && (#[trigger] new@.take(j as int)[t]).0 == x;
                assert(new@[t].0 == x);
            }
        }
        assert forall|y: i64| has_key(new@.take(j + 1), y) <==> (has_key(new@.take(j as int), y) || y == x) by {
            if has_key(new@.take(j + 1), y) {
                let t = choose|t: int| 0 <= t < new@.take(j + 1).len() && (#[trigger] new@.take(j + 1)[t]).0 == y;
                if t < j {
                    assert(new@.take(j as int)[t].0 == y);
                }
            }
            if has_key(new@.take(j as int), y) {
                let t = choose|t: int| 0 <= t < new@.take(j as int).len() && (#[trigger] new@.take(j as int)[t]).0 == y;
                assert(new@.take(j + 1)[t].0 == y);
            }
            if y == x {
                assert(new@.take(j + 1)[j as int].0 == y);
            }
        }
        if !in_old && nc != 0 {
            out.push((x, nc));
            assert forall|y: i64| count_in(out@, y) == if y == x { nc as int } else { count_in(before, y) } by {
                lemma_count_in_push(before, (x, nc), y);
            }
            assert forall|a: int, b: int| 0 <= a < b < out@.len() implies out@[a].0 != out@[b].0 by {
                if b == before.len() {
                    assert(has_key(old@, before[a].0) || has_key(new@.take(j as int), before[a].0));
                }
            }
            assert forall|k: int| 0 <= k < out@.len() implies has_key(old@, (#[trigger] out@[k]).0) || has_key(new@.take(j + 1), out@[k].0) by {
                if k < before.len() {
                    assert(out@[k] == before[k]);
                }
            }
        } else {
            if !in_old {
                proof {
                    lemma_count_in_absent(old@, x);
                }
            }
        }
        j = j + 1;
    }
    assert(new@.take(new@.len() as int) =~= new@);
    assert forall|x: i64| count_in(old@, x) + count_in(out@, x) == count_in(new@, x) by {
        if !has_key(old@, x) {
            lemma_count_in_absent(old@, x);
            if !has_key(new@, x) {
                lemma_count_in_absent(new@, x);
            }
        }
    }
    out
}

/// Whether `x` is a key of `pairs`.
fn has_key_exec(pairs: &Vec<(i64, i64)>, x: i64) -> (r: bool)
    ensures
        r == has_key(pairs@, x),
{
    let mut j: usize = 0;
    while j < pairs.len()
        invariant
            j <= pairs@.len(),
            forall|t: int| 0 <= t < j ==> pairs@[t].0 != x,
        decreases pairs@.len() - j,
    {
        if pairs[j].0 == x {
            assert(pairs@[j as int].0 == x);
            return true;
        }
        j = j + 1;
    }
    false
}

/// The key under which equal chunks share one stored row: the hash and the text they share.
pub open spec fn chunk_key(c: IndexedChunk) -> (Seq<char>, Seq<char>) {
    (c.shared_normalized_text_hash@, c.shared_normalized_text@)
}

/// The keys of a sequence of chunks.
pub open spec fn chunk_keys(chunks: Seq<IndexedChunk>) -> Seq<(Seq<char>, Seq<char>)> {
    chunks.map_values(|c: IndexedChunk| chunk_key(c))
}

/// The keys of `keys` without repeats, each at its first appearance.
pub open spec fn dedupe(keys: Seq<(Seq<char>, Seq<char>)>) -> Seq<(Seq<char>, Seq<char>)>
    decreases keys.len(),
{
    if keys.len() == 0 {
        Seq::empty()
    } else {
        let prev = dedupe(keys.drop_last());
        if prev.contains(keys.last()) {
            prev
        } else {
            prev.push(keys.last())
        }
    }
}

/// Removing repeats keeps every key once: the kept keys never repeat, and a key is kept
/// exactly when it occurs. So each shared text of a batch gets one row and one embedding.
pub proof fn lemma_dedupe_keeps_each_key_once(keys: Seq<(Seq<char>, Seq<char>)>)
    ensures
        dedupe(keys).no_duplicates(),
        forall|k: (Seq<char>, Seq<char>)| #[trigger] dedupe(keys).contains(k) <==> keys.contains(k),
    decreases keys.len(),
{
    if keys.len() > 0 {
        let rest = keys.drop_last();
        lemma_dedupe_keeps_each_key_once(rest);
        let prev = dedupe(rest);
        assert forall|k: (Seq<char>, Seq<char>)| keys.contains(k) <==> (rest.contains(k) || k == keys.last()) by {
            if keys.contains(k) {
                let i = choose|i: int| 0 <= i < keys.len() && keys[i] == k;
                if i < keys.len() - 1 {
                    assert(rest[i] == k);
                }
            }
            if rest.contains(k) {
                let i = choose|i: int| 0 <= i < rest.len() && rest[i] == k;
                assert(keys[i] == k);
            }
            if k == keys.last() {
                assert(keys[keys.len() - 1] == k);
            }
        }
        if !prev.contains(keys.last()) {
            let cur = prev.push(keys.last());
            assert forall|k: (Seq<char>, Seq<char>)| cur.contains(k) <==> (prev.contains(k) || k == keys.last()) by {
                if cur.contains(k) {
                    let i = choose|i: int| 0 <= i < cur.len() && cur[i] == k;
                    if i < prev.len() {
                        assert(prev[i] == k);
                    }
                }
                if prev.contains(k) {
                    let i = choose|i: int| 0 <= i < prev.len() && prev[i] == k;
                    assert(cur[i] == k);
                }
                if k == keys.last() {
                    assert(cur[prev.len() as int] == k);
                }
            }
            assert forall|i: int, j: int| 0 <= i < cur.len() && 0 <= j < cur.len() && i != j implies cur[i] != cur[j] by {
                if i < prev.len() && j < prev.len() {
                    assert(cur[i] == prev[i] && cur[j] == prev[j]);
                } else if i < prev.len() {
                    assert(cur[i] == prev[i]);
                    assert(prev.contains(prev[i]));
                } else {
                    assert(cur[j] == prev[j]);
                    assert(prev.contains(prev[j]));
                }
            }
        }
    }
}

/// The views of a vector of string pairs.
pub open spec fn pair_views(v: Seq<(String, String)>) -> Seq<(Seq<char>, Seq<char>)> {
    v.map_values(|p: (String, String)| (p.0@, p.1@))
}

/// Whether `slots` maps each key of `keys` to its position in `unique`.
pub open spec fn slots_match(
    keys: Seq<(Seq<char>, Seq<char>)>,
    unique: Seq<(Seq<char>, Seq<char>)>,
    slots: Seq<usize>,
) -> bool {
    &&& slots.len() == keys.len()
    &&& forall|i: int| 0 <= i < keys.len() ==> (#[trigger] slots[i]) < unique.len() && unique[slots[i] as int] == keys[i]
}

/// Removes repeated keys, keeping first appearances in order, and reports for every key
/// the position of its kept copy. Keys are grouped by text, so each check only compares the
/// few kept keys that share the text.
pub fn dedupe_with_slots(keys: &Vec<(String, String)>) -> (r: (Vec<(String, String)>, Vec<usize>))
    ensures
        pair_views(r.0@) == dedupe(pair_views(keys@)),
        slots_match(pair_views(keys@), pair_views(r.0@), r.1@),
{
    let ghost kv = pair_views(keys@);
    let mut unique: Vec<(String, String)> = Vec::new();
    let mut slots: Vec<usize> = Vec::new();
    let mut buckets: StringHashMap<Vec<usize>> = StringHashMap::new();
    let mut i: usize = 0;
    assert(kv.take(0) =~= Seq::<(Seq<char>, Seq<char>)>::empty());
    assert(pair_views(unique@) =~= Seq::<(Seq<char>, Seq<char>)>::empty());
    while i < keys.len()
        invariant
            i <= keys@.len(),
            kv == pair_views(keys@),
            pair_views(unique@) == dedupe(kv.take(i as int)),
            slots_match(kv.take(i as int), pair_views(unique@), slots@),
            forall|t: Seq<char>| #[trigger] buckets@.contains_key(t) ==> forall|q: int|
                0 <= q < buckets@[t]@.len() ==> (#[trigger] buckets@[t]@[q]) < unique@.len()
                    && pair_views(unique@)[buckets@[t]@[q] as int].1 == t,
            forall|k: int| 0 <= k < unique@.len() ==> buckets@.contains_key(#[trigger] pair_views(unique@)[k].1)
                && buckets@[pair_views(unique@)[k].1]@.contains(k as usize),
        decreases keys@.len() - i,
    {
        let ghost uv = pair_views(unique@);
        let ghost key = kv[i as int];
        assert(kv.take(i + 1).drop_last() =~= kv.take(i as int));
        assert(kv.take(i + 1).last() == key);
        let h = &keys[i].0;
        let t = &keys[i].1;
        let mut found: Option<usize> = None;
        let mut members: Vec<usize> = Vec::new();
        match buckets.get(t.as_str()) {
            Some(bucket) => {
                let mut q: usize = 0;
                while q < bucket.len()
                    invariant
                        q <= bucket@.len(),
                        buckets@.contains_key(t@),
                        *bucket == buckets@[t@],
                        forall|z: int| 0 <= z < bucket@.len() ==> (#[trigger] bucket@[z]) < unique@.len()
                            && pair_views(unique@)[bucket@[z] as int].1 == t@,
                        members@ == bucket@.take(q as int),
                        found matches Some(k) ==> k < unique@.len() && pair_views(unique@)[k as int] == (h@, t@),
                        found is None ==> forall|z: int| 0 <= z < q ==> pair_views(unique@)[bucket@[z] as int].0 != h@,
                    decreases bucket@.len() - q,
                {
                    let k = bucket[q];
                    if found.is_none() && crate::text::same_text(unique[k].0.as_str(), h.as_str()) {
                        found = Some(k);
                    }
                    members.push(k);
                    assert(members@ =~= bucket@.take(q + 1));
                    q = q + 1;
                }
                assert(bucket@.take(bucket@.len() as int) =~= bucket@);
                assert(found is None ==> forall|z: int| 0 <= z < buckets@[t@]@.len() ==> pair_views(unique@)[buckets@[t@]@[z] as int].0 != h@);
            },
            None => {},
        }
        assert(found is None ==> (!buckets@.contains_key(t@) || forall|z: int| 0 <= z < buckets@[t@]@.len() ==> pair_views(unique@)[buckets@[t@]@[z] as int].0 != h@));
        match found {
            Some(k) => {
                assert(uv.contains(key)) by {
                    assert(uv[k as int] == key);
                }
                slots.push(k);
                assert(kv.take(i + 1) =~= kv.take(i as int).push(key));
            },
            None => {
                let n = unique.len();
                assert(!uv.contains(key)) by {
                    if uv.contains(key) {
                        let k = choose|k: int| 0 <= k < uv.len() && uv[k] == key;
                        assert(buckets@.contains_key(uv[k].1));
                        assert(buckets@[uv[k].1]@.contains(k as usize));
                        let z = choose|z: int| 0 <= z < buckets@[t@]@.len() && buckets@[t@]@[z] == k as usize;
                        assert(pair_views(unique@)[buckets@[t@]@[z] as int].0 != h@);
                    }
                }
                let ghost old_buckets = buckets@;
                members.push(n);
                let pair = (h.clone(), t.clone());
                unique.push(pair);
                let ghost nv = pair_views(unique@);
                assert(nv =~= uv.push(key));
                buckets.insert(t.clone(), members);
                slots.push(n);
                assert forall|t2: Seq<char>| #[trigger] buckets@.contains_key(t2) implies forall|q: int|
                    0 <= q < buckets@[t2]@.len() ==> (#[trigger] buckets@[t2]@[q]) < unique@.len()
                        && pair_views(unique@)[buckets@[t2]@[q] as int].1 == t2 by {
                    if t2 != t@ {
                        assert(old_buckets.contains_key(t2));
                        assert forall|q: int| 0 <= q < buckets@[t2]@.len() implies (#[trigger] buckets@[t2]@[q]) < unique@.len()
                            && pair_views(unique@)[buckets@[t2]@[q] as int].1 == t2 by {
                            assert(buckets@[t2] == old_buckets[t2]);
                            assert(nv[old_buckets[t2]@[q] as int] == uv[old_buckets[t2]@[q] as int]);
                        }
                    } else {
                        assert forall|q: int| 0 <= q < buckets@[t2]@.len() implies (#[trigger] buckets@[t2]@[q]) < unique@.len()
                            && pair_views(unique@)[buckets@[t2]@[q] as int].1 == t2 by {
                            if q < buckets@[t2]@.len() - 1 {
                                assert(old_buckets.contains_key(t@));
                                assert(buckets@[t2]@[q] == old_buckets[t@]@[q]);
                                assert(nv[old_buckets[t@]@[q] as int] == uv[old_buckets[t@]@[q] as int]);
                            }
                        }
                    }
                }
                assert forall|k: int| 0 <= k < unique@.len() implies buckets@.contains_key(#[trigger] pair_views(unique@)[k].1)
                    && buckets@[pair_views(unique@)[k].1]@.contains(k as usize) by {
                    if k < n {
                        assert(nv[k] == uv[k]);
                        if uv[k].1 == t@ {
                            assert(old_buckets.contains_key(t@));
                            let z = choose|z: int| 0 <= z < old_buckets[t@]@.len() && old_buckets[t@]@[z] == k as usize;
                            assert(buckets@[t@]@[z] == k as usize);
                        } else {
                            assert(buckets@[uv[k].1] == old_buckets[uv[k].1]);
                        }
                    } else {
                        assert(buckets@[t@]@[buckets@[t@]@.len() - 1] == n);
                    }
                }
                assert(kv.take(i + 1) =~= kv.take(i as int).push(key));
            },
        }
        i = i + 1;
    }
    assert(kv.take(kv.len() as int) =~= kv);
    (unique, slots)
}

fn key_of(c: &IndexedChunk) -> (r: (String, String))
    ensures
        (r.0@, r.1@) == chunk_key(*c),
{
    (c.shared_normalized_text_hash.clone(), c.shared_normalized_text.clone())
}

/// The distinct shared keys of a document's chunks, and for each chunk the position of its
/// key among them.
pub fn shared_key_slots(chunks: &Vec<IndexedChunk>) -> (r: (Vec<(String, String)>, Vec<usize>))
    ensures
        pair_views(r.0@) == dedupe(chunk_keys(chunks@)),
        slots_match(chunk_keys(chunks@), pair_views(r.0@), r.1@),
{
    let mut keys: Vec<(String, String)> = Vec::new();
    let mut i: usize = 0;
    while i < chunks.len()
        invariant
            i <= chunks@.len(),
            pair_views(keys@) == chunk_keys(chunks@).take(i as int),
        decreases chunks@.len() - i,
    {
        let ghost before = pair_views(keys@);
        let k = key_of(&chunks[i]);
        keys.push(k);
        assert(pair_views(keys@) =~= before.push(chunk_key(chunks@[i as int])));
        assert(chunk_keys(chunks@).take(i + 1) =~= chunk_keys(chunks@).take(i as int).push(chunk_key(chunks@[i as int])));
        i = i + 1;
    }
    assert(chunk_keys(chunks@).take(chunks@.len() as int) =~= chunk_keys(chunks@));
    dedupe_with_slots(&keys)
}

/// The shared keys of the chunks of the first `n` documents, in order.
pub open spec fn document_keys(docs: Seq<(String, IndexedDocument)>, n: int) -> Seq<(Seq<char>, Seq<char>)>
    decreases n,
{
    if n <= 0 {
        Seq::empty()
    } else {
        document_keys(docs, n - 1) + chunk_keys(docs[n - 1].1.chunks@)
    }
}

/// The distinct shared keys of the chunks of all documents about to be stored, in order of
/// first appearance: the texts whose embeddings a write may need.
pub fn pending_shared_keys(docs: &Vec<(String, IndexedDocument)>) -> (r: Vec<(String, String)>)
    ensures
        pair_views(r@) == dedupe(document_keys(docs@, docs@.len() as int)),
{
    let mut keys: Vec<(String, String)> = Vec::new();
    let mut d: usize = 0;
    while d < docs.len()
        invariant
            d <= docs@.len(),
            pair_views(keys@) == document_keys(docs@, d as int),
        decreases docs@.len() - d,
    {
        let chunks = &docs[d].1.chunks;
        let ghost base = pair_views(keys@);
        let mut i: usize = 0;
        assert(base + chunk_keys(chunks@).take(0) =~= base);
        while i < chunks.len()
            invariant
                i <= chunks@.len(),
                pair_views(keys@) == base + chunk_keys(chunks@).take(i as int),
            decreases chunks@.len() - i,
        {
            let ghost before = pair_views(keys@);
            let k = key_of(&chunks[i]);
            keys.push(k);
            assert(pair_views(keys@) =~= before.push(chunk_key(chunks@[i as int])));
            assert(chunk_keys(chunks@).take(i + 1) =~= chunk_keys(chunks@).take(i as int).push(chunk_key(chunks@[i as int])));
            assert(base + chunk_keys(chunks@).take(i + 1) =~= (base + chunk_keys(chunks@).take(i as int)).push(chunk_key(chunks@[i as int])));
            i = i + 1;
        }
        assert(chunk_keys(chunks@).take(chunks@.len() as int) =~= chunk_keys(chunks@));
        d = d + 1;
    }
    let (unique, slots) = dedupe_with_slots(&keys);
    unique
}

/// The keys that have no stored row yet, in order, given for each key whether a row exists.
pub open spec fn missing_of(keys: Seq<(Seq<char>, Seq<char>)>, exists: Seq<bool>, n: int) -> Seq<(Seq<char>, Seq<char>)>
    decreases n,
{
    if n <= 0 {
        Seq::empty()
    } else if exists[n - 1] {
        missing_of(keys, exists, n - 1)
    } else {
        missing_of(keys, exists, n - 1).push(keys[n - 1])
    }
}

/// Keeps the keys that have no stored row yet.
pub fn missing_keys(keys: &Vec<(String, String)>, exists: &Vec<bool>) -> (r: Vec<(String, String)>)
    requires
        exists@.len() == keys@.len(),
    ensures
        pair_views(r@) == missing_of(pair_views(keys@), exists@, keys@.len() as int),
{
    let mut out: Vec<(String, String)> = Vec::new();
    let mut i: usize = 0;
    while i < keys.len()
        invariant
            i <= keys@.len(),
            exists@.len() == keys@.len(),
            pair_views(out@) == missing_of(pair_views(keys@), exists@, i as int),
        decreases keys@.len() - i,
    {
        if !exists[i] {
            let ghost before = pair_views(out@);
            let k = (keys[i].0.clone(), keys[i].1.clone());
            out.push(k);
            assert(pair_views(out@) =~= before.push(pair_views(keys@)[i as int]));
        }
        i = i + 1;
    }
    out
}

/// The shared chunk id of each chunk, from the position of its key (`slots`) and the ids
/// resolved for the distinct keys; a position with no resolved id is an error.
pub fn assign_shared_ids(slots: &Vec<usize>, ids: &Vec<i64>) -> (r: Result<Vec<i64>, ZgError>)
    ensures
        r is Ok <==> forall|i: int| 0 <= i < slots@.len() ==> (#[trigger] slots@[i]) < ids@.len(),
        r matches Ok(v) ==> v@.len() == slots@.len() && forall|i: int|
            0 <= i < slots@.len() ==> (#[trigger] v@[i]) == ids@[slots@[i] as int],
        r matches Err(e) ==> e.message@ == "failed to resolve shared chunk id"@,
{
    let mut out: Vec<i64> = Vec::new();
    let mut i: usize = 0;
    while i < slots.len()
        invariant
            i <= slots@.len(),
            out@.len() == i,
            forall|j: int| 0 <= j < i ==> (#[trigger] slots@[j]) < ids@.len() && out@[j] == ids@[slots@[j] as int],
        decreases slots@.len() - i,
    {
        let k = slots[i];
        if k >= ids.len() {
            return Err(other("failed to resolve shared chunk id".to_owned()));
        }
        out.push(ids[k]);
        i = i + 1;
    }
    Ok(out)
}

} // verus!
