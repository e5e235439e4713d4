use zg::index::chunking::build_chunks;
use zg::index::store::{
    assign_shared_ids, count_refs, dedupe_with_slots, missing_keys, ref_count_deltas,
    shared_key_slots,
};

fn count_of(pairs: &[(i64, i64)], id: i64) -> i64 {
    pairs.iter().filter(|p| p.0 == id).map(|p| p.1).sum()
}

#[test]
fn reference_counts_tally_each_id() {
    let counts = count_refs(&vec![3, 1, 3, 3, 2]);
    assert_eq!(counts.len(), 3);
    assert_eq!(count_of(&counts, 3), 3);
    assert_eq!(count_of(&counts, 1), 1);
    assert_eq!(count_of(&counts, 2), 1);
    assert_eq!(count_of(&counts, 9), 0);
}

#[test]
fn deltas_turn_old_counts_into_new_counts() {
    let old = count_refs(&vec![1, 1, 2]);
    let new = count_refs(&vec![1, 3, 3]);
    let deltas = ref_count_deltas(&old, &new);
    for id in [1, 2, 3, 4] {
        assert_eq!(count_of(&old, id) + count_of(&deltas, id), count_of(&new, id));
    }
    assert!(deltas.iter().all(|d| d.1 != 0));
    assert_eq!(count_of(&deltas, 2), -1);
    assert_eq!(count_of(&deltas, 3), 2);
}

#[test]
fn deleting_the_last_reference_leaves_a_zero_count() {
    let old = count_refs(&vec![5]);
    let deltas = ref_count_deltas(&old, &Vec::new());
    assert_eq!(deltas, vec![(5, -1)]);
    assert_eq!(count_of(&old, 5) + count_of(&deltas, 5), 0);
}

fn pair(a: &str, b: &str) -> (String, String) {
    (a.to_string(), b.to_string())
}

#[test]
fn repeated_keys_share_one_slot() {
    let keys = vec![pair("h1", "a"), pair("h2", "b"), pair("h1", "a"), pair("h3", "c")];
    let (unique, slots) = dedupe_with_slots(&keys);
    assert_eq!(unique, vec![pair("h1", "a"), pair("h2", "b"), pair("h3", "c")]);
    assert_eq!(slots, vec![0, 1, 0, 2]);
}

#[test]
fn repeated_normalized_text_across_chunks_shares_embedding_owner() {
    let mut chunks = build_chunks("- Shared Note");
    chunks.extend(build_chunks("# shared note"));
    let (unique, slots) = shared_key_slots(&chunks);
    assert_eq!(unique.len(), 1);
    assert_eq!(unique[0].1, "shared note");
    assert_eq!(slots, vec![0, 0]);
}

#[test]
fn only_keys_without_rows_are_inserted() {
    let keys = vec![pair("h1", "a"), pair("h2", "b"), pair("h3", "c")];
    let missing = missing_keys(&keys, &vec![true, false, false]);
    assert_eq!(missing, vec![pair("h2", "b"), pair("h3", "c")]);
}

#[test]
fn shared_ids_follow_the_slots() {
    assert_eq!(assign_shared_ids(&vec![0, 1, 0], &vec![10, 20]).unwrap(), vec![10, 20, 10]);
    assert_eq!(
        assign_shared_ids(&vec![2], &vec![10, 20]).unwrap_err().message,
        "failed to resolve shared chunk id"
    );
}
