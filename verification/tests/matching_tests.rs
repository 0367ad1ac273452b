use shazam_core::matching::{
    count_songs_with_hash, eval_song, group_matches, match_song, rank_matches, MatchConfig, Song,
};

#[test]
fn empty_rows_give_the_sentinel() {
    let keys = vec![1u64, 2, 3];
    let values = vec![10u64, 20, 30];
    assert_eq!(match_song(Vec::new(), &keys, &values, None), (0, 0));
}

#[test]
fn empty_query_gives_the_sentinel() {
    let rows = vec![(1u64, 7u64, 10u64)];
    let keys: Vec<u64> = Vec::new();
    let values: Vec<u64> = Vec::new();
    assert_eq!(match_song(rows, &keys, &values, None), (0, 0));
}

#[test]
fn disjoint_hashes_give_the_sentinel() {
    // no query hash occurs in storage: noise must never match
    let rows = vec![(1000u64, 7u64, 10u64), (2000, 7, 20), (3000, 7, 30)];
    let keys = vec![1u64, 2, 3, 4, 5];
    let values = vec![5u64, 15, 25, 35, 45];
    assert_eq!(match_song(rows, &keys, &values, None), (0, 0));
}

#[test]
fn exact_self_match_returns_full_confidence() {
    let keys = vec![1u64, 2, 3];
    let values = vec![10u64, 20, 30];
    let rows = vec![(1u64, 7u64, 10u64), (2, 7, 20), (3, 7, 30)];
    // every fingerprint votes 100 into offset bin 0: 300 votes over 3
    // stored fingerprints is a confidence of 10000 percent, scaled by 100
    assert_eq!(match_song(rows, &keys, &values, None), (1000000, 7));
}

#[test]
fn eval_song_reports_the_winning_offset_bin() {
    let keys = vec![1u64, 2, 3];
    let values = vec![10u64, 20, 30];
    let rows = vec![(1u64, 7u64, 110u64), (2, 7, 120), (3, 7, 130)];
    let songs = group_matches(&rows);
    let cfg = MatchConfig::default();
    // all offsets are 100 ms; the bin is 100 and collects all 300 votes
    assert_eq!(eval_song(&songs[0], &songs, &keys, &values, &cfg), Some((100, 300, 1000000)));
}

#[test]
fn vote_ties_resolve_to_the_lowest_offset_bin() {
    let keys = vec![1u64, 2];
    let values = vec![10u64, 10];
    let rows = vec![(1u64, 7u64, 30u64), (2, 7, 50)];
    let songs = group_matches(&rows);
    let cfg = MatchConfig::default();
    // bins 20 and 40 each collect 100 votes; the lower bin wins
    assert_eq!(eval_song(&songs[0], &songs, &keys, &values, &cfg), Some((20, 100, 500000)));
}

#[test]
fn shared_hashes_are_weighted_down() {
    // hash 1 occurs in two songs, so each vote carries weight 50
    let rows = vec![(1u64, 5u64, 10u64), (1, 7, 10)];
    let keys = vec![1u64];
    let values = vec![10u64];
    let songs = group_matches(&rows);
    assert_eq!(count_songs_with_hash(&songs, 1), 2);
    let cfg = MatchConfig::default();
    assert_eq!(eval_song(&songs[0], &songs, &keys, &values, &cfg), Some((0, 50, 500000)));
    // both candidates tie at confidence 500000; the first group wins
    assert_eq!(match_song(rows, &keys, &values, None), (500000, 5));
}

#[test]
fn below_threshold_votes_are_discarded() {
    let rows = vec![(1u64, 7u64, 10u64)];
    let keys = vec![1u64];
    let values = vec![10u64];
    let songs = group_matches(&rows);
    let strict = MatchConfig { min_match_threshold: 101, ..MatchConfig::default() };
    // the single vote of weight 100 falls below a threshold of 101
    assert_eq!(eval_song(&songs[0], &songs, &keys, &values, &strict), None);
    let cfg = MatchConfig::default();
    assert_eq!(eval_song(&songs[0], &songs, &keys, &values, &cfg), Some((0, 100, 1000000)));
}

#[test]
fn below_confidence_candidates_are_discarded() {
    let rows = vec![(1u64, 7u64, 10u64), (9u64, 7, 11), (8u64, 7, 12)];
    let keys = vec![1u64];
    let values = vec![10u64];
    let songs = group_matches(&rows);
    // 100 votes over 3 stored fingerprints: confidence 333333
    let strict = MatchConfig { min_confidence_x100: 400000, ..MatchConfig::default() };
    assert_eq!(eval_song(&songs[0], &songs, &keys, &values, &strict), None);
    let cfg = MatchConfig::default();
    assert_eq!(eval_song(&songs[0], &songs, &keys, &values, &cfg), Some((0, 100, 333333)));
}

#[test]
fn grouping_follows_identifier_runs() {
    let rows = vec![
        (10u64, 5u64, 1u64),
        (11, 5, 2),
        (12, 7, 3),
        (13, 9, 4),
        (14, 9, 5),
    ];
    let songs = group_matches(&rows);
    assert_eq!(songs.len(), 3);
    assert_eq!(songs[0].id, 5);
    assert_eq!(songs[0].hashes, vec![10, 11]);
    assert_eq!(songs[0].anchor_times, vec![1, 2]);
    assert_eq!(songs[1].id, 7);
    assert_eq!(songs[2].id, 9);
    assert_eq!(songs[2].hashes, vec![13, 14]);
}

#[test]
fn hashmap_buckets_collect_occurrences_in_order() {
    let mut song = Song::new(7);
    song.add(5, 100);
    song.add(6, 200);
    song.add(5, 300);
    let map = song.create_hashmap();
    assert_eq!(map.len(), 2);
    let five = map.iter().find(|e| e.0 == 5).unwrap();
    assert_eq!(five.1, vec![100, 300]);
    let six = map.iter().find(|e| e.0 == 6).unwrap();
    assert_eq!(six.1, vec![200]);
}

#[test]
fn higher_confidence_wins_regardless_of_order() {
    // song 5 matches once out of three stored rows; song 7 matches its
    // single row exactly: song 7 must win on confidence
    let rows = vec![
        (1u64, 5u64, 10u64),
        (900u64, 5, 11),
        (901u64, 5, 12),
        (2u64, 7, 20),
    ];
    let keys = vec![1u64, 2];
    let values = vec![10u64, 20];
    let (conf, id) = match_song(rows, &keys, &values, None);
    assert_eq!(id, 7);
    assert_eq!(conf, 1000000);
}

#[test]
fn new_sample_copies_the_query() {
    let keys = vec![1u64, 2, 3];
    let values = vec![10u64, 20, 30];
    let sample = Song::new_sample(0, &keys, &values);
    assert_eq!(sample.id, 0);
    assert_eq!(sample.hashes, keys);
    assert_eq!(sample.anchor_times, values);
}


#[test]
fn ranking_orders_by_confidence_and_keeps_ties_stable() {
    let cands = vec![
        (1u64, 0i64, 5u64, 50u64),
        (2, 0, 8, 80),
        (3, 0, 8, 80),
        (4, 0, 1, 10),
    ];
    let ranked = rank_matches(&cands, 7);
    let ids: Vec<u64> = ranked.iter().map(|c| c.0).collect();
    assert_eq!(ids, vec![2, 3, 1, 4]);
    let top_two = rank_matches(&cands, 2);
    assert_eq!(top_two.len(), 2);
    assert_eq!(top_two[0].0, 2);
    assert_eq!(top_two[1].0, 3);
}
