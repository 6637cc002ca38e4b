use memvid_search::decay::{apply_recency_decay, candidate_ages, half_life_decays};
use memvid_search::types::{Binary32, SearchHit};

const DEFAULT_DECAY_HALF_LIFE_SECS: f32 = 86400.0;

fn binary(value: f32) -> Binary32 {
    Binary32 {
        bits: value.to_bits(),
    }
}

fn hit(frame_id: u64, score: f32) -> SearchHit {
    SearchHit {
        rank: 0,
        frame_id,
        uri: String::new(),
        title: None,
        range: (0, 0),
        text: String::new(),
        matches: 0,
        chunk_range: None,
        chunk_text: None,
        score: Some(binary(score)),
        metadata: None,
    }
}

fn score(hit: &SearchHit) -> f32 {
    f32::from_bits(hit.score.unwrap().bits)
}

fn boost(age_seconds: f32, half_life_secs: f32) -> f32 {
    if half_life_decays(binary(half_life_secs)) {
        (-(2.0_f32.ln() / half_life_secs) * age_seconds).exp()
    } else {
        1.0
    }
}

fn decay(candidates: Vec<(i64, SearchHit)>, half_life_secs: f32) -> Vec<SearchHit> {
    let decayed = candidate_ages(&candidates)
        .into_iter()
        .zip(candidates.iter())
        .map(|(age, (_, hit))| {
            let similarity = score(hit);
            let boost = boost(age as f32, half_life_secs);
            binary(similarity * 0.4 + (similarity * boost * 0.6))
        })
        .collect();
    apply_recency_decay(candidates, decayed)
}

fn ranking(scores: &[f32]) -> Vec<u64> {
    let candidates = (0..scores.len()).map(|i| (0, hit(i as u64, 0.0))).collect();
    let ranked = apply_recency_decay(candidates, scores.iter().map(|s| binary(*s)).collect());
    for (k, hit) in ranked.iter().enumerate() {
        assert_eq!(hit.rank, k + 1);
        assert_eq!(hit.score, Some(binary(scores[hit.frame_id as usize])));
    }
    ranked.iter().map(|hit| hit.frame_id).collect()
}

#[test]
fn decay_promotes_recent_over_distant() {
    let now = 1_700_000_000_i64;
    let candidates = vec![(now - 86400 * 7, hit(1, 0.9)), (now, hit(2, 0.85))];
    let result = decay(candidates, DEFAULT_DECAY_HALF_LIFE_SECS);
    assert_eq!(result[0].frame_id, 2, "recent hit should rank first");
    assert_eq!(result[0].rank, 1);
    assert_eq!(result[1].rank, 2);
}

#[test]
fn decay_preserves_order_when_timestamps_equal() {
    let ts = 1_700_000_000_i64;
    let candidates = vec![(ts, hit(1, 0.9)), (ts, hit(2, 0.7)), (ts, hit(3, 0.5))];
    let result = decay(candidates, DEFAULT_DECAY_HALF_LIFE_SECS);
    assert_eq!(result[0].frame_id, 1);
    assert_eq!(result[1].frame_id, 2);
    assert_eq!(result[2].frame_id, 3);
}

#[test]
fn decay_single_candidate_passes_through() {
    let candidates = vec![(1_700_000_000, hit(42, 0.8))];
    let result = decay(candidates, DEFAULT_DECAY_HALF_LIFE_SECS);
    assert_eq!(result.len(), 1);
    assert_eq!(result[0].frame_id, 42);
}

#[test]
fn decay_empty_input() {
    let result = decay(Vec::new(), DEFAULT_DECAY_HALF_LIFE_SECS);
    assert!(result.is_empty());
}

#[test]
fn decay_shorter_half_life_is_more_aggressive() {
    let now = 1_700_000_000_i64;
    let candidates_long = vec![(now - 86400, hit(1, 0.95)), (now, hit(2, 0.7))];
    let candidates_short = vec![(now - 86400, hit(1, 0.95)), (now, hit(2, 0.7))];
    let long_result = decay(candidates_long, 86400.0 * 30.0);
    let short_result = decay(candidates_short, 3600.0);

    let old_score_long = long_result
        .iter()
        .find(|h| h.frame_id == 1)
        .map(score)
        .unwrap();
    let old_score_short = short_result
        .iter()
        .find(|h| h.frame_id == 1)
        .map(score)
        .unwrap();
    assert!(
        old_score_long > old_score_short,
        "longer half-life should penalize old hits less"
    );
}

#[test]
fn only_a_finite_positive_half_life_decays() {
    for bad in [0.0, -0.0, -1.0, f32::NAN, -f32::NAN, f32::INFINITY, f32::NEG_INFINITY] {
        assert!(!half_life_decays(binary(bad)), "{bad}");
    }
    for good in [f32::MIN_POSITIVE, 1.0e-45, 1.0, 86400.0, f32::MAX] {
        assert!(half_life_decays(binary(good)), "{good}");
    }
}

#[test]
fn numbers_are_compared_by_value() {
    let values = [
        f32::NEG_INFINITY,
        f32::MIN,
        -1.5,
        -1.0e-45,
        -0.0,
        0.0,
        1.0e-45,
        f32::MIN_POSITIVE,
        0.5,
        1.0,
        f32::MAX,
        f32::INFINITY,
        f32::NAN,
        -f32::NAN,
    ];
    for a in values {
        assert_eq!(binary(a).is_nan(), a.is_nan(), "{a}");
        assert_eq!(binary(a).is_finite(), a.is_finite(), "{a}");
        for b in values {
            assert_eq!(binary(a).is_greater_than(binary(b)), a > b, "{a} {b}");
        }
    }
}

#[test]
fn ages_count_from_the_latest_candidate() {
    let candidates = vec![(5, hit(1, 0.0)), (-3, hit(2, 0.0)), (12, hit(3, 0.0))];
    assert_eq!(candidate_ages(&candidates), vec![7, 15, 0]);
    assert_eq!(
        candidate_ages(&[(i64::MIN, hit(1, 0.0)), (-1, hit(2, 0.0))]),
        vec![i64::MAX, 0]
    );
    assert!(candidate_ages(&[]).is_empty());
}

#[test]
fn a_single_candidate_keeps_score_and_rank() {
    let mut only = hit(42, 0.8);
    only.rank = 9;
    let result = apply_recency_decay(vec![(0, only)], Vec::new());
    assert_eq!(result[0].rank, 9);
    assert_eq!(result[0].score, Some(binary(0.8)));
}

#[test]
fn candidates_are_ranked_by_score() {
    assert_eq!(
        ranking(&[0.5, -1.0, 2.0, f32::INFINITY, 0.25]),
        vec![3, 2, 0, 4, 1]
    );
}

#[test]
fn equal_scores_keep_their_order() {
    assert_eq!(ranking(&[1.0, 2.0, 1.0, 2.0]), vec![1, 3, 0, 2]);
    assert_eq!(ranking(&[-0.0, 0.0, -0.0]), vec![0, 1, 2]);
    assert_eq!(ranking(&[f32::NAN, 1.0, f32::NAN, 1.0]), vec![0, 1, 2, 3]);
}

#[test]
fn scores_that_cannot_be_ordered_lose_no_candidate() {
    let mut found = ranking(&[1.0, f32::NAN, 2.0, f32::NAN, 0.5]);
    found.sort_unstable();
    assert_eq!(found, vec![0, 1, 2, 3, 4]);
}
