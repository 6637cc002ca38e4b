use memvid_search::tokens::{
    collect_token_occurrences, reorder_hits_by_token_matches, token_match_metrics, TokenMetrics,
};
use memvid_search::types::SearchHit;

fn hit(frame_id: u64, rank: usize, text: &str) -> SearchHit {
    SearchHit {
        rank,
        frame_id,
        uri: String::new(),
        title: None,
        range: (0, 0),
        text: text.to_string(),
        matches: 0,
        chunk_range: None,
        chunk_text: None,
        score: None,
        metadata: None,
    }
}

fn tokens(list: &[&str]) -> Vec<String> {
    list.iter().map(|token| token.to_string()).collect()
}

fn order(hits: &[SearchHit]) -> Vec<(u64, usize)> {
    hits.iter().map(|hit| (hit.frame_id, hit.rank)).collect()
}

#[test]
fn occurrences_of_one_token_do_not_overlap() {
    assert_eq!(
        collect_token_occurrences("abababa", &tokens(&["aba"])),
        vec![(0, 3), (4, 7)]
    );
    assert_eq!(
        collect_token_occurrences("aaaa", &tokens(&["aa"])),
        vec![(0, 2), (2, 4)]
    );
}

#[test]
fn occurrences_are_sorted_and_listed_once() {
    assert_eq!(
        collect_token_occurrences("abcab", &tokens(&["cab", " ab ", "ab", "a"])),
        vec![(0, 1), (0, 2), (2, 5), (3, 4), (3, 5)]
    );
}

#[test]
fn blank_tokens_do_not_occur() {
    assert!(collect_token_occurrences("a b", &tokens(&["", " ", "\u{2003}"])).is_empty());
    assert!(collect_token_occurrences("", &tokens(&["a"])).is_empty());
    assert!(collect_token_occurrences("abc", &[]).is_empty());
    assert!(collect_token_occurrences("ab", &tokens(&["abc"])).is_empty());
}

#[test]
fn occurrences_are_byte_ranges() {
    let content = "\u{e9}a \u{e9}\u{20ac}";
    let found = collect_token_occurrences(content, &tokens(&["\u{e9}", "\u{20ac}"]));
    assert_eq!(found, vec![(0, 2), (4, 6), (6, 9)]);
    for (start, end) in found {
        assert!(content.is_char_boundary(start) && content.is_char_boundary(end));
    }
}

#[test]
fn occurrences_respect_letter_case() {
    assert_eq!(
        collect_token_occurrences("rust RUST", &tokens(&["rust"])),
        vec![(0, 4)]
    );
}

#[test]
fn metrics_count_tokens_and_measure_their_span() {
    let found = token_match_metrics(
        &hit(1, 1, "Rust and RUST verus"),
        &tokens(&["rust", "verus", "none"]),
    );
    assert_eq!(
        found,
        TokenMetrics {
            unique_tokens: 2,
            total_occurrences: 3,
            tightest_span: 14,
        }
    );
}

#[test]
fn metrics_of_fewer_than_two_occurrences_have_no_span() {
    let text = hit(1, 1, "only once");
    assert_eq!(
        token_match_metrics(&text, &tokens(&["once"])),
        TokenMetrics {
            unique_tokens: 1,
            total_occurrences: 1,
            tightest_span: usize::MAX,
        }
    );
    assert_eq!(
        token_match_metrics(&text, &tokens(&["Once", "zzz"])),
        TokenMetrics {
            unique_tokens: 0,
            total_occurrences: 0,
            tightest_span: usize::MAX,
        }
    );
    assert_eq!(
        token_match_metrics(&text, &tokens(&["once", "once"])),
        TokenMetrics {
            unique_tokens: 2,
            total_occurrences: 2,
            tightest_span: 0,
        }
    );
}

#[test]
fn metrics_prefer_the_text_of_the_chunk() {
    let mut chunk = hit(1, 1, "alpha");
    chunk.chunk_text = Some("BETA beta".to_string());
    assert_eq!(
        token_match_metrics(&chunk, &tokens(&["alpha", "beta"])),
        TokenMetrics {
            unique_tokens: 1,
            total_occurrences: 2,
            tightest_span: 5,
        }
    );
}

#[test]
fn tokens_are_not_trimmed_for_metrics() {
    assert_eq!(
        token_match_metrics(&hit(1, 1, "ab ab"), &tokens(&["ab "])).total_occurrences,
        1
    );
}

#[test]
fn hits_are_ordered_by_how_well_they_match() {
    let mut hits = vec![
        hit(1, 1, "nothing"),
        hit(2, 2, "a b"),
        hit(3, 3, "a a a a"),
        hit(4, 4, "a b a"),
        hit(5, 5, "a  b"),
    ];
    let query = tokens(&["a", "b"]);
    reorder_hits_by_token_matches(&mut hits, &query);
    assert_eq!(order(&hits), vec![(4, 1), (2, 2), (5, 3), (3, 4), (1, 5)]);
    reorder_hits_by_token_matches(&mut hits, &query);
    assert_eq!(order(&hits), vec![(4, 1), (2, 2), (5, 3), (3, 4), (1, 5)]);
}

#[test]
fn hits_that_match_alike_are_ordered_by_rank_then_position() {
    let mut hits = vec![hit(1, 7, "a"), hit(2, 3, "a"), hit(3, 7, "a"), hit(4, 3, "A")];
    reorder_hits_by_token_matches(&mut hits, &tokens(&["a"]));
    assert_eq!(order(&hits), vec![(2, 1), (4, 2), (1, 3), (3, 4)]);
}

#[test]
fn many_hits_are_all_kept() {
    let mut hits: Vec<SearchHit> = (0..100u64)
        .map(|i| hit(i, 1, &"x ".repeat((i * 37 % 100) as usize)))
        .collect();
    reorder_hits_by_token_matches(&mut hits, &tokens(&["x"]));
    for k in 0..100usize {
        assert_eq!(hits[k].rank, k + 1);
        assert_eq!(hits[k].frame_id * 37 % 100, 99 - k as u64);
    }
}

#[test]
fn without_tokens_hits_stay_as_they_are() {
    let mut hits = vec![hit(1, 7, "b"), hit(2, 3, "a")];
    reorder_hits_by_token_matches(&mut hits, &[]);
    assert_eq!(order(&hits), vec![(1, 7), (2, 3)]);
    let mut none: Vec<SearchHit> = Vec::new();
    reorder_hits_by_token_matches(&mut none, &tokens(&["a"]));
    assert!(none.is_empty());
}

#[test]
fn a_single_hit_gets_the_first_rank() {
    let mut hits = vec![hit(1, 7, "b")];
    reorder_hits_by_token_matches(&mut hits, &tokens(&[""]));
    assert_eq!(order(&hits), vec![(1, 1)]);
}

#[test]
fn the_order_in_which_ranked_hits_are_given_makes_no_difference() {
    let query = tokens(&["a", "b"]);
    let given = || {
        vec![
            hit(1, 4, "a"),
            hit(2, 2, "b"),
            hit(3, 3, "a b"),
            hit(4, 1, "none"),
        ]
    };
    let mut hits = given();
    let mut reversed = given();
    reversed.reverse();
    reorder_hits_by_token_matches(&mut hits, &query);
    reorder_hits_by_token_matches(&mut reversed, &query);
    assert_eq!(order(&hits), vec![(3, 1), (2, 2), (1, 3), (4, 4)]);
    assert_eq!(hits, reversed);
}

#[test]
fn only_the_set_of_trimmed_tokens_counts() {
    let content = "one two one";
    assert_eq!(
        collect_token_occurrences(content, &tokens(&["one", "two"])),
        collect_token_occurrences(content, &tokens(&[" two", "one ", "", "one", "two\n"]))
    );
}
