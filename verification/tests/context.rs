use memvid_search::context::{build_context, render_hit, MAX_CONTEXT_HITS};
use memvid_search::types::{empty_search_response, SearchEngineKind, SearchHit, SearchParams};

fn hit(rank: usize, uri: &str, matches: usize) -> SearchHit {
    SearchHit {
        rank,
        frame_id: 0,
        uri: uri.to_string(),
        title: None,
        range: (0, 0),
        text: "body".to_string(),
        matches,
        chunk_range: None,
        chunk_text: None,
        score: None,
        metadata: None,
    }
}

fn headings(context: &str) -> Vec<String> {
    context
        .lines()
        .filter(|line| line.starts_with("### ["))
        .map(|line| line.to_string())
        .collect()
}

fn holds(context: &str, rank: usize, uri: &str) -> bool {
    headings(context).contains(&format!("### [{rank}] {uri} \u{2014} {uri}"))
}

#[test]
fn hits_are_rendered_with_title_text_and_matches() {
    let mut one = hit(12, "mv2://docs/a#p1", 305);
    one.title = Some("A title".to_string());
    assert_eq!(
        render_hit(&one),
        "### [12] docs/a#p1 \u{2014} A title\nbody\n(matches: 305)"
    );
    assert_eq!(
        render_hit(&hit(0, "MV2://docs/a", 0)),
        "### [0] MV2://docs/a \u{2014} MV2://docs/a\nbody\n(matches: 0)"
    );
    assert_eq!(
        render_hit(&hit(usize::MAX, "mv2://", 1)),
        format!("### [{}]  \u{2014} \nbody\n(matches: 1)", usize::MAX)
    );
}

#[test]
fn no_hits_make_no_context() {
    assert_eq!(build_context(&[]), "");
}

#[test]
fn context_joins_hits_in_the_given_order() {
    let hits = vec![hit(2, "mv2://b", 1), hit(1, "mv2://a", 4)];
    assert_eq!(
        build_context(&hits),
        "### [2] b \u{2014} b\nbody\n(matches: 1)\n\n### [1] a \u{2014} a\nbody\n(matches: 4)"
    );
}

#[test]
fn few_hits_are_all_in_the_context() {
    let hits: Vec<SearchHit> = (1..=MAX_CONTEXT_HITS)
        .map(|rank| hit(rank, "doc", 1))
        .collect();
    let context = build_context(&hits);
    assert_eq!(headings(&context).len(), 24);
    for rank in 1..=24 {
        assert!(holds(&context, rank, "doc"));
    }
}

#[test]
fn context_is_bounded_and_prefers_the_best_documents() {
    let hits: Vec<SearchHit> = (0..30usize)
        .map(|i| hit(30 - i, &format!("doc{i:02}"), 1))
        .collect();
    let context = build_context(&hits);
    assert_eq!(headings(&context).len(), MAX_CONTEXT_HITS);
    for i in 0..30usize {
        assert_eq!(holds(&context, 30 - i, &format!("doc{i:02}")), i >= 6);
    }
}

#[test]
fn every_document_comes_before_further_hits() {
    let mut hits: Vec<SearchHit> = (1..=25usize).map(|rank| hit(rank, "long", 9)).collect();
    hits.push(hit(26, "short", 1));
    let context = build_context(&hits);
    assert_eq!(headings(&context).len(), 24);
    assert!(holds(&context, 26, "short"));
    for rank in 1..=25usize {
        assert_eq!(holds(&context, rank, "long"), rank <= 23);
    }
}

#[test]
fn further_hits_are_taken_by_rank_then_position() {
    let mut hits: Vec<SearchHit> = vec![hit(9, "a#first", 1)];
    for i in 0..23usize {
        hits.push(hit(5, &format!("a#{i:02}"), 1));
    }
    hits.push(hit(1, "a#last", 1));
    hits.push(hit(5, "a#late", 1));
    let context = build_context(&hits);
    assert_eq!(headings(&context).len(), 24);
    assert!(!holds(&context, 9, "a#first"));
    assert!(holds(&context, 1, "a#last"));
    assert!(holds(&context, 5, "a#22"));
    assert!(!holds(&context, 5, "a#late"));
}

#[test]
fn documents_of_one_rank_are_taken_by_matches_then_uri() {
    let mut hits: Vec<SearchHit> = (0..25usize)
        .map(|i| hit(5, &format!("doc{:02}", 24 - i), i % 2))
        .collect();
    let context = build_context(&hits);
    assert!(!holds(&context, 5, "doc24"));
    assert!(holds(&context, 5, "doc23"));
    hits[0].matches = 2;
    let context = build_context(&hits);
    assert!(holds(&context, 5, "doc24"));
    assert!(!holds(&context, 5, "doc23"));
}

#[test]
fn fragments_and_letter_case_name_one_document() {
    let mut hits = vec![hit(1, "Doc#a", 1), hit(2, "dOC#b", 1), hit(3, "doc", 1)];
    for i in 0..23usize {
        hits.push(hit(10 + i, &format!("other{i:02}"), 1));
    }
    let context = build_context(&hits);
    assert_eq!(headings(&context).len(), 24);
    assert!(holds(&context, 1, "Doc#a"));
    assert!(!holds(&context, 2, "dOC#b"));
    assert!(!holds(&context, 3, "doc"));
    assert!(holds(&context, 32, "other22"));
}

#[test]
fn documents_are_represented_by_their_best_hit() {
    let mut hits = vec![hit(2, "doc#worse", 1), hit(1, "doc#better", 1)];
    for i in 0..23usize {
        hits.push(hit(10 + i, &format!("other{i:02}"), 1));
    }
    let context = build_context(&hits);
    assert!(holds(&context, 1, "doc#better"));
    assert!(!holds(&context, 2, "doc#worse"));
    hits.swap(0, 1);
    let context = build_context(&hits);
    assert!(holds(&context, 1, "doc#better"));
    assert!(!holds(&context, 2, "doc#worse"));
}

#[test]
fn the_top_hit_is_in_the_context() {
    let mut hits = vec![hit(25, "mv2://a", 1), hit(1, "mv2://a", 1)];
    for rank in 2..=24usize {
        hits.push(hit(rank, &format!("mv2://d{rank}"), 1));
    }
    let expected: Vec<String> = hits[1..].iter().map(render_hit).collect();
    assert_eq!(build_context(&hits), expected.join("\n\n"));
}

#[test]
fn of_equal_ranks_the_earliest_hit_represents_the_document() {
    let mut hits = vec![
        hit(9, "doc#worse", 1),
        hit(usize::MAX, "last#early", 1),
        hit(3, "doc#early", 1),
        hit(3, "doc#late", 1),
        hit(usize::MAX, "last#late", 1),
    ];
    for i in 0..22usize {
        hits.push(hit(10 + i, &format!("other{i:02}"), 1));
    }
    let context = build_context(&hits);
    assert_eq!(headings(&context).len(), 24);
    assert!(holds(&context, 3, "doc#early"));
    assert!(!holds(&context, 3, "doc#late"));
    assert!(!holds(&context, 9, "doc#worse"));
    assert!(holds(&context, usize::MAX, "last#early"));
    assert!(!holds(&context, usize::MAX, "last#late"));
}

#[test]
fn selection_goes_by_document_rank_and_matches() {
    let mut hits: Vec<SearchHit> = (0..30usize)
        .map(|i| hit(i * 7 % 30, &format!("doc{:02}", i % 27), i % 3))
        .collect();
    let before = headings(&build_context(&hits));
    for hit in &mut hits {
        hit.text = "other".to_string();
        hit.frame_id = 7;
        hit.range = (3, 9);
        hit.chunk_text = Some("chunk".to_string());
    }
    assert_eq!(headings(&build_context(&hits)), before);
}

#[test]
fn a_search_that_finds_nothing_says_so() {
    let params = SearchParams {
        top_k: 3,
        snippet_chars: 80,
        cursor: Some("2".to_string()),
    };
    let response =
        empty_search_response("query".to_string(), params, 17, SearchEngineKind::Hybrid);
    assert_eq!(response.query, "query");
    assert_eq!(response.elapsed_ms, 17);
    assert_eq!(response.total_hits, 0);
    assert_eq!(response.params.top_k, 3);
    assert_eq!(response.params.snippet_chars, 80);
    assert_eq!(response.params.cursor.as_deref(), Some("2"));
    assert!(response.hits.is_empty());
    assert_eq!(response.context, "");
    assert_eq!(response.next_cursor, None);
    assert_eq!(response.engine, SearchEngineKind::Hybrid);
    assert_eq!(response.stale_index_skips, 0);
}
