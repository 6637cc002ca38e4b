use memvid_search::entities::{enrich_hits_with_entities, Frame, FrameEntities, FrameIndex};
use memvid_search::types::{Binary32, SearchHit, SearchHitEntity, SearchHitMetadata};

fn hit(frame_id: u64) -> SearchHit {
    SearchHit {
        rank: 1,
        frame_id,
        uri: "doc".to_string(),
        title: None,
        range: (0, 4),
        text: "text".to_string(),
        matches: 1,
        chunk_range: None,
        chunk_text: None,
        score: None,
        metadata: None,
    }
}

fn entity(name: &str) -> SearchHitEntity {
    SearchHitEntity {
        name: name.to_string(),
        kind: "person".to_string(),
        confidence: Some(Binary32 { bits: 5 }),
    }
}

fn entry(frame_id: u64, names: &[&str]) -> FrameEntities {
    FrameEntities {
        frame_id,
        entities: names.iter().map(|name| entity(name)).collect(),
    }
}

/// Frame 0 is a document. Frames 1 and 2 are parts of it, and frame 1 has an entity of its own.
fn index() -> FrameIndex {
    FrameIndex {
        frames: vec![
            Frame { parent_id: None },
            Frame { parent_id: Some(0) },
            Frame { parent_id: Some(0) },
            Frame { parent_id: None },
        ],
        entities: vec![
            entry(0, &["Ada", "Grace"]),
            entry(1, &["Alan"]),
            entry(9, &["Edsger"]),
            entry(0, &["Barbara"]),
        ],
    }
}

fn names(hit: &SearchHit) -> Vec<String> {
    match &hit.metadata {
        Some(metadata) => metadata.entities.iter().map(|e| e.name.clone()).collect(),
        None => Vec::new(),
    }
}

#[test]
fn entities_of_a_frame_are_those_of_its_first_entry() {
    assert_eq!(
        index().frame_entities_for_search(0),
        vec![entity("Ada"), entity("Grace")]
    );
    assert!(index().frame_entities_for_search(2).is_empty());
}

#[test]
fn hits_get_entities_of_the_frame_or_else_of_its_parent() {
    let mut hits = vec![hit(0), hit(1), hit(2), hit(9)];
    enrich_hits_with_entities(&mut hits, &index());
    assert_eq!(names(&hits[0]), vec!["Ada", "Grace"]);
    assert_eq!(names(&hits[1]), vec!["Alan"]);
    assert_eq!(names(&hits[2]), vec!["Ada", "Grace"]);
    assert_eq!(names(&hits[3]), vec!["Edsger"]);
}

#[test]
fn hits_without_entities_stay_as_they_are() {
    let mut hits = vec![hit(3), hit(4), hit(u64::MAX)];
    enrich_hits_with_entities(&mut hits, &index());
    assert_eq!(hits, vec![hit(3), hit(4), hit(u64::MAX)]);
}

#[test]
fn entities_replace_earlier_ones_and_keep_the_rest() {
    let mut old = SearchHitMetadata::default();
    old.tags.push("tag".to_string());
    old.entities.push(entity("Old"));
    let mut one = hit(1);
    one.metadata = Some(old);
    let mut hits = vec![one];
    enrich_hits_with_entities(&mut hits, &index());
    assert_eq!(names(&hits[0]), vec!["Alan"]);
    assert_eq!(hits[0].metadata.as_ref().unwrap().tags, vec!["tag"]);
}

#[test]
fn enriching_twice_is_enriching_once() {
    let mut once = vec![hit(0), hit(2), hit(3)];
    let mut twice = vec![hit(0), hit(2), hit(3)];
    enrich_hits_with_entities(&mut once, &index());
    enrich_hits_with_entities(&mut twice, &index());
    enrich_hits_with_entities(&mut twice, &index());
    assert_eq!(once, twice);
}
