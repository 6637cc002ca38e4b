use memvid_search::temporal::{
    attach_temporal_metadata, frames_to_read, trimmed_text, FrameContent, TemporalAnchor,
    TemporalMention, TemporalTrack,
};
use memvid_search::types::{
    AnchorSource, MemvidError, SearchHit, SearchHitMetadata, SearchHitTemporal,
    SearchHitTemporalAnchor, SearchHitTemporalMention, TemporalMentionFlags, TemporalMentionKind,
};

fn hit(frame_id: u64, range: (usize, usize)) -> SearchHit {
    SearchHit {
        rank: 1,
        frame_id,
        uri: "doc".to_string(),
        title: None,
        range,
        text: "text".to_string(),
        matches: 1,
        chunk_range: None,
        chunk_text: None,
        score: None,
        metadata: None,
    }
}

fn anchor(frame_id: u64, anchor_ts: i64) -> TemporalAnchor {
    TemporalAnchor {
        frame_id,
        anchor_ts,
        source: AnchorSource::Metadata,
    }
}

fn mention(frame_id: u64, byte_start: u32, byte_len: u32) -> TemporalMention {
    TemporalMention {
        frame_id,
        ts_utc: 86_400,
        byte_start,
        byte_len,
        kind: TemporalMentionKind::Date,
        confidence: 700,
        flags: TemporalMentionFlags { bits: 3 },
    }
}

fn content(frame_id: u64, text: &str) -> FrameContent {
    FrameContent {
        frame_id,
        text: Some(text.to_string()),
    }
}

fn unreadable(frame_id: u64) -> FrameContent {
    FrameContent {
        frame_id,
        text: None,
    }
}

fn temporal(hit: &SearchHit) -> Option<&SearchHitTemporal> {
    hit.metadata.as_ref().and_then(|m| m.temporal.as_ref())
}

fn texts(hit: &SearchHit) -> Vec<Option<String>> {
    match temporal(hit) {
        Some(temporal) => temporal.mentions.iter().map(|m| m.text.clone()).collect(),
        None => Vec::new(),
    }
}

#[test]
fn without_a_track_hits_stay_as_they_are() {
    let mut hits = vec![hit(1, (0, 9))];
    assert_eq!(attach_temporal_metadata(None, &[], &mut hits), Ok(()));
    assert_eq!(hits, vec![hit(1, (0, 9))]);
}

#[test]
fn hits_get_the_first_anchor_of_their_frame() {
    let track = TemporalTrack {
        anchors: vec![anchor(2, 5), anchor(1, 0), anchor(1, 60)],
        mentions: Vec::new(),
    };
    let mut hits = vec![hit(1, (0, 9)), hit(3, (0, 9))];
    assert_eq!(
        attach_temporal_metadata(Some(&track), &[], &mut hits),
        Ok(())
    );
    assert_eq!(
        temporal(&hits[0]),
        Some(&SearchHitTemporal {
            anchor: Some(SearchHitTemporalAnchor {
                ts_utc: 0,
                iso_8601: Some("1970-01-01T00:00:00Z".to_string()),
                source: AnchorSource::Metadata,
            }),
            mentions: Vec::new(),
        })
    );
    assert_eq!(hits[1].metadata, Some(SearchHitMetadata::default()));
    assert_eq!(track.anchor_for_frame(1), Some(anchor(1, 0)));
    assert_eq!(track.anchor_for_frame(7), None);
}

#[test]
fn hits_get_the_mentions_that_overlap_them() {
    let track = TemporalTrack {
        anchors: Vec::new(),
        mentions: vec![
            mention(1, 0, 4),
            mention(1, 6, 6),
            mention(2, 6, 6),
            mention(1, 5, 0),
            mention(1, 12, 3),
            mention(1, 3, 1),
        ],
    };
    let mut hits = vec![hit(1, (4, 12))];
    let contents = vec![content(1, "abcd, 2 May 1 xyz")];
    assert_eq!(
        attach_temporal_metadata(Some(&track), &contents, &mut hits),
        Ok(())
    );
    assert_eq!(
        temporal(&hits[0]),
        Some(&SearchHitTemporal {
            anchor: None,
            mentions: vec![SearchHitTemporalMention {
                ts_utc: 86_400,
                iso_8601: Some("1970-01-02T00:00:00Z".to_string()),
                kind: TemporalMentionKind::Date,
                confidence: 700,
                flags: TemporalMentionFlags { bits: 3 },
                text: Some("2 May".to_string()),
                byte_start: 6,
                byte_len: 6,
            }],
        })
    );
}

#[test]
fn mentions_without_readable_text_have_none() {
    let track = TemporalTrack {
        anchors: Vec::new(),
        mentions: vec![
            mention(1, 0, 2),
            mention(1, 3, 3),
            mention(1, 3, 4),
            mention(1, u32::MAX, u32::MAX),
            mention(2, 0, 2),
        ],
    };
    let mut hits = vec![hit(1, (0, usize::MAX)), hit(2, (0, 4))];
    let contents = vec![content(1, "  abcd")];
    assert_eq!(
        attach_temporal_metadata(Some(&track), &contents, &mut hits),
        Ok(())
    );
    assert_eq!(
        texts(&hits[0]),
        vec![None, Some("bcd".to_string()), None, None]
    );
    assert_eq!(texts(&hits[1]), vec![None]);
}

#[test]
fn broken_characters_are_replaced() {
    let track = TemporalTrack {
        anchors: Vec::new(),
        mentions: vec![mention(1, 1, 3), mention(1, 0, 2), mention(1, 3, 3)],
    };
    let mut hits = vec![hit(1, (0, 9))];
    let contents = vec![content(1, "\u{e9}a\u{20ac}")];
    assert_eq!(
        attach_temporal_metadata(Some(&track), &contents, &mut hits),
        Ok(())
    );
    assert_eq!(
        texts(&hits[0]),
        vec![
            Some("\u{fffd}a\u{fffd}".to_string()),
            Some("\u{e9}".to_string()),
            Some("\u{20ac}".to_string()),
        ]
    );
}

#[test]
fn times_that_are_known_already_are_kept_where_none_are_found() {
    let mut metadata = SearchHitMetadata::default();
    metadata.labels.push("label".to_string());
    metadata.temporal = Some(SearchHitTemporal::default());
    let mut one = hit(1, (0, 9));
    one.metadata = Some(metadata);
    let mut hits = vec![one];
    let track = TemporalTrack {
        anchors: Vec::new(),
        mentions: Vec::new(),
    };
    assert_eq!(
        attach_temporal_metadata(Some(&track), &[], &mut hits),
        Ok(())
    );
    assert_eq!(temporal(&hits[0]), Some(&SearchHitTemporal::default()));
    assert_eq!(hits[0].metadata.as_ref().unwrap().labels, vec!["label"]);
}

#[test]
fn work_stops_at_content_that_cannot_be_read() {
    let track = TemporalTrack {
        anchors: vec![anchor(1, 0), anchor(2, 0), anchor(3, 0)],
        mentions: vec![mention(2, 0, 2)],
    };
    let mut hits = vec![hit(1, (0, 4)), hit(2, (4, 8)), hit(2, (0, 4)), hit(3, (0, 4))];
    assert_eq!(
        attach_temporal_metadata(Some(&track), &[unreadable(2)], &mut hits),
        Err(MemvidError::FrameUnreadable { frame_id: 2 })
    );
    assert!(temporal(&hits[0]).is_some());
    assert!(temporal(&hits[1]).is_some());
    assert_eq!(hits[2].metadata, Some(SearchHitMetadata::default()));
    assert_eq!(hits[3], hit(3, (0, 4)));
}

#[test]
fn content_that_is_not_needed_may_be_unreadable() {
    let track = TemporalTrack {
        anchors: Vec::new(),
        mentions: vec![mention(2, 0, 2)],
    };
    let mut hits = vec![hit(2, (4, 8))];
    assert_eq!(
        attach_temporal_metadata(Some(&track), &[unreadable(2)], &mut hits),
        Ok(())
    );
    assert_eq!(hits[0].metadata, Some(SearchHitMetadata::default()));
}

#[test]
fn what_lies_behind_unreadable_content_makes_no_difference() {
    let track = TemporalTrack {
        anchors: Vec::new(),
        mentions: vec![mention(1, 0, 2), mention(2, 0, 2), mention(3, 0, 2)],
    };
    let given = || vec![hit(1, (0, 4)), hit(2, (0, 4)), hit(3, (0, 4)), hit(1, (0, 4))];
    let mut short = given();
    let mut long = given();
    let stopped = vec![content(1, "ab"), unreadable(2)];
    let all = vec![content(1, "ab"), unreadable(2), content(3, "ef")];
    assert_eq!(
        attach_temporal_metadata(Some(&track), &stopped, &mut short),
        attach_temporal_metadata(Some(&track), &all, &mut long)
    );
    assert_eq!(short, long);
    assert_eq!(texts(&short[0]), vec![Some("ab".to_string())]);
    assert_eq!(short[3], hit(1, (0, 4)));
}

#[test]
fn frames_are_read_once_and_only_where_needed() {
    let track = TemporalTrack {
        anchors: vec![anchor(4, 0)],
        mentions: vec![mention(3, 0, 2), mention(1, 2, 2), mention(2, 0, 0)],
    };
    let hits = vec![
        hit(4, (0, 9)),
        hit(1, (0, 2)),
        hit(3, (0, 9)),
        hit(1, (0, 9)),
        hit(2, (0, 9)),
        hit(3, (1, 2)),
    ];
    assert_eq!(frames_to_read(&track, &hits), vec![3, 1]);
    assert!(frames_to_read(&track, &[]).is_empty());
}

#[test]
fn attaching_twice_is_attaching_once() {
    let track = TemporalTrack {
        anchors: vec![anchor(1, -1)],
        mentions: vec![mention(1, 0, 2), mention(2, 0, 2)],
    };
    let contents = vec![content(1, "ab"), content(2, "cd")];
    let mut once = vec![hit(1, (0, 4)), hit(2, (0, 4)), hit(3, (0, 4))];
    assert_eq!(
        attach_temporal_metadata(Some(&track), &contents, &mut once),
        Ok(())
    );
    let mut twice = vec![hit(1, (0, 4)), hit(2, (0, 4)), hit(3, (0, 4))];
    for _ in 0..2 {
        assert_eq!(
            attach_temporal_metadata(Some(&track), &contents, &mut twice),
            Ok(())
        );
    }
    assert_eq!(once, twice);
}

#[test]
fn text_is_trimmed_or_dropped() {
    assert_eq!(trimmed_text(" \u{2009}a b\n"), Some("a b".to_string()));
    assert_eq!(trimmed_text("ab"), Some("ab".to_string()));
    assert_eq!(trimmed_text(" \u{85} "), None);
    assert_eq!(trimmed_text(""), None);
}
