//! The times of hits: when their frames are from, and which times they mention.
//!
//! Reading the content of a frame can fail and is left to the caller. [`frames_to_read`] says which
//! frames to read, and in which order; [`attach_temporal_metadata`] takes what was read.
use vstd::prelude::*;
use vstd::slice::slice_subrange;
use vstd::utf8::encode_utf8;

use crate::calendar::{timestamp_text, timestamp_to_rfc3339};
use crate::text::{decode_lossy, lemma_trim_idempotent, lossy_utf8, trim, trim_str};
use crate::types::{
    metadata_or_none, same_but_metadata, text_of, AnchorSource, AnchorView, FrameId, MemvidError,
    MentionView, MetadataView, SearchHit, SearchHitMetadata, SearchHitTemporal,
    SearchHitTemporalAnchor, SearchHitTemporalMention, TemporalMentionFlags, TemporalMentionKind,
    TemporalView,
};

verus! {

/// The time that a frame is anchored at.
#[derive(Debug, Clone, Copy, PartialEq, Eq)]
pub struct TemporalAnchor {
    pub frame_id: FrameId,
    pub anchor_ts: i64,
    pub source: AnchorSource,
}

/// A time that the content of a frame mentions, and where it does so.
#[derive(Debug, Clone, Copy, PartialEq, Eq)]
pub struct TemporalMention {
    pub frame_id: FrameId,
    pub ts_utc: i64,
    pub byte_start: u32,
    pub byte_len: u32,
    pub kind: TemporalMentionKind,
    pub confidence: u16,
    pub flags: TemporalMentionFlags,
}

/// All that an archive knows of times.
#[derive(Debug, PartialEq, Eq)]
pub struct TemporalTrack {
    pub anchors: Vec<TemporalAnchor>,
    pub mentions: Vec<TemporalMention>,
}

/// What came of reading a frame: its content, or nothing where reading failed.
#[derive(Debug, PartialEq, Eq)]
pub struct FrameContent {
    pub frame_id: FrameId,
    pub text: Option<String>,
}

/// What is known of the content of a frame.
pub enum Content {
    /// There is no such frame any more.
    Stale,
    /// The frame could not be read.
    Unreadable,
    /// The frame was read.
    Text(Seq<char>),
}

/// What a list of frames that were read has for a frame. One that is not listed is stale.
pub open spec fn content_of(contents: Seq<FrameContent>, frame_id: FrameId) -> Content
    decreases contents.len(),
{
    if contents.len() == 0 {
        Content::Stale
    } else if contents[0].frame_id == frame_id {
        match contents[0].text {
            Some(text) => Content::Text(text@),
            None => Content::Unreadable,
        }
    } else {
        content_of(contents.drop_first(), frame_id)
    }
}

/// The anchor of a frame: the first one in the list.
pub open spec fn anchor_of(anchors: Seq<TemporalAnchor>, frame_id: FrameId) -> Option<
    TemporalAnchor,
>
    decreases anchors.len(),
{
    if anchors.len() == 0 {
        None
    } else if anchors[0].frame_id == frame_id {
        Some(anchors[0])
    } else {
        anchor_of(anchors.drop_first(), frame_id)
    }
}

/// The byte behind a mention, which is no greater than the machine can count.
pub open spec fn mention_end(mention: TemporalMention) -> int {
    if mention.byte_start + mention.byte_len > usize::MAX {
        usize::MAX as int
    } else {
        mention.byte_start + mention.byte_len
    }
}

/// Whether a mention is not empty, lies in the frame of a hit and overlaps the hit.
pub open spec fn concerns(mention: TemporalMention, hit: SearchHit) -> bool {
    &&& mention.frame_id == hit.frame_id
    &&& mention.byte_start != mention_end(mention)
    &&& hit.range.0 < mention_end(mention)
    &&& mention.byte_start < hit.range.1
}

/// Whether the content of a hit's frame is needed: for the text of a mention.
pub open spec fn needs_content(track: TemporalTrack, hit: SearchHit) -> bool {
    exists|m: int|
        0 <= m < track.mentions@.len() && concerns(#[trigger] track.mentions@[m], hit)
}

/// The frames whose content is needed for hits, in the order in which they are first needed.
pub open spec fn frames_needed(track: TemporalTrack, hits: Seq<SearchHit>) -> Seq<FrameId>
    decreases hits.len(),
{
    if hits.len() == 0 {
        seq![]
    } else {
        let earlier = frames_needed(track, hits.drop_last());
        let hit = hits.last();
        if needs_content(track, hit) && !earlier.contains(hit.frame_id) {
            earlier.push(hit.frame_id)
        } else {
            earlier
        }
    }
}

/// A string without the white space round it, unless nothing is left of it.
pub open spec fn trimmed_or_none(raw: Seq<char>) -> Option<Seq<char>> {
    if trim(raw).len() == 0 {
        None
    } else {
        Some(trim(raw))
    }
}

/// The text of a mention, if the content is known and reaches so far, and the text is not blank.
pub open spec fn mention_text(mention: TemporalMention, content: Content) -> Option<Seq<char>> {
    match content {
        Content::Text(text) => if mention_end(mention) <= encode_utf8(text).len() {
            trimmed_or_none(
                lossy_utf8(
                    encode_utf8(text).subrange(mention.byte_start as int, mention_end(mention)),
                ),
            )
        } else {
            None
        },
        _ => None,
    }
}

/// A mention as a hit shows it.
pub open spec fn mention_view(mention: TemporalMention, content: Content) -> MentionView {
    MentionView {
        ts_utc: mention.ts_utc,
        iso_8601: timestamp_text(mention.ts_utc as int),
        kind: mention.kind,
        confidence: mention.confidence,
        flags: mention.flags,
        text: mention_text(mention, content),
        byte_start: mention.byte_start,
        byte_len: mention.byte_len,
    }
}

/// The mentions that concern a hit, in their order.
pub open spec fn hit_mentions(
    mentions: Seq<TemporalMention>,
    hit: SearchHit,
    content: Content,
) -> Seq<MentionView>
    decreases mentions.len(),
{
    if mentions.len() == 0 {
        seq![]
    } else {
        let earlier = hit_mentions(mentions.drop_last(), hit, content);
        if concerns(mentions.last(), hit) {
            earlier.push(mention_view(mentions.last(), content))
        } else {
            earlier
        }
    }
}

/// An anchor as a hit shows it.
pub open spec fn anchor_view(anchor: TemporalAnchor) -> AnchorView {
    AnchorView {
        ts_utc: anchor.anchor_ts,
        iso_8601: timestamp_text(anchor.anchor_ts as int),
        source: anchor.source,
    }
}

/// The times of a hit.
pub open spec fn hit_temporal(
    track: TemporalTrack,
    hit: SearchHit,
    content: Content,
) -> TemporalView {
    TemporalView {
        anchor: match anchor_of(track.anchors@, hit.frame_id) {
            Some(anchor) => Some(anchor_view(anchor)),
            None => None,
        },
        mentions: hit_mentions(track.mentions@, hit, content),
    }
}

/// The metadata of a hit with its times. A hit without any keeps what its metadata said of times.
pub open spec fn with_times(
    track: TemporalTrack,
    contents: Seq<FrameContent>,
    hit: SearchHit,
) -> MetadataView {
    let temporal = hit_temporal(track, hit, content_of(contents, hit.frame_id));
    if temporal.anchor is Some || temporal.mentions.len() > 0 {
        MetadataView { temporal: Some(temporal), ..metadata_or_none(hit) }
    } else {
        metadata_or_none(hit)
    }
}

/// Whether a hit needs content that could not be read.
pub open spec fn is_blocked(
    track: TemporalTrack,
    contents: Seq<FrameContent>,
    hit: SearchHit,
) -> bool {
    needs_content(track, hit) && content_of(contents, hit.frame_id) is Unreadable
}

/// Whether no hit before the `i`-th needs content that could not be read.
pub open spec fn is_reached(
    track: TemporalTrack,
    contents: Seq<FrameContent>,
    hits: Seq<SearchHit>,
    i: int,
) -> bool {
    forall|j: int| 0 <= j < i ==> !is_blocked(track, contents, #[trigger] hits[j])
}

/// Whether `after` is the hit `before` with metadata that reads as given.
pub open spec fn has_metadata(before: SearchHit, after: SearchHit, metadata: MetadataView) -> bool {
    &&& same_but_metadata(after, before)
    &&& after.metadata matches Some(m)
    &&& m@ == metadata
}

/// Whether hits were given their times, up to the first one that needs content that could not be
/// read. That one only gets metadata, if it had none, and those behind it are left as they are.
pub open spec fn times_attached(
    track: TemporalTrack,
    contents: Seq<FrameContent>,
    before: Seq<SearchHit>,
    after: Seq<SearchHit>,
) -> bool {
    &&& after.len() == before.len()
    &&& forall|i: int|
        0 <= i < before.len() ==> if !is_reached(track, contents, before, i) {
            after[i] == #[trigger] before[i]
        } else if is_blocked(track, contents, before[i]) {
            has_metadata(before[i], after[i], metadata_or_none(before[i]))
        } else {
            has_metadata(before[i], after[i], with_times(track, contents, before[i]))
        }
}

/// Drops the white space round a string, and the string itself where it is blank.
pub fn trimmed_text(raw: &str) -> (res: Option<String>)
    ensures
        text_of(res) == trimmed_or_none(raw@),
        res is None <==> trim(raw@).len() == 0,
        res matches Some(text) ==> text@ == trim(raw@),
{
    let trimmed = trim_str(raw);
    if trimmed.is_empty() {
        None
    } else {
        Some(trimmed.to_owned())
    }
}

impl TemporalMention {
    /// Where the mention starts and ends in the content of its frame.
    fn bounds(&self) -> (res: (usize, usize))
        ensures
            res.0 == self.byte_start,
            res.1 == mention_end(*self),
            res.0 <= res.1,
    {
        let start: usize = self.byte_start as usize;
        (start, start.saturating_add(self.byte_len as usize))
    }

    /// Whether the mention concerns a hit.
    fn concerns(&self, hit: &SearchHit) -> (res: bool)
        ensures
            res == concerns(*self, *hit),
    {
        let (start, end): (usize, usize) = self.bounds();
        self.frame_id == hit.frame_id && start != end && hit.range.0 < end && start < hit.range.1
    }
}

impl TemporalTrack {
    /// The anchor of a frame.
    pub fn anchor_for_frame(&self, frame_id: FrameId) -> (res: Option<TemporalAnchor>)
        ensures
            res == anchor_of(self.anchors@, frame_id),
    {
        let mut i: usize = 0;
        assert(self.anchors@.skip(0) =~= self.anchors@);
        while i < self.anchors.len()
            invariant
                i <= self.anchors@.len(),
                anchor_of(self.anchors@, frame_id) == anchor_of(
                    self.anchors@.skip(i as int),
                    frame_id,
                ),
            decreases self.anchors@.len() - i,
        {
            assert(self.anchors@.skip(i as int).drop_first() =~= self.anchors@.skip(i + 1));
            if self.anchors[i].frame_id == frame_id {
                return Some(self.anchors[i]);
            }
            i += 1;
        }
        None
    }

    /// Whether the content of a hit's frame is needed.
    fn needs_content(&self, hit: &SearchHit) -> (res: bool)
        ensures
            res == needs_content(*self, *hit),
    {
        let mut i: usize = 0;
        while i < self.mentions.len()
            invariant
                i <= self.mentions@.len(),
                forall|m: int| 0 <= m < i ==> !concerns(#[trigger] self.mentions@[m], *hit),
            decreases self.mentions@.len() - i,
        {
            if self.mentions[i].concerns(hit) {
                assert(concerns(self.mentions@[i as int], *hit));
                return true;
            }
            i += 1;
        }
        false
    }
}

/// Decides whether a frame is listed.
fn lists(ids: &Vec<FrameId>, frame_id: FrameId) -> (res: bool)
    ensures
        res == ids@.contains(frame_id),
{
    let mut i: usize = 0;
    while i < ids.len()
        invariant
            i <= ids@.len(),
            forall|k: int| 0 <= k < i ==> ids@[k] != frame_id,
        decreases ids@.len() - i,
    {
        if ids[i] == frame_id {
            assert(ids@[i as int] == frame_id);
            return true;
        }
        i += 1;
    }
    false
}

/// Says which frames to read before times are attached to hits, each once, in the order in which
/// they are first needed.
pub fn frames_to_read(track: &TemporalTrack, hits: &[SearchHit]) -> (res: Vec<FrameId>)
    ensures
        res@ == frames_needed(*track, hits@),
{
    let mut res: Vec<FrameId> = Vec::new();
    let mut i: usize = 0;
    assert(hits@.take(0) =~= seq![]);
    while i < hits.len()
        invariant
            i <= hits@.len(),
            res@ == frames_needed(*track, hits@.take(i as int)),
        decreases hits@.len() - i,
    {
        let frame_id: FrameId = hits[i].frame_id;
        proof {
            assert(hits@.take(i + 1).drop_last() =~= hits@.take(i as int));
            assert(hits@.take(i + 1).last() == hits@[i as int]);
        }
        if track.needs_content(&hits[i]) && !lists(&res, frame_id) {
            res.push(frame_id);
        }
        i += 1;
    }
    assert(hits@.take(i as int) =~= hits@);
    res
}

/// Finds what was read of a frame.
fn find_content<'a>(contents: &'a [FrameContent], frame_id: FrameId) -> (res: Option<
    &'a FrameContent,
>)
    ensures
        content_of(contents@, frame_id) == (match res {
            None => Content::Stale,
            Some(content) => match content.text {
                Some(text) => Content::Text(text@),
                None => Content::Unreadable,
            },
        }),
{
    let mut i: usize = 0;
    assert(contents@.skip(0) =~= contents@);
    while i < contents.len()
        invariant
            i <= contents@.len(),
            content_of(contents@, frame_id) == content_of(contents@.skip(i as int), frame_id),
        decreases contents@.len() - i,
    {
        assert(contents@.skip(i as int).drop_first() =~= contents@.skip(i + 1));
        if contents[i].frame_id == frame_id {
            return Some(&contents[i]);
        }
        i += 1;
    }
    None
}

/// The text of a mention in the content of its frame, if that is known.
fn extract_mention_text(mention: &TemporalMention, content: Option<&String>) -> (res: Option<
    String,
>)
    ensures
        text_of(res) == mention_text(
            *mention,
            match content {
                Some(text) => Content::Text(text@),
                None => Content::Stale,
            },
        ),
{
    match content {
        Some(text) => {
            let (start, end): (usize, usize) = mention.bounds();
            let bytes = text.as_str().as_bytes();
            if end <= bytes.len() {
                let raw = decode_lossy(slice_subrange(bytes, start, end));
                trimmed_text(raw.as_str())
            } else {
                None
            }
        },
        None => None,
    }
}

/// The times of a hit, with the text of mentions where the content of its frame is known.
fn collect_temporal(track: &TemporalTrack, hit: &SearchHit, content: Option<&String>) -> (res:
    SearchHitTemporal)
    ensures
        res@ == hit_temporal(
            *track,
            *hit,
            match content {
                Some(text) => Content::Text(text@),
                None => Content::Stale,
            },
        ),
{
    let ghost known = match content {
        Some(text) => Content::Text(text@),
        None => Content::Stale,
    };
    let anchor = match track.anchor_for_frame(hit.frame_id) {
        Some(anchor) => Some(
            SearchHitTemporalAnchor {
                ts_utc: anchor.anchor_ts,
                iso_8601: timestamp_to_rfc3339(anchor.anchor_ts),
                source: anchor.source,
            },
        ),
        None => None,
    };
    let mut mentions: Vec<SearchHitTemporalMention> = Vec::new();
    let ghost show = |m: SearchHitTemporalMention| m@;
    let mut i: usize = 0;
    assert(mentions@.map_values(show) =~= hit_mentions(track.mentions@.take(0), *hit, known));
    while i < track.mentions.len()
        invariant
            i <= track.mentions@.len(),
            show == (|m: SearchHitTemporalMention| m@),
            known == (match content {
                Some(text) => Content::Text(text@),
                None => Content::Stale,
            }),
            mentions@.map_values(show) == hit_mentions(
                track.mentions@.take(i as int),
                *hit,
                known,
            ),
        decreases track.mentions@.len() - i,
    {
        let mention = &track.mentions[i];
        proof {
            let next = track.mentions@.take(i + 1);
            assert(next.drop_last() =~= track.mentions@.take(i as int));
            assert(next.last() == *mention);
        }
        let ghost before = mentions@;
        if mention.concerns(hit) {
            let shown = SearchHitTemporalMention {
                ts_utc: mention.ts_utc,
                iso_8601: timestamp_to_rfc3339(mention.ts_utc),
                kind: mention.kind,
                confidence: mention.confidence,
                flags: mention.flags,
                text: extract_mention_text(mention, content),
                byte_start: mention.byte_start,
                byte_len: mention.byte_len,
            };
            mentions.push(shown);
            proof {
                assert(shown@ == mention_view(*mention, known));
                assert(mentions@.map_values(show) =~= before.map_values(show).push(shown@));
            }
        }
        i += 1;
    }
    proof {
        assert(track.mentions@.take(i as int) =~= track.mentions@);
    }
    SearchHitTemporal { anchor, mentions }
}

/// A frame that could not be read gives mentions no more text than one that is gone.
proof fn lemma_unreadable_like_stale(mentions: Seq<TemporalMention>, hit: SearchHit)
    ensures
        hit_mentions(mentions, hit, Content::Unreadable) == hit_mentions(
            mentions,
            hit,
            Content::Stale,
        ),
    decreases mentions.len(),
{
    if mentions.len() > 0 {
        lemma_unreadable_like_stale(mentions.drop_last(), hit);
    }
}

/// Gives hits their times.
fn attach_times(track: &TemporalTrack, contents: &[FrameContent], hits: &mut [SearchHit]) -> (res:
    Result<(), MemvidError>)
    ensures
        times_attached(*track, contents@, old(hits)@, final(hits)@),
        res is Ok <==> is_reached(*track, contents@, old(hits)@, old(hits)@.len() as int),
        forall|i: int|
            0 <= i < old(hits)@.len() && is_reached(*track, contents@, old(hits)@, i)
                && is_blocked(*track, contents@, #[trigger] old(hits)@[i]) ==> res == Err::<
                (),
                MemvidError,
            >(MemvidError::FrameUnreadable { frame_id: old(hits)@[i].frame_id }),
{
    let ghost start = hits@;
    let n: usize = hits.len();
    let mut i: usize = 0;
    while i < n
        invariant
            i <= n,
            hits@.len() == n,
            start.len() == n,
            start == old(hits)@,
            is_reached(*track, contents@, start, i as int),
            forall|k: int|
                0 <= k < i ==> has_metadata(
                    start[k],
                    #[trigger] hits@[k],
                    with_times(*track, contents@, start[k]),
                ),
            forall|k: int| i <= k < n ==> #[trigger] hits@[k] == start[k],
        decreases n - i,
    {
        let ghost given = start[i as int];
        assert(hits@[i as int] == given);
        let frame_id: FrameId = hits[i].frame_id;
        let found = find_content(contents, frame_id);
        let content = match found {
            Some(content) => content.text.as_ref(),
            None => None,
        };
        if found.is_some() && content.is_none() && track.needs_content(&hits[i]) {
            let hit = &mut hits[i];
            if hit.metadata.is_none() {
                hit.metadata = Some(SearchHitMetadata::default());
            }
            proof {
                assert(is_blocked(*track, contents@, start[i as int]));
            }
            return Err(MemvidError::FrameUnreadable { frame_id });
        }
        proof {
            lemma_unreadable_like_stale(track.mentions@, given);
        }
        let temporal = collect_temporal(track, &hits[i], content);
        let hit = &mut hits[i];
        let mut metadata = match hit.metadata.take() {
            Some(metadata) => metadata,
            None => SearchHitMetadata::default(),
        };
        if temporal.anchor.is_some() || temporal.mentions.len() > 0 {
            metadata.temporal = Some(temporal);
        }
        hit.metadata = Some(metadata);
        i += 1;
    }
    Ok(())
}

/// Gives hits the times of their frames and the times that they mention.
///
/// `contents` holds what was read of the frames that [`frames_to_read`] lists. Where a hit needs a
/// frame that could not be read, the work stops there.
pub fn attach_temporal_metadata(
    track: Option<&TemporalTrack>,
    contents: &[FrameContent],
    hits: &mut [SearchHit],
) -> (res: Result<(), MemvidError>)
    ensures
        track is None ==> res == Ok::<(), MemvidError>(()) && final(hits)@ == old(hits)@,
        track matches Some(track) ==> {
            &&& times_attached(*track, contents@, old(hits)@, final(hits)@)
            &&& res is Ok <==> is_reached(
                *track,
                contents@,
                old(hits)@,
                old(hits)@.len() as int,
            )
            &&& forall|i: int|
                0 <= i < old(hits)@.len() && is_reached(*track, contents@, old(hits)@, i)
                    && is_blocked(*track, contents@, #[trigger] old(hits)@[i]) ==> res == Err::<
                    (),
                    MemvidError,
                >(MemvidError::FrameUnreadable { frame_id: old(hits)@[i].frame_id })
        },
{
    match track {
        Some(track) => attach_times(track, contents, hits),
        None => Ok(()),
    }
}

/// Each frame is read once, and only frames that a hit needs are read.
pub proof fn lemma_frames_needed(track: TemporalTrack, hits: Seq<SearchHit>)
    ensures
        frames_needed(track, hits).no_duplicates(),
        forall|f: FrameId| #[trigger]
            frames_needed(track, hits).contains(f) <==> exists|i: int|
                0 <= i < hits.len() && needs_content(track, #[trigger] hits[i]) && hits[i].frame_id
                    == f,
    decreases hits.len(),
{
    if hits.len() > 0 {
        let rest = hits.drop_last();
        let earlier = frames_needed(track, rest);
        let last = hits.len() - 1;
        lemma_frames_needed(track, rest);
        assert forall|f: FrameId| #[trigger]
            frames_needed(track, hits).contains(f) implies exists|i: int|
            0 <= i < hits.len() && needs_content(track, #[trigger] hits[i]) && hits[i].frame_id
                == f by {
            if earlier.contains(f) {
                let i = choose|i: int|
                    0 <= i < rest.len() && needs_content(track, #[trigger] rest[i])
                        && rest[i].frame_id == f;
                assert(hits[i] == rest[i]);
            } else {
                assert(hits[last].frame_id == f);
            }
        }
        assert forall|f: FrameId|
            (exists|i: int|
                0 <= i < hits.len() && needs_content(track, #[trigger] hits[i]) && hits[i].frame_id
                    == f) implies #[trigger] frames_needed(track, hits).contains(f) by {
            let i = choose|i: int|
                0 <= i < hits.len() && needs_content(track, #[trigger] hits[i]) && hits[i].frame_id
                    == f;
            let all = frames_needed(track, hits);
            if i < last {
                assert(rest[i] == hits[i]);
                assert(earlier.contains(f));
            }
            if earlier.contains(f) {
                let k = choose|k: int| 0 <= k < earlier.len() && earlier[k] == f;
                assert(all[k] == f);
            } else {
                assert(all[all.len() - 1] == f);
            }
        }
    }
}

/// Where every frame that is needed is read or gone, every hit gets its times.
pub proof fn lemma_readable_frames_suffice(
    track: TemporalTrack,
    contents: Seq<FrameContent>,
    hits: Seq<SearchHit>,
)
    requires
        forall|k: int|
            0 <= k < frames_needed(track, hits).len() ==> !(content_of(
                contents,
                #[trigger] frames_needed(track, hits)[k],
            ) is Unreadable),
    ensures
        is_reached(track, contents, hits, hits.len() as int),
{
    let frames = frames_needed(track, hits);
    lemma_frames_needed(track, hits);
    assert forall|j: int| 0 <= j < hits.len() implies !is_blocked(
        track,
        contents,
        #[trigger] hits[j],
    ) by {
        if needs_content(track, hits[j]) {
            assert(frames.contains(hits[j].frame_id));
            let k = choose|k: int| 0 <= k < frames.len() && frames[k] == hits[j].frame_id;
            assert(frames[k] == hits[j].frame_id);
        }
    }
}

/// The frames that the first hits need come first: frames are listed in the order in which they are
/// first needed.
pub proof fn lemma_frames_needed_prefix(track: TemporalTrack, hits: Seq<SearchHit>, n: int)
    requires
        0 <= n <= hits.len(),
    ensures
        frames_needed(track, hits.take(n)).is_prefix_of(frames_needed(track, hits)),
    decreases hits.len(),
{
    if n == hits.len() {
        assert(hits.take(n) =~= hits);
    } else {
        let rest = hits.drop_last();
        lemma_frames_needed_prefix(track, rest, n);
        assert(rest.take(n) =~= hits.take(n));
    }
}

/// A hit that no mention concerns has no mentions, whatever its frame holds.
proof fn lemma_no_mentions(mentions: Seq<TemporalMention>, hit: SearchHit, content: Content)
    requires
        forall|m: int| 0 <= m < mentions.len() ==> !concerns(#[trigger] mentions[m], hit),
    ensures
        hit_mentions(mentions, hit, content).len() == 0,
    decreases mentions.len(),
{
    if mentions.len() > 0 {
        let rest = mentions.drop_last();
        assert forall|m: int| 0 <= m < rest.len() implies !concerns(#[trigger] rest[m], hit) by {
            assert(rest[m] == mentions[m]);
        }
        lemma_no_mentions(rest, hit, content);
        assert(!concerns(mentions[mentions.len() - 1], hit));
    }
}

/// Frames may be read in the order in which they are needed, up to the first one that cannot be
/// read: what the frames behind it hold makes no difference to any hit.
pub proof fn lemma_reading_may_stop(
    track: TemporalTrack,
    contents: Seq<FrameContent>,
    others: Seq<FrameContent>,
    hits: Seq<SearchHit>,
    k: int,
    i: int,
)
    requires
        0 <= k < frames_needed(track, hits).len(),
        content_of(contents, frames_needed(track, hits)[k]) is Unreadable,
        forall|j: int|
            0 <= j <= k ==> content_of(contents, #[trigger] frames_needed(track, hits)[j])
                == content_of(others, frames_needed(track, hits)[j]),
        0 <= i < hits.len(),
    ensures
        is_reached(track, contents, hits, i) == is_reached(track, others, hits, i),
        is_reached(track, contents, hits, i) ==> {
            &&& is_blocked(track, contents, hits[i]) == is_blocked(track, others, hits[i])
            &&& with_times(track, contents, hits[i]) == with_times(track, others, hits[i])
        },
    decreases i,
{
    let frames = frames_needed(track, hits);
    if i > 0 {
        lemma_reading_may_stop(track, contents, others, hits, k, i - 1);
        assert forall|c: Seq<FrameContent>| #[trigger]
            is_reached(track, c, hits, i) == (is_reached(track, c, hits, i - 1) && !is_blocked(
                track,
                c,
                hits[i - 1],
            )) by {
            if is_reached(track, c, hits, i - 1) && !is_blocked(track, c, hits[i - 1]) {
                assert forall|j: int| 0 <= j < i implies !is_blocked(
                    track,
                    c,
                    #[trigger] hits[j],
                ) by {
                    if j < i - 1 {
                    } else {
                        assert(j == i - 1);
                    }
                }
            }
        }
        assert(is_reached(track, contents, hits, i) == is_reached(track, others, hits, i));
    }
    if is_reached(track, contents, hits, i) {
        let hit = hits[i];
        if needs_content(track, hit) {
            lemma_frames_needed(track, hits);
            assert(frames.contains(hit.frame_id));
            let p = choose|p: int| 0 <= p < frames.len() && frames[p] == hit.frame_id;
            if p > k {
                let first = frames_needed(track, hits.take(i));
                let next = frames_needed(track, hits.take(i + 1));
                lemma_frames_needed_prefix(track, hits, i);
                lemma_frames_needed_prefix(track, hits, i + 1);
                lemma_frames_needed(track, hits.take(i));
                lemma_frames_needed(track, hits.take(i + 1));
                assert(hits.take(i + 1).drop_last() =~= hits.take(i));
                assert(hits.take(i + 1)[i] == hit);
                assert(next.contains(hit.frame_id));
                let q = choose|q: int| 0 <= q < next.len() && next[q] == hit.frame_id;
                assert(frames[q] == hit.frame_id);
                assert(q == p);
                assert(first[k] == frames[k]);
                assert(first.contains(frames[k]));
                let j = choose|j: int|
                    0 <= j < i && needs_content(track, #[trigger] hits.take(i)[j])
                        && hits.take(i)[j].frame_id == frames[k];
                assert(hits.take(i)[j] == hits[j]);
                assert(is_blocked(track, contents, hits[j]));
            }
            assert(content_of(contents, frames[p]) == content_of(others, frames[p]));
        } else {
            lemma_no_mentions(track.mentions@, hit, content_of(contents, hit.frame_id));
            lemma_no_mentions(track.mentions@, hit, content_of(others, hit.frame_id));
            assert(hit_temporal(track, hit, content_of(contents, hit.frame_id)) == hit_temporal(
                track,
                hit,
                content_of(others, hit.frame_id),
            ));
        }
    }
}

/// Mentions do not depend on the metadata of a hit.
proof fn lemma_mentions_but_metadata(
    mentions: Seq<TemporalMention>,
    a: SearchHit,
    b: SearchHit,
    content: Content,
)
    requires
        same_but_metadata(a, b),
    ensures
        hit_mentions(mentions, a, content) == hit_mentions(mentions, b, content),
    decreases mentions.len(),
{
    if mentions.len() > 0 {
        lemma_mentions_but_metadata(mentions.drop_last(), a, b, content);
    }
}

/// To attach times once more to hits that all got theirs makes no difference.
pub proof fn lemma_attach_idempotent(
    track: TemporalTrack,
    contents: Seq<FrameContent>,
    before: Seq<SearchHit>,
    after: Seq<SearchHit>,
    again: Seq<SearchHit>,
    i: int,
)
    requires
        times_attached(track, contents, before, after),
        is_reached(track, contents, before, before.len() as int),
        times_attached(track, contents, after, again),
        0 <= i < before.len(),
    ensures
        is_reached(track, contents, after, after.len() as int),
        same_but_metadata(again[i], after[i]),
        again[i].metadata is Some && after[i].metadata is Some,
        metadata_or_none(again[i]) == metadata_or_none(after[i]),
{
    assert forall|j: int| 0 <= j < before.len() implies has_metadata(
        before[j],
        after[j],
        with_times(track, contents, before[j]),
    ) && !is_blocked(track, contents, #[trigger] after[j]) by {
        assert(before[j] == before[j]);
        assert(!is_blocked(track, contents, before[j]));
        assert(is_reached(track, contents, before, j));
        if needs_content(track, after[j]) {
            let m = choose|m: int|
                0 <= m < track.mentions@.len() && concerns(
                    #[trigger] track.mentions@[m],
                    after[j],
                );
            assert(concerns(track.mentions@[m], before[j]));
        }
    }
    assert(is_reached(track, contents, after, i));
    assert(after[i] == after[i]);
    lemma_mentions_but_metadata(
        track.mentions@,
        after[i],
        before[i],
        content_of(contents, before[i].frame_id),
    );
    assert(hit_temporal(track, after[i], content_of(contents, after[i].frame_id)) == hit_temporal(
        track,
        before[i],
        content_of(contents, before[i].frame_id),
    ));
}

/// Nothing of a hit changes but what its metadata says of times.
pub proof fn lemma_attach_keeps_rest(
    track: TemporalTrack,
    contents: Seq<FrameContent>,
    before: Seq<SearchHit>,
    after: Seq<SearchHit>,
    i: int,
)
    requires
        times_attached(track, contents, before, after),
        0 <= i < before.len(),
    ensures
        same_but_metadata(after[i], before[i]),
        metadata_or_none(after[i]) == (MetadataView {
            temporal: metadata_or_none(after[i]).temporal,
            ..metadata_or_none(before[i])
        }),
{
    assert(before[i] == before[i]);
}

/// The text of a mention is neither blank nor has white space at its ends.
pub proof fn lemma_mention_text_is_trimmed(mention: TemporalMention, content: Content)
    ensures
        mention_text(mention, content) matches Some(text) ==> text.len() > 0 && trim(text) == text,
{
    if let Content::Text(text) = content {
        lemma_trim_idempotent(
            lossy_utf8(
                encode_utf8(text).subrange(mention.byte_start as int, mention_end(mention)),
            ),
        );
    }
}

/// Content is needed where a mention in the hit's frame covers at least one byte and overlaps the
/// hit. No mention reaches further than the machine can count.
pub proof fn lemma_content_is_needed(track: TemporalTrack, hit: SearchHit)
    ensures
        needs_content(track, hit) <==> exists|m: int|
            0 <= m < track.mentions@.len() && {
                let mention = #[trigger] track.mentions@[m];
                let start = mention.byte_start as int;
                let end = if start + mention.byte_len > usize::MAX {
                    usize::MAX as int
                } else {
                    start + mention.byte_len
                };
                mention.frame_id == hit.frame_id && start < end && hit.range.0 < end && start
                    < hit.range.1
            },
{
}

/// What was read of a frame is the first entry with its number. A frame without one is stale.
pub proof fn lemma_first_content_counts(contents: Seq<FrameContent>, frame_id: FrameId, k: int)
    requires
        0 <= k <= contents.len(),
        forall|j: int| 0 <= j < k ==> (#[trigger] contents[j]).frame_id != frame_id,
        k < contents.len() ==> contents[k].frame_id == frame_id,
    ensures
        k == contents.len() ==> content_of(contents, frame_id) == Content::Stale,
        k < contents.len() && contents[k].text is None ==> content_of(contents, frame_id)
            == Content::Unreadable,
        k < contents.len() && contents[k].text is Some ==> content_of(contents, frame_id)
            == Content::Text(contents[k].text->0@),
    decreases k,
{
    if k > 0 {
        let rest = contents.drop_first();
        assert(contents[0].frame_id != frame_id);
        assert forall|j: int| 0 <= j < k - 1 implies (#[trigger] rest[j]).frame_id != frame_id by {
            assert(rest[j] == contents[j + 1]);
        }
        lemma_first_content_counts(rest, frame_id, k - 1);
    }
}

/// The anchor of a frame is the first one with its number, and none where there is none.
pub proof fn lemma_first_anchor_counts(anchors: Seq<TemporalAnchor>, frame_id: FrameId, k: int)
    requires
        0 <= k <= anchors.len(),
        forall|j: int| 0 <= j < k ==> (#[trigger] anchors[j]).frame_id != frame_id,
        k < anchors.len() ==> anchors[k].frame_id == frame_id,
    ensures
        k < anchors.len() ==> anchor_of(anchors, frame_id) == Some(anchors[k]),
        k == anchors.len() ==> anchor_of(anchors, frame_id) is None,
    decreases k,
{
    if k > 0 {
        let rest = anchors.drop_first();
        assert(anchors[0].frame_id != frame_id);
        assert forall|j: int| 0 <= j < k - 1 implies (#[trigger] rest[j]).frame_id != frame_id by {
            assert(rest[j] == anchors[j + 1]);
        }
        lemma_first_anchor_counts(rest, frame_id, k - 1);
    }
}

/// The text of a mention is what its bytes in the content read as, trimmed. It has none where the
/// content is not known, where the content ends before the mention does, and where nothing but
/// white space is left.
pub proof fn lemma_mention_text(mention: TemporalMention, text: Seq<char>)
    ensures
        mention_text(mention, Content::Stale) is None,
        mention_text(mention, Content::Unreadable) is None,
        ({
            let start = mention.byte_start as int;
            let end = if start + mention.byte_len > usize::MAX {
                usize::MAX as int
            } else {
                start + mention.byte_len
            };
            let read = trim(lossy_utf8(encode_utf8(text).subrange(start, end)));
            mention_text(mention, Content::Text(text)) == if end <= encode_utf8(text).len()
                && read.len() > 0 {
                Some(read)
            } else {
                None
            }
        }),
{
}

/// Every hit is given its times, unless the content of its own frame, or of one that an earlier hit
/// lies in, is needed and could not be read.
pub proof fn lemma_hits_are_reached(
    track: TemporalTrack,
    contents: Seq<FrameContent>,
    hits: Seq<SearchHit>,
    n: int,
)
    ensures
        is_reached(track, contents, hits, n) <==> forall|j: int|
            0 <= j < n && content_of(contents, (#[trigger] hits[j]).frame_id) is Unreadable
                ==> !needs_content(track, hits[j]),
        forall|i: int|
            is_blocked(track, contents, #[trigger] hits[i]) <==> content_of(
                contents,
                hits[i].frame_id,
            ) is Unreadable && needs_content(track, hits[i]),
{
}

/// The mentions of a hit are listed from those of the track.
proof fn lemma_mentions_listed(
    mentions: Seq<TemporalMention>,
    hit: SearchHit,
    content: Content,
) -> (source: Seq<int>)
    ensures
        source.len() == hit_mentions(mentions, hit, content).len(),
        forall|a: int, b: int| 0 <= a < b < source.len() ==> #[trigger] source[a]
            < #[trigger] source[b],
        forall|m: int| #[trigger]
            source.contains(m) <==> (0 <= m < mentions.len() && concerns(mentions[m], hit)),
        forall|k: int|
            0 <= k < source.len() ==> 0 <= #[trigger] source[k] < mentions.len() && hit_mentions(
                mentions,
                hit,
                content,
            )[k] == mention_view(mentions[source[k]], content),
    decreases mentions.len(),
{
    if mentions.len() == 0 {
        seq![]
    } else {
        let rest = mentions.drop_last();
        let last = mentions.len() - 1;
        let earlier = lemma_mentions_listed(rest, hit, content);
        assert forall|k: int| 0 <= k < earlier.len() implies 0 <= #[trigger] earlier[k] < last
            && rest[earlier[k]] == mentions[earlier[k]] by {}
        if concerns(mentions.last(), hit) {
            let source = earlier.push(last);
            assert forall|m: int| #[trigger]
                source.contains(m) <==> (0 <= m < mentions.len() && concerns(
                    mentions[m],
                    hit,
                )) by {
                if source.contains(m) {
                    let k = choose|k: int| 0 <= k < source.len() && source[k] == m;
                    if k < earlier.len() {
                        assert(earlier[k] == m);
                        assert(earlier.contains(m));
                    }
                }
                if 0 <= m < mentions.len() && concerns(mentions[m], hit) {
                    if m < last {
                        assert(rest[m] == mentions[m]);
                        assert(earlier.contains(m));
                        let k = choose|k: int| 0 <= k < earlier.len() && earlier[k] == m;
                        assert(source[k] == m);
                    } else {
                        assert(source[earlier.len() as int] == m);
                    }
                }
            }
            source
        } else {
            assert forall|m: int| #[trigger]
                earlier.contains(m) <==> (0 <= m < mentions.len() && concerns(
                    mentions[m],
                    hit,
                )) by {
                if m < last {
                    assert(0 <= m ==> rest[m] == mentions[m]);
                }
            }
            earlier
        }
    }
}

/// A hit that is given its times shows every mention of the track that lies in its frame, covers at
/// least one byte and overlaps the hit, and no other, in the order of the track, whether or not its
/// frame has an anchor. Of each mention it shows what the track says, the time as text, and the
/// text in the content of the frame.
pub proof fn lemma_mentions_are_shown(
    track: TemporalTrack,
    contents: Seq<FrameContent>,
    before: Seq<SearchHit>,
    after: Seq<SearchHit>,
    i: int,
)
    requires
        times_attached(track, contents, before, after),
        0 <= i < before.len(),
        is_reached(track, contents, before, i + 1),
    ensures
        after[i].metadata is Some,
        exists|source: Seq<int>|
            {
                &&& #[trigger] source.no_duplicates()
                &&& forall|a: int, b: int| 0 <= a < b < source.len() ==> #[trigger] source[a]
                    < #[trigger] source[b]
                &&& forall|m: int| #[trigger]
                    source.contains(m) <==> 0 <= m < track.mentions@.len() && {
                        let mention = track.mentions@[m];
                        let start = mention.byte_start as int;
                        let end = if start + mention.byte_len > usize::MAX {
                            usize::MAX as int
                        } else {
                            start + mention.byte_len
                        };
                        mention.frame_id == before[i].frame_id && start < end && before[i].range.0
                            < end && start < before[i].range.1
                    }
                &&& source.len() > 0 ==> after[i].metadata->0@.temporal is Some
                &&& source.len() > 0 || (exists|k: int|
                    0 <= k < track.anchors@.len() && (#[trigger] track.anchors@[k]).frame_id
                        == before[i].frame_id) ==> {
                    let shown = after[i].metadata->0@.temporal->0.mentions;
                    &&& after[i].metadata->0@.temporal is Some
                    &&& shown.len() == source.len()
                    &&& forall|k: int|
                        0 <= k < shown.len() ==> {
                            let (v, m) = (#[trigger] shown[k], track.mentions@[source[k]]);
                            &&& v.ts_utc == m.ts_utc
                            &&& v.iso_8601 == timestamp_text(m.ts_utc as int)
                            &&& v.kind == m.kind
                            &&& v.confidence == m.confidence
                            &&& v.flags == m.flags
                            &&& v.byte_start == m.byte_start
                            &&& v.byte_len == m.byte_len
                            &&& v.text == mention_text(m, content_of(contents, m.frame_id))
                        }
                }
            },
{
    let hit = before[i];
    let content = content_of(contents, hit.frame_id);
    assert(is_reached(track, contents, before, i) && !is_blocked(track, contents, before[i]));
    let source = lemma_mentions_listed(track.mentions@, hit, content);
    if exists|k: int|
        0 <= k < track.anchors@.len() && (#[trigger] track.anchors@[k]).frame_id == hit.frame_id {
        let k = choose|k: int|
            0 <= k < track.anchors@.len() && (#[trigger] track.anchors@[k]).frame_id
                == hit.frame_id;
        lemma_some_anchor(track.anchors@, hit.frame_id, k);
    }
    assert forall|k: int|
        0 <= k < source.len() implies track.mentions@[#[trigger] source[k]].frame_id
        == hit.frame_id by {
        assert(source.contains(source[k]));
    }
    assert(source.no_duplicates());
}

/// A frame for which an anchor is listed has an anchor.
proof fn lemma_some_anchor(anchors: Seq<TemporalAnchor>, frame_id: FrameId, k: int)
    requires
        0 <= k < anchors.len(),
        anchors[k].frame_id == frame_id,
    ensures
        anchor_of(anchors, frame_id) is Some,
    decreases k,
{
    if anchors[0].frame_id != frame_id {
        assert(anchors.drop_first()[k - 1] == anchors[k]);
        lemma_some_anchor(anchors.drop_first(), frame_id, k - 1);
    }
}

/// A hit that is given its times shows the first anchor of its frame, whatever it mentions. Where
/// its frame has none, it shows none beside its mentions.
pub proof fn lemma_anchor_is_shown(
    track: TemporalTrack,
    contents: Seq<FrameContent>,
    before: Seq<SearchHit>,
    after: Seq<SearchHit>,
    i: int,
    k: int,
)
    requires
        times_attached(track, contents, before, after),
        0 <= i < before.len(),
        is_reached(track, contents, before, i + 1),
        0 <= k <= track.anchors@.len(),
        forall|j: int|
            0 <= j < k ==> (#[trigger] track.anchors@[j]).frame_id != before[i].frame_id,
        k < track.anchors@.len() ==> track.anchors@[k].frame_id == before[i].frame_id,
    ensures
        after[i].metadata is Some,
        k < track.anchors@.len() ==> {
            let shown = after[i].metadata->0@.temporal->0.anchor;
            &&& after[i].metadata->0@.temporal is Some
            &&& shown is Some
            &&& shown->0.ts_utc == track.anchors@[k].anchor_ts
            &&& shown->0.iso_8601 == timestamp_text(track.anchors@[k].anchor_ts as int)
            &&& shown->0.source == track.anchors@[k].source
        },
        k == track.anchors@.len() && needs_content(track, before[i]) ==> {
            &&& after[i].metadata->0@.temporal is Some
            &&& after[i].metadata->0@.temporal->0.anchor is None
        },
        k == track.anchors@.len() && !needs_content(track, before[i]) ==> {
            &&& before[i].metadata matches Some(m) ==> after[i].metadata->0@.temporal == m@.temporal
            &&& before[i].metadata is None ==> after[i].metadata->0@.temporal is None
        },
{
    let hit = before[i];
    let content = content_of(contents, hit.frame_id);
    assert(is_reached(track, contents, before, i) && !is_blocked(track, contents, before[i]));
    lemma_first_anchor_counts(track.anchors@, hit.frame_id, k);
    let source = lemma_mentions_listed(track.mentions@, hit, content);
    if needs_content(track, hit) {
        let m = choose|m: int|
            0 <= m < track.mentions@.len() && concerns(#[trigger] track.mentions@[m], hit);
        assert(source.contains(m));
    } else if source.len() > 0 {
        assert(source.contains(source[0]));
        assert(concerns(track.mentions@[source[0]], hit));
    }
}

/// Anchors make no difference to the mentions that a hit shows.
pub proof fn lemma_mentions_without_regard_to_anchors(
    track: TemporalTrack,
    other: TemporalTrack,
    contents: Seq<FrameContent>,
    before: Seq<SearchHit>,
    after: Seq<SearchHit>,
    other_after: Seq<SearchHit>,
    i: int,
)
    requires
        track.mentions@ == other.mentions@,
        times_attached(track, contents, before, after),
        times_attached(other, contents, before, other_after),
        0 <= i < before.len(),
        is_reached(track, contents, before, i + 1),
        needs_content(track, before[i]),
    ensures
        after[i].metadata is Some && other_after[i].metadata is Some,
        after[i].metadata->0@.temporal is Some && other_after[i].metadata->0@.temporal is Some,
        after[i].metadata->0@.temporal->0.mentions
            == other_after[i].metadata->0@.temporal->0.mentions,
{
    let hit = before[i];
    let content = content_of(contents, hit.frame_id);
    assert forall|j: int| 0 <= j <= i implies is_blocked(
        track,
        contents,
        #[trigger] before[j],
    ) == is_blocked(other, contents, before[j]) by {
        lemma_content_is_needed(track, before[j]);
        lemma_content_is_needed(other, before[j]);
        assert(needs_content(track, before[j]) == needs_content(other, before[j]));
    }
    assert(is_reached(track, contents, before, i) && !is_blocked(track, contents, before[i]));
    assert(is_reached(other, contents, before, i) && !is_blocked(other, contents, before[i]));
    let source = lemma_mentions_listed(track.mentions@, hit, content);
    let m = choose|m: int|
        0 <= m < track.mentions@.len() && concerns(#[trigger] track.mentions@[m], hit);
    assert(source.contains(m));
}

/// Only the times in the metadata of hits change. The hit whose frame could not be read keeps what
/// its metadata said, and the hits behind it stay as they are.
pub proof fn lemma_attach_changes_times_alone(
    track: TemporalTrack,
    contents: Seq<FrameContent>,
    before: Seq<SearchHit>,
    after: Seq<SearchHit>,
    i: int,
)
    requires
        times_attached(track, contents, before, after),
        0 <= i < before.len(),
    ensures
        after.len() == before.len(),
        after[i] == (SearchHit { metadata: after[i].metadata, ..before[i] }),
        !is_reached(track, contents, before, i) ==> after[i] == before[i],
        is_reached(track, contents, before, i) ==> after[i].metadata is Some,
        is_reached(track, contents, before, i) && before[i].metadata is Some ==> {
            let (a, b) = (after[i].metadata->0, before[i].metadata->0);
            &&& a.tags@ == b.tags@ && a.labels@ == b.labels@ && a.track == b.track
            &&& a.created_at == b.created_at && a.content_dates@ == b.content_dates@
            &&& a.entities@ == b.entities@
            &&& !is_reached(track, contents, before, i + 1) ==> a@.temporal == b@.temporal
        },
        is_reached(track, contents, before, i) && before[i].metadata is None ==> {
            let a = after[i].metadata->0;
            &&& a.tags@.len() == 0 && a.labels@.len() == 0 && a.track is None
            &&& a.created_at is None && a.content_dates@.len() == 0 && a.entities@.len() == 0
            &&& !is_reached(track, contents, before, i + 1) ==> a.temporal is None
        },
{
    assert(before[i] == before[i]);
    if is_reached(track, contents, before, i) && !is_reached(track, contents, before, i + 1) {
        let j = choose|j: int|
            0 <= j < i + 1 && is_blocked(track, contents, #[trigger] before[j]);
        assert(j == i);
    }
    if let Some(a) = after[i].metadata {
        assert(a@.tags == a.tags@ && a@.entities == a.entities@);
    }
}

} // verus!
