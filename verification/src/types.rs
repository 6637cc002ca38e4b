//! The records that search returns, and the views in which contracts speak of them.
use vstd::prelude::*;

verus! {

/// The number of a frame in the archive.
pub type FrameId = u64;

/// A single-precision floating-point number, held as its bit pattern.
#[derive(Debug, Clone, Copy, PartialEq, Eq)]
pub struct Binary32 {
    pub bits: u32,
}

/// What went wrong in a search.
#[derive(Debug, Clone, Copy, PartialEq, Eq)]
pub enum MemvidError {
    /// The page cursor of the request cannot be used.
    InvalidCursor { reason: &'static str },
    /// The content of a frame could not be read.
    FrameUnreadable { frame_id: FrameId },
}

/// The engine that answered a search.
#[derive(Debug, Clone, Copy, PartialEq, Eq)]
pub enum SearchEngineKind {
    Tantivy,
    LexFallback,
    Hybrid,
}

/// The parameters that a search ran with.
#[derive(Debug, PartialEq, Eq)]
pub struct SearchParams {
    pub top_k: usize,
    pub snippet_chars: usize,
    pub cursor: Option<String>,
}

/// The answer to a search.
#[derive(Debug, PartialEq, Eq)]
pub struct SearchResponse {
    pub query: String,
    pub elapsed_ms: u128,
    pub total_hits: usize,
    pub params: SearchParams,
    pub hits: Vec<SearchHit>,
    pub context: String,
    pub next_cursor: Option<String>,
    pub engine: SearchEngineKind,
    pub stale_index_skips: usize,
}

/// One passage that a search found.
#[derive(Debug, PartialEq, Eq)]
pub struct SearchHit {
    pub rank: usize,
    pub frame_id: FrameId,
    pub uri: String,
    pub title: Option<String>,
    pub range: (usize, usize),
    pub text: String,
    pub matches: usize,
    pub chunk_range: Option<(usize, usize)>,
    pub chunk_text: Option<String>,
    pub score: Option<Binary32>,
    pub metadata: Option<SearchHitMetadata>,
}

/// What is known of the frame that a hit lies in.
#[derive(Debug, PartialEq, Eq)]
pub struct SearchHitMetadata {
    pub tags: Vec<String>,
    pub labels: Vec<String>,
    pub track: Option<String>,
    pub created_at: Option<String>,
    pub content_dates: Vec<String>,
    pub entities: Vec<SearchHitEntity>,
    pub temporal: Option<SearchHitTemporal>,
}

/// An entity that a frame mentions.
#[derive(Debug, PartialEq, Eq)]
pub struct SearchHitEntity {
    pub name: String,
    pub kind: String,
    pub confidence: Option<Binary32>,
}

impl Clone for SearchHitEntity {
    fn clone(&self) -> (res: Self)
        ensures
            res == *self,
    {
        SearchHitEntity {
            name: self.name.clone(),
            kind: self.kind.clone(),
            confidence: self.confidence,
        }
    }
}

/// When the frame of a hit is from, and the times that the hit mentions.
#[derive(Debug, PartialEq, Eq)]
pub struct SearchHitTemporal {
    pub anchor: Option<SearchHitTemporalAnchor>,
    pub mentions: Vec<SearchHitTemporalMention>,
}

/// The time that a frame is anchored at.
#[derive(Debug, PartialEq, Eq)]
pub struct SearchHitTemporalAnchor {
    pub ts_utc: i64,
    pub iso_8601: Option<String>,
    pub source: AnchorSource,
}

/// A time that a hit mentions.
#[derive(Debug, PartialEq, Eq)]
pub struct SearchHitTemporalMention {
    pub ts_utc: i64,
    pub iso_8601: Option<String>,
    pub kind: TemporalMentionKind,
    pub confidence: u16,
    pub flags: TemporalMentionFlags,
    pub text: Option<String>,
    pub byte_start: u32,
    pub byte_len: u32,
}

/// Where the anchor of a frame comes from.
#[derive(Debug, Clone, Copy, PartialEq, Eq)]
pub enum AnchorSource {
    Explicit,
    FrameTimestamp,
    Metadata,
    IngestionClock,
}

/// What a mention of a time stands for.
#[derive(Debug, Clone, Copy, PartialEq, Eq)]
pub enum TemporalMentionKind {
    Date,
    DateTime,
    RangeStart,
    RangeEnd,
}

/// The flags of a mention, one bit each.
#[derive(Debug, Clone, Copy, PartialEq, Eq)]
pub struct TemporalMentionFlags {
    pub bits: u32,
}

/// The characters of an optional string.
pub open spec fn text_of(s: Option<String>) -> Option<Seq<char>> {
    match s {
        Some(t) => Some(t@),
        None => None,
    }
}

/// The view of an anchor.
#[verifier::ext_equal]
pub struct AnchorView {
    pub ts_utc: i64,
    pub iso_8601: Option<Seq<char>>,
    pub source: AnchorSource,
}

impl View for SearchHitTemporalAnchor {
    type V = AnchorView;

    open spec fn view(&self) -> AnchorView {
        AnchorView {
            ts_utc: self.ts_utc,
            iso_8601: text_of(self.iso_8601),
            source: self.source,
        }
    }
}

/// The view of a mention.
#[verifier::ext_equal]
pub struct MentionView {
    pub ts_utc: i64,
    pub iso_8601: Option<Seq<char>>,
    pub kind: TemporalMentionKind,
    pub confidence: u16,
    pub flags: TemporalMentionFlags,
    pub text: Option<Seq<char>>,
    pub byte_start: u32,
    pub byte_len: u32,
}

impl View for SearchHitTemporalMention {
    type V = MentionView;

    open spec fn view(&self) -> MentionView {
        MentionView {
            ts_utc: self.ts_utc,
            iso_8601: text_of(self.iso_8601),
            kind: self.kind,
            confidence: self.confidence,
            flags: self.flags,
            text: text_of(self.text),
            byte_start: self.byte_start,
            byte_len: self.byte_len,
        }
    }
}

/// The view of what is known of the times of a hit.
#[verifier::ext_equal]
pub struct TemporalView {
    pub anchor: Option<AnchorView>,
    pub mentions: Seq<MentionView>,
}

impl View for SearchHitTemporal {
    type V = TemporalView;

    open spec fn view(&self) -> TemporalView {
        TemporalView {
            anchor: match self.anchor {
                Some(a) => Some(a@),
                None => None,
            },
            mentions: self.mentions@.map_values(|m: SearchHitTemporalMention| m@),
        }
    }
}

/// The view of the metadata of a hit.
#[verifier::ext_equal]
pub struct MetadataView {
    pub tags: Seq<String>,
    pub labels: Seq<String>,
    pub track: Option<String>,
    pub created_at: Option<String>,
    pub content_dates: Seq<String>,
    pub entities: Seq<SearchHitEntity>,
    pub temporal: Option<TemporalView>,
}

impl View for SearchHitMetadata {
    type V = MetadataView;

    open spec fn view(&self) -> MetadataView {
        MetadataView {
            tags: self.tags@,
            labels: self.labels@,
            track: self.track,
            created_at: self.created_at,
            content_dates: self.content_dates@,
            entities: self.entities@,
            temporal: match self.temporal {
                Some(t) => Some(t@),
                None => None,
            },
        }
    }
}

/// Metadata that says nothing.
pub open spec fn no_metadata() -> MetadataView {
    MetadataView {
        tags: seq![],
        labels: seq![],
        track: None,
        created_at: None,
        content_dates: seq![],
        entities: seq![],
        temporal: None,
    }
}

/// The view of a hit's metadata, where a hit without any counts as one whose metadata says nothing.
pub open spec fn metadata_or_none(hit: SearchHit) -> MetadataView {
    match hit.metadata {
        Some(m) => m@,
        None => no_metadata(),
    }
}

/// Two hits agree in everything but their metadata.
pub open spec fn same_but_metadata(a: SearchHit, b: SearchHit) -> bool {
    a == (SearchHit { metadata: a.metadata, ..b })
}

impl Default for SearchHitMetadata {
    fn default() -> (res: Self)
        ensures
            res@ == no_metadata(),
            res.tags@.len() == 0,
            res.labels@.len() == 0,
            res.track is None,
            res.created_at is None,
            res.content_dates@.len() == 0,
            res.entities@.len() == 0,
            res.temporal is None,
    {
        SearchHitMetadata {
            tags: Vec::new(),
            labels: Vec::new(),
            track: None,
            created_at: None,
            content_dates: Vec::new(),
            entities: Vec::new(),
            temporal: None,
        }
    }
}

impl Default for SearchHitTemporal {
    fn default() -> (res: Self)
        ensures
            res@ == (TemporalView { anchor: None, mentions: seq![] }),
            res.anchor is None,
            res.mentions@.len() == 0,
    {
        let res = SearchHitTemporal { anchor: None, mentions: Vec::new() };
        assert(res@.mentions =~= seq![]);
        res
    }
}

/// The answer to a search that finds nothing: no hits, no context, no further page.
pub fn empty_search_response(
    query: String,
    params: SearchParams,
    elapsed_ms: u128,
    engine: SearchEngineKind,
) -> (res: SearchResponse)
    ensures
        res.query == query,
        res.params == params,
        res.elapsed_ms == elapsed_ms,
        res.engine == engine,
        res.total_hits == 0,
        res.hits@ == Seq::<SearchHit>::empty(),
        res.context@ == Seq::<char>::empty(),
        res.next_cursor is None,
        res.stale_index_skips == 0,
{
    SearchResponse {
        query,
        elapsed_ms,
        total_hits: 0,
        params,
        hits: Vec::new(),
        context: String::new(),
        next_cursor: None,
        engine,
        stale_index_skips: 0,
    }
}

/// The characters of an optional string are those of the string, where there is one.
pub proof fn lemma_text_of(s: Option<String>)
    ensures
        s is None <==> text_of(s) is None,
        s matches Some(t) ==> text_of(s) == Some(t@),
{
}

/// The view of metadata shows every field of it.
pub proof fn lemma_metadata_view(m: SearchHitMetadata)
    ensures
        m@.tags == m.tags@,
        m@.labels == m.labels@,
        m@.track == m.track,
        m@.created_at == m.created_at,
        m@.content_dates == m.content_dates@,
        m@.entities == m.entities@,
        m.temporal is None <==> m@.temporal is None,
        m.temporal matches Some(t) ==> m@.temporal == Some(t@),
{
}

/// The view of times shows every field of the anchor and of each mention.
pub proof fn lemma_temporal_view(t: SearchHitTemporal)
    ensures
        t.anchor is None <==> t@.anchor is None,
        t.anchor matches Some(a) ==> {
            &&& t@.anchor->0.ts_utc == a.ts_utc
            &&& t@.anchor->0.source == a.source
            &&& t@.anchor->0.iso_8601 is None <==> a.iso_8601 is None
            &&& a.iso_8601 matches Some(s) ==> t@.anchor->0.iso_8601 == Some(s@)
        },
        t@.mentions.len() == t.mentions@.len(),
        forall|k: int|
            0 <= k < t.mentions@.len() ==> {
                let (v, m) = (#[trigger] t@.mentions[k], t.mentions@[k]);
                &&& v.ts_utc == m.ts_utc
                &&& v.kind == m.kind
                &&& v.confidence == m.confidence
                &&& v.flags == m.flags
                &&& v.byte_start == m.byte_start
                &&& v.byte_len == m.byte_len
                &&& v.iso_8601 is None <==> m.iso_8601 is None
                &&& m.iso_8601 matches Some(s) ==> v.iso_8601 == Some(s@)
                &&& v.text is None <==> m.text is None
                &&& m.text matches Some(s) ==> v.text == Some(s@)
            },
{
}

/// Hits that agree in everything but their metadata have all other fields in common.
pub proof fn lemma_same_but_metadata(a: SearchHit, b: SearchHit)
    ensures
        same_but_metadata(a, b) <==> {
            &&& a.rank == b.rank
            &&& a.frame_id == b.frame_id
            &&& a.uri == b.uri
            &&& a.title == b.title
            &&& a.range == b.range
            &&& a.text == b.text
            &&& a.matches == b.matches
            &&& a.chunk_range == b.chunk_range
            &&& a.chunk_text == b.chunk_text
            &&& a.score == b.score
        },
{
}

/// The metadata of a hit are those that it has, and say nothing where it has none.
pub proof fn lemma_metadata_or_none(hit: SearchHit)
    ensures
        hit.metadata matches Some(m) ==> metadata_or_none(hit) == m@,
        hit.metadata is None ==> {
            let m = metadata_or_none(hit);
            &&& m.tags.len() == 0 && m.labels.len() == 0 && m.content_dates.len() == 0
            &&& m.entities.len() == 0 && m.track is None && m.created_at is None
            &&& m.temporal is None
        },
{
}

} // verus!
