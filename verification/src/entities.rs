//! The entities that the frames of hits mention.
use vstd::prelude::*;

use crate::types::{
    metadata_or_none, same_but_metadata, FrameId, MetadataView, SearchHit, SearchHitEntity,
    SearchHitMetadata,
};

verus! {

/// A frame, as far as entities are concerned.
#[derive(Debug, PartialEq, Eq)]
pub struct Frame {
    /// The document that the frame is a part of.
    pub parent_id: Option<FrameId>,
}

/// The entities that were found in a frame.
#[derive(Debug, PartialEq, Eq)]
pub struct FrameEntities {
    pub frame_id: FrameId,
    pub entities: Vec<SearchHitEntity>,
}

/// The frames of an archive, which are numbered by their places, and the entities in them.
#[derive(Debug, PartialEq, Eq)]
pub struct FrameIndex {
    pub frames: Vec<Frame>,
    pub entities: Vec<FrameEntities>,
}

/// What a list has for a frame: the entities of the first entry with its number, or none.
pub open spec fn entities_of(list: Seq<FrameEntities>, frame_id: FrameId) -> Seq<SearchHitEntity>
    decreases list.len(),
{
    if list.len() == 0 {
        seq![]
    } else if list[0].frame_id == frame_id {
        list[0].entities@
    } else {
        entities_of(list.drop_first(), frame_id)
    }
}

/// The parent of a frame, if the frame exists and has one.
pub open spec fn parent_of(index: FrameIndex, frame_id: FrameId) -> Option<FrameId> {
    if frame_id < index.frames@.len() {
        index.frames@[frame_id as int].parent_id
    } else {
        None
    }
}

/// The entities that a hit in a frame gets: those of the frame, or, where it has none, those of its
/// parent.
pub open spec fn hit_entities(index: FrameIndex, frame_id: FrameId) -> Seq<SearchHitEntity> {
    let own = entities_of(index.entities@, frame_id);
    if own.len() > 0 {
        own
    } else {
        match parent_of(index, frame_id) {
            Some(parent_id) => entities_of(index.entities@, parent_id),
            None => seq![],
        }
    }
}

/// Whether `after` is the hit `before` with the entities of its frame. A hit that gets none is left
/// as it is.
pub open spec fn enriched(index: FrameIndex, before: SearchHit, after: SearchHit) -> bool {
    let entities = hit_entities(index, before.frame_id);
    if entities.len() == 0 {
        after == before
    } else {
        &&& same_but_metadata(after, before)
        &&& after.metadata matches Some(metadata)
        &&& metadata@ == (MetadataView { entities, ..metadata_or_none(before) })
    }
}

/// Copies a list of entities.
fn copy_entities(entities: &Vec<SearchHitEntity>) -> (res: Vec<SearchHitEntity>)
    ensures
        res@ == entities@,
{
    let mut res: Vec<SearchHitEntity> = Vec::new();
    let mut i: usize = 0;
    while i < entities.len()
        invariant
            i <= entities@.len(),
            res@ == entities@.take(i as int),
        decreases entities@.len() - i,
    {
        res.push(entities[i].clone());
        i += 1;
        assert(res@ =~= entities@.take(i as int));
    }
    assert(entities@.take(i as int) =~= entities@);
    res
}

impl FrameIndex {
    /// The entities of a frame.
    pub fn frame_entities_for_search(&self, frame_id: FrameId) -> (res: Vec<SearchHitEntity>)
        ensures
            res@ == entities_of(self.entities@, frame_id),
    {
        let mut i: usize = 0;
        assert(self.entities@.skip(0) =~= self.entities@);
        while i < self.entities.len()
            invariant
                i <= self.entities@.len(),
                entities_of(self.entities@, frame_id) == entities_of(
                    self.entities@.skip(i as int),
                    frame_id,
                ),
            decreases self.entities@.len() - i,
        {
            assert(self.entities@.skip(i as int).drop_first() =~= self.entities@.skip(i + 1));
            if self.entities[i].frame_id == frame_id {
                return copy_entities(&self.entities[i].entities);
            }
            i += 1;
        }
        Vec::new()
    }

    /// The parent of a frame.
    fn parent_of(&self, frame_id: FrameId) -> (res: Option<FrameId>)
        ensures
            res == parent_of(*self, frame_id),
    {
        if frame_id < self.frames.len() as u64 {
            self.frames[frame_id as usize].parent_id
        } else {
            None
        }
    }
}

/// Gives each hit the entities of its frame, or of the document that the frame is a part of where
/// the frame has none of its own.
pub fn enrich_hits_with_entities(hits: &mut [SearchHit], index: &FrameIndex)
    ensures
        final(hits)@.len() == old(hits)@.len(),
        forall|i: int|
            0 <= i < final(hits)@.len() ==> enriched(
                *index,
                old(hits)@[i],
                #[trigger] final(hits)@[i],
            ),
{
    let ghost start = hits@;
    let n: usize = hits.len();
    let mut i: usize = 0;
    while i < n
        invariant
            i <= n,
            hits@.len() == n,
            start.len() == n,
            forall|k: int| 0 <= k < i ==> enriched(*index, start[k], #[trigger] hits@[k]),
            forall|k: int| i <= k < n ==> #[trigger] hits@[k] == start[k],
        decreases n - i,
    {
        let hit = &mut hits[i];
        let mut entities = index.frame_entities_for_search(hit.frame_id);
        if entities.len() == 0 {
            if let Some(parent_id) = index.parent_of(hit.frame_id) {
                entities = index.frame_entities_for_search(parent_id);
            }
        }
        if entities.len() > 0 {
            let mut metadata = match hit.metadata.take() {
                Some(metadata) => metadata,
                None => SearchHitMetadata::default(),
            };
            metadata.entities = entities;
            hit.metadata = Some(metadata);
        }
        i += 1;
    }
}

/// The parent of a frame counts only where the frame has no entities of its own.
pub proof fn lemma_entity_source(index: FrameIndex, frame_id: FrameId)
    ensures
        entities_of(index.entities@, frame_id).len() > 0 ==> hit_entities(index, frame_id)
            == entities_of(index.entities@, frame_id),
        entities_of(index.entities@, frame_id).len() == 0 ==> (match parent_of(index, frame_id) {
            Some(parent_id) => hit_entities(index, frame_id) == entities_of(
                index.entities@,
                parent_id,
            ),
            None => hit_entities(index, frame_id).len() == 0,
        }),
{
}

/// Nothing of a hit changes but the entities in its metadata.
pub proof fn lemma_enriched_keeps_rest(index: FrameIndex, before: SearchHit, after: SearchHit)
    requires
        enriched(index, before, after),
    ensures
        same_but_metadata(after, before),
        metadata_or_none(after) == (MetadataView {
            entities: metadata_or_none(after).entities,
            ..metadata_or_none(before)
        }),
{
}

/// To enrich a hit once more makes no difference.
pub proof fn lemma_enrich_idempotent(
    index: FrameIndex,
    before: SearchHit,
    after: SearchHit,
    again: SearchHit,
)
    requires
        enriched(index, before, after),
        enriched(index, after, again),
    ensures
        same_but_metadata(again, after),
        metadata_or_none(again) == metadata_or_none(after),
        again.metadata is Some <==> after.metadata is Some,
{
}

/// The entities of a frame are those of the first entry with its number, and none where no entry
/// has it.
pub proof fn lemma_first_entry_counts(list: Seq<FrameEntities>, frame_id: FrameId, k: int)
    requires
        0 <= k <= list.len(),
        forall|j: int| 0 <= j < k ==> (#[trigger] list[j]).frame_id != frame_id,
        k < list.len() ==> list[k].frame_id == frame_id,
    ensures
        k < list.len() ==> entities_of(list, frame_id) == list[k].entities@,
        k == list.len() ==> entities_of(list, frame_id).len() == 0,
    decreases k,
{
    if k > 0 {
        let rest = list.drop_first();
        assert(list[0].frame_id != frame_id);
        assert forall|j: int| 0 <= j < k - 1 implies (#[trigger] rest[j]).frame_id != frame_id by {
            assert(rest[j] == list[j + 1]);
        }
        lemma_first_entry_counts(rest, frame_id, k - 1);
    }
}

/// A hit gets the entities of its frame. Where there are none, and the frame is a part of a
/// document, it gets those of the document. Where there are none either, it stays as it is. Of its
/// metadata only the entities change.
pub proof fn lemma_entities_are_attached(index: FrameIndex, before: SearchHit, after: SearchHit)
    requires
        enriched(index, before, after),
    ensures
        ({
            let own = entities_of(index.entities@, before.frame_id);
            let has_parent = before.frame_id < index.frames@.len()
                && index.frames@[before.frame_id as int].parent_id is Some;
            let parents = entities_of(
                index.entities@,
                index.frames@[before.frame_id as int].parent_id->0,
            );
            &&& own.len() > 0 ==> after.metadata is Some && after.metadata->0.entities@ == own
            &&& own.len() == 0 && has_parent && parents.len() > 0 ==> after.metadata is Some
                && after.metadata->0.entities@ == parents
            &&& own.len() == 0 && !(has_parent && parents.len() > 0) ==> after == before
        }),
        after == (SearchHit { metadata: after.metadata, ..before }),
        before.metadata is Some ==> after.metadata is Some,
        before.metadata matches Some(b) ==> after.metadata matches Some(a) && {
            &&& a.tags@ == b.tags@ && a.labels@ == b.labels@ && a.track == b.track
            &&& a.created_at == b.created_at && a.content_dates@ == b.content_dates@
            &&& a.temporal is Some == b.temporal is Some
            &&& a.temporal is Some ==> a.temporal->0@ == b.temporal->0@
        },
        before.metadata is None && after.metadata is Some ==> {
            let a = after.metadata->0;
            &&& a.tags@.len() == 0 && a.labels@.len() == 0 && a.track is None
            &&& a.created_at is None && a.content_dates@.len() == 0 && a.temporal is None
        },
{
    if let Some(a) = after.metadata {
        assert(a@.tags == a.tags@ && a@.entities == a.entities@);
    }
}

} // verus!
