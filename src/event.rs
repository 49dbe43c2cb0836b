use crate::cell::{CellContent, CellId, CellType};
use crate::geometry::{Rectangle, SplitDirection, SplitRatio};
use vstd::prelude::*;

verus! {

/// Relies on chrono::Utc::now and DateTime::timestamp_millis: the current
/// time in milliseconds since the Unix epoch. Nothing is promised of it.
#[verifier::external_body]
fn now_millis() -> (r: i64) {
    chrono::Utc::now().timestamp_millis()
}

/// A graph event with its time (milliseconds since the Unix epoch).
#[derive(Debug, Clone)]
pub struct GraphEvent {
    pub timestamp: i64,
    pub event: EventType,
}

impl GraphEvent {
    /// An event stamped with the current time.
    pub fn new(event: EventType) -> (r: GraphEvent)
        ensures
            r.event == event,
    {
        GraphEvent { timestamp: now_millis(), event }
    }

    /// An event with the given time.
    pub fn with_timestamp(timestamp: i64, event: EventType) -> (r: GraphEvent)
        ensures
            r.timestamp == timestamp,
            r.event == event,
    {
        GraphEvent { timestamp, event }
    }
}

/// What a mutation of the graph did.
#[derive(Debug, Clone)]
pub enum EventType {
    CellCreated { id: CellId, cell_type: CellType, bounds: Rectangle, name: Option<String> },
    CellSplit {
        parent_id: CellId,
        children: Vec<CellId>,
        direction: SplitDirection,
        split_ratio: SplitRatio,
    },
    CellMerged { merged_ids: Vec<CellId>, new_id: CellId, new_type: CellType },
    CellContentChanged { id: CellId, new_content: CellContent },
    CellTypeChanged { id: CellId, old_type: CellType, new_type: CellType },
    CellRenamed { id: CellId, new_name: Option<String> },
    CellDeleted { id: CellId },
    RelationshipCreated { from: CellId, to: CellId },
    RelationshipDeleted { from: CellId, to: CellId },
    StartPointChanged { old_id: Option<CellId>, new_id: CellId },
    SnapshotCreated { snapshot_id: CellId, state_hash: String },
}

/// `after` is `before` with one more event, whose payload is `e`.
pub open spec fn appended(before: Seq<GraphEvent>, after: Seq<GraphEvent>, e: EventType) -> bool {
    &&& after.len() == before.len() + 1
    &&& after.drop_last() == before
    &&& after.last().event == e
}

/// `after` keeps every event of `before` as its prefix.
pub open spec fn extends(before: Seq<GraphEvent>, after: Seq<GraphEvent>) -> bool {
    &&& before.len() <= after.len()
    &&& after.subrange(0, before.len() as int) == before
}

} // verus!
