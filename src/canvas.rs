use crate::cell::{copy_opt_string, Cell, CellContent, CellId, CellType};
use crate::event::{appended, extends, EventType, GraphEvent};
use crate::geometry::{
    all_wf, cover_edges, cover_spec, lemma_cover_edges, split_parts, split_parts_spec, Rectangle,
    SplitDirection, SplitRatio,
};
use crate::id_generator::{IdGenerator, MAX_LENGTH};
use crate::relationship::Relationship;
use vstd::prelude::*;
use vstd::set_lib::{lemma_int_range, lemma_len_subset, set_int_range};

verus! {

/// Why a graph mutation or lookup failed.
#[derive(Debug, Clone, Copy, PartialEq, Eq, Structural)]
pub enum CanvasError {
    /// No cell has this id.
    CellNotFound(CellId),
    /// No relationship joins these cells.
    RelationshipNotFound { from: CellId, to: CellId },
    /// A relationship from a cell to itself was asked for.
    SelfRelationship,
    /// A split ratio outside (0, 1).
    InvalidSplitRatio,
    /// A merge of fewer than two cells.
    TooFewCells,
    /// Stored parts that break the canvas invariant.
    InvalidParts,
}

// ---------- the model: sequences of cells and relationships ----------

pub open spec fn has_id(cells: Seq<Cell>, id: CellId) -> bool {
    exists|i: int| 0 <= i < cells.len() && (#[trigger] cells[i]).id == id
}

pub open spec fn index_of(cells: Seq<Cell>, id: CellId) -> int {
    choose|i: int| 0 <= i < cells.len() && (#[trigger] cells[i]).id == id
}

pub open spec fn ids_unique(cells: Seq<Cell>) -> bool {
    forall|i: int, j: int|
        0 <= i < cells.len() && 0 <= j < cells.len() && i != j ==> (#[trigger] cells[i]).id != (
        #[trigger] cells[j]).id
}

pub open spec fn rels_wf(cells: Seq<Cell>, rels: Seq<Relationship>) -> bool {
    &&& forall|i: int|
        0 <= i < rels.len() ==> (#[trigger] rels[i]).from != rels[i].to && has_id(cells, rels[i].from)
            && has_id(cells, rels[i].to)
    &&& forall|i: int, j: int|
        0 <= i < rels.len() && 0 <= j < rels.len() && i != j ==> #[trigger] rels[i] != #[trigger] rels[j]
}

/// At most one cell carries the start flag.
pub open spec fn start_unique(cells: Seq<Cell>) -> bool {
    forall|i: int, j: int|
        0 <= i < cells.len() && 0 <= j < cells.len() && i != j ==> !((#[trigger] cells[i]).is_start_point
            && (#[trigger] cells[j]).is_start_point)
}

pub open spec fn bounds_wf(cells: Seq<Cell>) -> bool {
    forall|i: int| 0 <= i < cells.len() ==> (#[trigger] cells[i]).bounds.wf()
}

/// Exactly the cell with id `id` carries the start flag.
pub open spec fn only_start(cells: Seq<Cell>, id: CellId) -> bool {
    forall|i: int| 0 <= i < cells.len() ==> ((#[trigger] cells[i]).is_start_point <==> cells[i].id == id)
}

/// The id of the flagged start cell, if any.
pub open spec fn start_of(cells: Seq<Cell>) -> Option<CellId> {
    if exists|i: int| 0 <= i < cells.len() && (#[trigger] cells[i]).is_start_point {
        Some(cells[choose|i: int| 0 <= i < cells.len() && (#[trigger] cells[i]).is_start_point].id)
    } else {
        None
    }
}

pub open spec fn touches(id: CellId) -> spec_fn(Relationship) -> bool {
    |r: Relationship| r.from == id || r.to == id
}

pub open spec fn untouched_by(id: CellId) -> spec_fn(Relationship) -> bool {
    |r: Relationship| !(r.from == id || r.to == id)
}

pub open spec fn starts_at(id: CellId) -> spec_fn(Relationship) -> bool {
    |r: Relationship| r.from == id
}

pub open spec fn ends_at(id: CellId) -> spec_fn(Relationship) -> bool {
    |r: Relationship| r.to == id
}

/// `i` is the first position holding a cell with short id `s`.
pub open spec fn first_short_at(cells: Seq<Cell>, s: Seq<char>, i: int) -> bool {
    &&& 0 <= i < cells.len()
    &&& cells[i].short_id@ == s
    &&& forall|j: int| 0 <= j < i ==> (#[trigger] cells[j]).short_id@ != s
}

/// The id of the first cell with short id `s`.
pub open spec fn lookup_short(cells: Seq<Cell>, s: Seq<char>) -> Option<CellId> {
    if exists|i: int| first_short_at(cells, s, i) {
        Some(cells[choose|i: int| first_short_at(cells, s, i)].id)
    } else {
        None
    }
}

/// Cells without children: the ones that execute.
pub open spec fn is_leaf() -> spec_fn(Cell) -> bool {
    |c: Cell| c.children@.len() == 0
}

/// Cells whose id is not listed in `ids`.
pub open spec fn not_listed(ids: Seq<CellId>) -> spec_fn(Cell) -> bool {
    |c: Cell| !ids.contains(c.id)
}

/// Relationships touching none of the listed cells.
pub open spec fn touches_none(ids: Seq<CellId>) -> spec_fn(Relationship) -> bool {
    |r: Relationship| !ids.contains(r.from) && !ids.contains(r.to)
}

/// The bounds of the listed cells, in list order.
pub open spec fn bounds_of(c: Canvas, ids: Seq<CellId>) -> Seq<Rectangle> {
    ids.map_values(|x: CellId| c.cell_spec(x).bounds)
}

/// Cells other than `id` whose bounds are adjacent to `bounds`.
pub open spec fn adjacent_to(id: CellId, bounds: Rectangle) -> spec_fn(Cell) -> bool {
    |c: Cell| c.id != id && bounds.adjacent_spec(c.bounds)
}

pub open spec fn cell_ids(cells: Seq<Cell>) -> Seq<CellId> {
    cells.map_values(|c: Cell| c.id)
}

pub proof fn lemma_filter_push<A>(s: Seq<A>, x: A, p: spec_fn(A) -> bool)
    ensures
        s.push(x).filter(p) == if p(x) {
            s.filter(p).push(x)
        } else {
            s.filter(p)
        },
{
    reveal(Seq::filter);
    assert(s.push(x).drop_last() =~= s);
}

/// Filtering by a predicate and by its negation splits the sequence.
pub proof fn lemma_filter_split<A>(s: Seq<A>, p: spec_fn(A) -> bool, q: spec_fn(A) -> bool)
    requires
        forall|x: A| #[trigger] q(x) == !p(x),
    ensures
        s.filter(p).len() + s.filter(q).len() == s.len(),
    decreases s.len(),
{
    if s.len() > 0 {
        lemma_filter_split(s.drop_last(), p, q);
        lemma_filter_push(s.drop_last(), s.last(), p);
        lemma_filter_push(s.drop_last(), s.last(), q);
        assert(s.drop_last().push(s.last()) =~= s);
    } else {
        reveal(Seq::filter);
    }
}

pub fn contains_cell_id(ids: &Vec<CellId>, id: CellId) -> (r: bool)
    ensures
        r == ids@.contains(id),
{
    let mut i: usize = 0;
    while i < ids.len()
        invariant
            i <= ids@.len(),
            forall|j: int| 0 <= j < i ==> ids@[j] != id,
        decreases ids@.len() - i,
    {
        if ids[i] == id {
            return true;
        }
        i += 1;
    }
    false
}

/// A filtered sequence of pairwise distinct items stays pairwise distinct.
pub proof fn lemma_filter_unique<A>(s: Seq<A>, p: spec_fn(A) -> bool)
    requires
        forall|i: int, j: int| 0 <= i < s.len() && 0 <= j < s.len() && i != j ==> #[trigger] s[i] != #[trigger] s[j],
    ensures
        forall|i: int, j: int|
            0 <= i < s.filter(p).len() && 0 <= j < s.filter(p).len() && i != j ==> #[trigger] s.filter(p)[i]
                != #[trigger] s.filter(p)[j],
    decreases s.len(),
{
    reveal(Seq::filter);
    if s.len() > 0 {
        let d = s.drop_last();
        assert forall|i: int, j: int| 0 <= i < d.len() && 0 <= j < d.len() && i != j implies #[trigger] d[i] != #[trigger] d[j] by {
            assert(d[i] == s[i] && d[j] == s[j]);
        }
        lemma_filter_unique(d, p);
        let f = d.filter(p);
        if p(s.last()) {
            assert forall|i: int| 0 <= i < f.len() implies #[trigger] f[i] != s.last() by {
                d.lemma_filter_pred(p, i);
                assert(f.contains(f[i]));
                d.lemma_filter_contains_rev(p, f[i]);
                let k = choose|k: int| 0 <= k < d.len() && d[k] == f[i];
                assert(s[k] == d[k]);
            }
        }
    }
}

/// In a filtered sequence of cells with distinct ids, two positions hold
/// cells with distinct ids that are not both start cells.
proof fn lemma_filter_unique_ids(s: Seq<Cell>, p: spec_fn(Cell) -> bool, i: int, j: int)
    requires
        ids_unique(s),
        start_unique(s),
        0 <= i < s.filter(p).len(),
        0 <= j < s.filter(p).len(),
        i != j,
    ensures
        s.filter(p)[i].id != s.filter(p)[j].id,
        !(s.filter(p)[i].is_start_point && s.filter(p)[j].is_start_point),
    decreases s.len(),
{
    reveal(Seq::filter);
    let d = s.drop_last();
    let f = d.filter(p);
    assert(ids_unique(d) && start_unique(d)) by {
        assert forall|a: int| 0 <= a < d.len() implies #[trigger] d[a] == s[a] by {}
    }
    if p(s.last()) && (i == f.len() || j == f.len()) {
        let other = if i == f.len() { j } else { i };
        d.lemma_filter_pred(p, other);
        assert(f.contains(f[other]));
        d.lemma_filter_contains_rev(p, f[other]);
        let k = choose|k: int| 0 <= k < d.len() && d[k] == f[other];
        assert(s[k] == d[k]);
        assert(s.filter(p)[other] == f[other]);
        assert(s.filter(p)[if i == f.len() { i } else { j }] == s[s.len() - 1]);
    } else {
        assert(s.filter(p)[i] == f[i] && s.filter(p)[j] == f[j]);
        lemma_filter_unique_ids(d, p, i, j);
    }
}

proof fn lemma_index_of(cells: Seq<Cell>, i: int)
    requires
        ids_unique(cells),
        0 <= i < cells.len(),
    ensures
        has_id(cells, cells[i].id),
        index_of(cells, cells[i].id) == i,
{
    assert(has_id(cells, cells[i].id));
}

/// Cells and relationships that may form a canvas.
pub open spec fn parts_valid(cells: Seq<Cell>, rels: Seq<Relationship>) -> bool {
    &&& ids_unique(cells)
    &&& bounds_wf(cells)
    &&& start_unique(cells)
    &&& rels_wf(cells, rels)
}

/// Setting the start point again on the cell that already is the start
/// point changes no cell, and exactly one cell stays flagged.
pub proof fn lemma_start_point_idempotent(before: Seq<Cell>, after: Seq<Cell>, id: CellId)
    requires
        ids_unique(before),
        has_id(before, id),
        only_start(before, id),
        after.len() == before.len(),
        forall|k: int| 0 <= k < before.len() ==> #[trigger] after[k] == (Cell { is_start_point: before[k].id == id, ..before[k] }),
    ensures
        after == before,
        exists|i: int| 0 <= i < after.len() && after[i].id == id && (#[trigger] after[i]).is_start_point
            && forall|j: int| 0 <= j < after.len() && j != i ==> !(#[trigger] after[j]).is_start_point,
{
    assert forall|k: int| 0 <= k < before.len() implies #[trigger] after[k] == before[k] by {
        assert(before[k].is_start_point == (before[k].id == id));
    }
    assert(after =~= before);
    let i = choose|i: int| 0 <= i < before.len() && (#[trigger] before[i]).id == id;
    assert forall|j: int| 0 <= j < after.len() && j != i implies !(#[trigger] after[j]).is_start_point by {
        assert(after[j].id != id);
    }
}

/// What a well-formed canvas holds is accepted by `Canvas::from_parts`,
/// which rebuilds exactly those cells, relationships and root: storing a
/// canvas's parts and loading them back reproduces it.
pub proof fn lemma_parts_round_trip(c: Canvas)
    requires
        c.wf(),
    ensures
        parts_valid(c.cells_spec(), c.rels_spec()),
{
}

/// The canvas: cells, data-flow relationships, an optional root cell and an
/// append-only event log.
pub struct Canvas {
    cells: Vec<Cell>,
    relationships: Vec<Relationship>,
    root_cell: Option<CellId>,
    events: Vec<GraphEvent>,
    id_generator: IdGenerator,
}

impl Canvas {
    pub closed spec fn cells_spec(self) -> Seq<Cell> {
        self.cells@
    }

    pub closed spec fn rels_spec(self) -> Seq<Relationship> {
        self.relationships@
    }

    pub closed spec fn root_spec(self) -> Option<CellId> {
        self.root_cell
    }

    pub closed spec fn events_spec(self) -> Seq<GraphEvent> {
        self.events@
    }

    pub closed spec fn generator_wf(self) -> bool {
        self.id_generator.wf()
    }

    /// The store's invariant: unique cell ids, well-formed bounds, at most
    /// one start cell, unique relationships between distinct existing cells.
    pub open spec fn wf(self) -> bool {
        &&& ids_unique(self.cells_spec())
        &&& bounds_wf(self.cells_spec())
        &&& start_unique(self.cells_spec())
        &&& rels_wf(self.cells_spec(), self.rels_spec())
        &&& self.generator_wf()
    }

    pub open spec fn has_cell(self, id: CellId) -> bool {
        has_id(self.cells_spec(), id)
    }

    pub open spec fn index_spec(self, id: CellId) -> int {
        index_of(self.cells_spec(), id)
    }

    pub open spec fn cell_spec(self, id: CellId) -> Cell {
        self.cells_spec()[self.index_spec(id)]
    }

    pub open spec fn has_rel(self, from: CellId, to: CellId) -> bool {
        self.rels_spec().contains(Relationship { from, to })
    }

    /// An empty canvas.
    pub fn new() -> (r: Canvas)
        ensures
            r.wf(),
            r.cells_spec().len() == 0,
            r.rels_spec().len() == 0,
            r.root_spec() is None,
            r.events_spec().len() == 0,
    {
        Canvas {
            cells: Vec::new(),
            relationships: Vec::new(),
            root_cell: None,
            events: Vec::new(),
            id_generator: IdGenerator::new(),
        }
    }

    /// A canvas holding one cell, which is its root.
    pub fn with_root_cell(cell_type: CellType, bounds: Rectangle, content: CellContent) -> (r:
        Canvas)
        requires
            bounds.wf(),
        ensures
            r.wf(),
            r.cells_spec().len() == 1,
            r.cells_spec()[0].fresh_spec(
                r.cells_spec()[0].id,
                cell_type,
                bounds,
                content,
                r.cells_spec()[0].short_id@,
            ),
            r.root_spec() == Some(r.cells_spec()[0].id),
            r.rels_spec().len() == 0,
            r.events_spec().len() == 1,
    {
        let mut canvas = Canvas::new();
        let id = canvas.create_cell(cell_type, bounds, content);
        canvas.root_cell = Some(id);
        canvas
    }

    /// An id that no cell has: a fresh ULID, or, should it be taken, the
    /// smallest unused number.
    fn unused_id(&self) -> (r: CellId)
        requires
            ids_unique(self.cells@),
        ensures
            !has_id(self.cells@, r),
    {
        let id = crate::cell::fresh_id();
        if !self.contains_id(id) {
            return id;
        }
        let n = self.cells.len();
        let mut k: usize = 0;
        while k <= n
            invariant
                k <= n + 1,
                n == self.cells@.len(),
                forall|j: int| 0 <= j < k ==> #[trigger] has_id(self.cells@, j as CellId),
            decreases n + 1 - k,
        {
            if !self.contains_id(k as CellId) {
                return k as CellId;
            }
            if k == n {
                proof {
                    self.lemma_room();
                }
                return 0;
            }
            k += 1;
        }
        proof {
            self.lemma_room();
        }
        0
    }

    /// Some number up to the cell count is no cell's id.
    proof fn lemma_room(&self)
        ensures
            exists|j: int| 0 <= j <= self.cells@.len() && !#[trigger] has_id(self.cells@, j as CellId),
    {
        if forall|j: int| 0 <= j <= self.cells@.len() ==> #[trigger] has_id(self.cells@, j as CellId) {
            self.lemma_full_range_impossible();
        }
    }

    proof fn lemma_full_range_impossible(&self)
        requires
            forall|j: int| 0 <= j <= self.cells@.len() ==> #[trigger] has_id(self.cells@, j as CellId),
        ensures
            self.cells@.len() + 1 <= self.cells@.len(),
    {
        let n = self.cells@.len() as int;
        assert(self.cells.len() == n);
        let ids = self.cells@.map_values(|c: Cell| c.id as int);
        ids.lemma_cardinality_of_set();
        lemma_int_range(0, n + 1);
        assert forall|j: int| set_int_range(0, n + 1).contains(j) implies ids.to_set().contains(j) by {
            assert(has_id(self.cells@, j as CellId));
            let i = choose|i: int| 0 <= i < self.cells@.len() && (#[trigger] self.cells@[i]).id == j as CellId;
            assert(ids[i] == j);
            assert(ids.contains(j));
        }
        vstd::seq_lib::seq_to_set_is_finite(ids);
        lemma_len_subset(set_int_range(0, n + 1), ids.to_set());
    }

    fn contains_id(&self, id: CellId) -> (r: bool)
        ensures
            r == has_id(self.cells@, id),
    {
        match self.find_index(id) {
            Some(_) => true,
            None => false,
        }
    }

    /// Position of the cell with this id.
    fn find_index(&self, id: CellId) -> (r: Option<usize>)
        ensures
            r matches Some(i) ==> i < self.cells@.len() && self.cells@[i as int].id == id,
            r is None <==> !has_id(self.cells@, id),
    {
        let mut i: usize = 0;
        while i < self.cells.len()
            invariant
                i <= self.cells@.len(),
                forall|j: int| 0 <= j < i ==> (#[trigger] self.cells@[j]).id != id,
            decreases self.cells@.len() - i,
        {
            if self.cells[i].id == id {
                return Some(i);
            }
            i += 1;
        }
        None
    }

    fn log_event(&mut self, event: EventType)
        ensures
            appended(old(self).events@, final(self).events@, event),
            final(self).cells@ == old(self).cells@,
            final(self).relationships@ == old(self).relationships@,
            final(self).root_cell == old(self).root_cell,
            final(self).id_generator == old(self).id_generator,
    {
        let e = GraphEvent::new(event);
        self.events.push(e);
        assert(self.events@.drop_last() =~= old(self).events@);
    }

    fn next_short_id(&mut self) -> (r: String)
        requires
            old(self).id_generator.wf(),
        ensures
            final(self).id_generator.wf(),
            final(self).cells@ == old(self).cells@,
            final(self).relationships@ == old(self).relationships@,
            final(self).root_cell == old(self).root_cell,
            final(self).events@ == old(self).events@,
    {
        if self.id_generator.can_advance() {
            self.id_generator.next()
        } else {
            String::new()
        }
    }

    /// Create a cell and add it to the canvas.
    pub fn create_cell(&mut self, cell_type: CellType, bounds: Rectangle, content: CellContent) -> (r:
        CellId)
        requires
            old(self).wf(),
            bounds.wf(),
        ensures
            final(self).wf(),
            !old(self).has_cell(r),
            final(self).cells_spec() == old(self).cells_spec().push(final(self).cells_spec().last()),
            final(self).cells_spec().last().fresh_spec(
                r,
                cell_type,
                bounds,
                content,
                final(self).cells_spec().last().short_id@,
            ),
            final(self).rels_spec() == old(self).rels_spec(),
            final(self).root_spec() == old(self).root_spec(),
            appended(
                old(self).events_spec(),
                final(self).events_spec(),
                EventType::CellCreated { id: r, cell_type, bounds, name: None },
            ),
    {
        let id = self.unused_id();
        let short_id = self.next_short_id();
        let cell = Cell::with_id(id, cell_type, bounds, content, short_id);
        self.log_event(EventType::CellCreated { id, cell_type, bounds, name: None });
        let ghost before = self.cells@;
        self.cells.push(cell);
        proof {
            assert(self.cells@.drop_last() == before);
            assert forall|i: int| 0 <= i < before.len() implies #[trigger] self.cells@[i] == before[i] by {}
            assert forall|i: int| 0 <= i < self.relationships@.len() implies has_id(self.cells@, (#[trigger] self.relationships@[i]).from) && has_id(self.cells@, self.relationships@[i].to) by {
                let a = choose|a: int| 0 <= a < before.len() && (#[trigger] before[a]).id == self.relationships@[i].from;
                let b = choose|b: int| 0 <= b < before.len() && (#[trigger] before[b]).id == self.relationships@[i].to;
                assert(self.cells@[a] == before[a] && self.cells@[b] == before[b]);
            }
        }
        id
    }

    /// The cell with this id.
    pub fn get_cell(&self, id: CellId) -> (r: Option<&Cell>)
        requires
            self.wf(),
        ensures
            r is Some <==> self.has_cell(id),
            r matches Some(c) ==> *c == self.cell_spec(id) && c.id == id,
    {
        match self.find_index(id) {
            Some(i) => {
                proof {
                    lemma_index_of(self.cells@, i as int);
                }
                Some(&self.cells[i])
            },
            None => None,
        }
    }

    /// All cells, in insertion order.
    pub fn cells(&self) -> (r: &Vec<Cell>)
        ensures
            r@ == self.cells_spec(),
    {
        &self.cells
    }

    /// The id of the first cell whose short id is `short_id`.
    pub fn get_cell_id_by_short_id(&self, short_id: &str) -> (r: Option<CellId>)
        ensures
            r == lookup_short(self.cells_spec(), short_id@),
    {
        let mut i: usize = 0;
        while i < self.cells.len()
            invariant
                i <= self.cells@.len(),
                forall|j: int| 0 <= j < i ==> (#[trigger] self.cells@[j]).short_id@ != short_id@,
            decreases self.cells@.len() - i,
        {
            if crate::text::same_text(self.cells[i].short_id.as_str(), short_id) {
                proof {
                    assert(first_short_at(self.cells@, short_id@, i as int));
                    let k = choose|k: int| first_short_at(self.cells@, short_id@, k);
                    assert(k == i);
                }
                return Some(self.cells[i].id);
            }
            i += 1;
        }
        None
    }

    /// Changing fields of one cell other than its id, bounds and start flag
    /// keeps the canvas well-formed.
    proof fn lemma_same_shape(old_canvas: Canvas, new_canvas: Canvas, i: int)
        requires
            old_canvas.wf(),
            0 <= i < old_canvas.cells@.len(),
            new_canvas.cells@ == old_canvas.cells@.update(i, new_canvas.cells@[i]),
            new_canvas.cells@[i].id == old_canvas.cells@[i].id,
            new_canvas.cells@[i].bounds == old_canvas.cells@[i].bounds,
            new_canvas.cells@[i].is_start_point == old_canvas.cells@[i].is_start_point,
            new_canvas.relationships@ == old_canvas.relationships@,
            new_canvas.id_generator == old_canvas.id_generator,
        ensures
            new_canvas.wf(),
    {
        let before = old_canvas.cells@;
        let after = new_canvas.cells@;
        assert forall|k: int| 0 <= k < before.len() implies (#[trigger] after[k]).id == before[k].id
            && after[k].bounds == before[k].bounds && after[k].is_start_point
            == before[k].is_start_point by {}
        assert forall|x: CellId| has_id(before, x) implies #[trigger] has_id(after, x) by {
            let a = choose|a: int| 0 <= a < before.len() && (#[trigger] before[a]).id == x;
            assert(after[a].id == x);
        }
    }

    /// The cell at `i` of a well-formed canvas has the id it is found by.
    proof fn lemma_found(&self, i: int)
        requires
            self.wf(),
            0 <= i < self.cells@.len(),
        ensures
            self.has_cell(self.cells@[i].id),
            self.index_spec(self.cells@[i].id) == i,
            self.cell_spec(self.cells@[i].id) == self.cells@[i],
    {
        lemma_index_of(self.cells@, i);
    }

    /// Replace a cell's content.
    pub fn update_cell_content(&mut self, id: CellId, content: CellContent) -> (r: Result<(), CanvasError>)
        requires
            old(self).wf(),
        ensures
            final(self).wf(),
            r is Err <==> !old(self).has_cell(id),
            r is Err ==> r == Err::<(), CanvasError>(CanvasError::CellNotFound(id)) && *final(self) == *old(self),
            r is Ok ==> {
                &&& final(self).cells_spec() == old(self).cells_spec().update(
                    old(self).index_spec(id),
                    Cell { content, ..old(self).cell_spec(id) },
                )
                &&& final(self).rels_spec() == old(self).rels_spec()
                &&& final(self).root_spec() == old(self).root_spec()
                &&& appended(
                    old(self).events_spec(),
                    final(self).events_spec(),
                    EventType::CellContentChanged { id, new_content: content },
                )
            },
    {
        match self.find_index(id) {
            None => Err(CanvasError::CellNotFound(id)),
            Some(i) => {
                proof {
                    self.lemma_found(i as int);
                }
                let logged = content.copy();
                let ghost before = *self;
                self.cells[i].content = content;
                proof {
                    Canvas::lemma_same_shape(before, *self, i as int);
                }
                self.log_event(EventType::CellContentChanged { id, new_content: logged });
                Ok(())
            },
        }
    }

    /// Change a cell's type.
    pub fn update_cell_type(&mut self, id: CellId, new_type: CellType) -> (r: Result<(), CanvasError>)
        requires
            old(self).wf(),
        ensures
            final(self).wf(),
            r is Err <==> !old(self).has_cell(id),
            r is Err ==> r == Err::<(), CanvasError>(CanvasError::CellNotFound(id)) && *final(self) == *old(self),
            r is Ok ==> {
                &&& final(self).cells_spec() == old(self).cells_spec().update(
                    old(self).index_spec(id),
                    Cell { cell_type: new_type, ..old(self).cell_spec(id) },
                )
                &&& final(self).rels_spec() == old(self).rels_spec()
                &&& final(self).root_spec() == old(self).root_spec()
                &&& appended(
                    old(self).events_spec(),
                    final(self).events_spec(),
                    EventType::CellTypeChanged { id, old_type: old(self).cell_spec(id).cell_type, new_type },
                )
            },
    {
        match self.find_index(id) {
            None => Err(CanvasError::CellNotFound(id)),
            Some(i) => {
                proof {
                    self.lemma_found(i as int);
                }
                let old_type = self.cells[i].cell_type;
                let ghost before = *self;
                self.cells[i].cell_type = new_type;
                proof {
                    Canvas::lemma_same_shape(before, *self, i as int);
                }
                self.log_event(EventType::CellTypeChanged { id, old_type, new_type });
                Ok(())
            },
        }
    }

    /// Set or clear a cell's name.
    pub fn rename_cell(&mut self, id: CellId, name: Option<String>) -> (r: Result<(), CanvasError>)
        requires
            old(self).wf(),
        ensures
            final(self).wf(),
            r is Err <==> !old(self).has_cell(id),
            r is Err ==> r == Err::<(), CanvasError>(CanvasError::CellNotFound(id)) && *final(self) == *old(self),
            r is Ok ==> {
                &&& final(self).cells_spec() == old(self).cells_spec().update(
                    old(self).index_spec(id),
                    Cell { name, ..old(self).cell_spec(id) },
                )
                &&& final(self).rels_spec() == old(self).rels_spec()
                &&& final(self).root_spec() == old(self).root_spec()
                &&& appended(
                    old(self).events_spec(),
                    final(self).events_spec(),
                    EventType::CellRenamed { id, new_name: name },
                )
            },
    {
        match self.find_index(id) {
            None => Err(CanvasError::CellNotFound(id)),
            Some(i) => {
                proof {
                    self.lemma_found(i as int);
                }
                let logged = copy_opt_string(&name);
                let ghost before = *self;
                self.cells[i].name = name;
                proof {
                    Canvas::lemma_same_shape(before, *self, i as int);
                }
                self.log_event(EventType::CellRenamed { id, new_name: logged });
                Ok(())
            },
        }
    }

    /// Position of the relationship `from -> to`.
    fn find_rel(&self, from: CellId, to: CellId) -> (r: Option<usize>)
        ensures
            r matches Some(i) ==> i < self.relationships@.len() && self.relationships@[i as int]
                == (Relationship { from, to }),
            r is None <==> !self.relationships@.contains(Relationship { from, to }),
    {
        let mut i: usize = 0;
        while i < self.relationships.len()
            invariant
                i <= self.relationships@.len(),
                forall|j: int| 0 <= j < i ==> #[trigger] self.relationships@[j] != (Relationship { from, to }),
            decreases self.relationships@.len() - i,
        {
            let rel = self.relationships[i];
            if rel.from == from && rel.to == to {
                return Some(i);
            }
            i += 1;
        }
        None
    }

    /// Add the relationship `from -> to`; adding an existing one again
    /// changes nothing but the log.
    pub fn create_relationship(&mut self, from: CellId, to: CellId) -> (r: Result<(), CanvasError>)
        requires
            old(self).wf(),
        ensures
            final(self).wf(),
            !old(self).has_cell(from) ==> r == Err::<(), CanvasError>(CanvasError::CellNotFound(from)),
            old(self).has_cell(from) && !old(self).has_cell(to) ==> r == Err::<(), CanvasError>(
                CanvasError::CellNotFound(to),
            ),
            old(self).has_cell(from) && old(self).has_cell(to) && from == to ==> r == Err::<
                (),
                CanvasError,
            >(CanvasError::SelfRelationship),
            r is Ok <==> old(self).has_cell(from) && old(self).has_cell(to) && from != to,
            r is Err ==> *final(self) == *old(self),
            r is Ok ==> {
                &&& final(self).cells_spec() == old(self).cells_spec()
                &&& final(self).rels_spec() == if old(self).has_rel(from, to) {
                    old(self).rels_spec()
                } else {
                    old(self).rels_spec().push(Relationship { from, to })
                }
                &&& final(self).root_spec() == old(self).root_spec()
                &&& appended(
                    old(self).events_spec(),
                    final(self).events_spec(),
                    EventType::RelationshipCreated { from, to },
                )
            },
    {
        if !self.contains_id(from) {
            return Err(CanvasError::CellNotFound(from));
        }
        if !self.contains_id(to) {
            return Err(CanvasError::CellNotFound(to));
        }
        if from == to {
            return Err(CanvasError::SelfRelationship);
        }
        if self.find_rel(from, to).is_none() {
            let ghost before = self.relationships@;
            self.relationships.push(Relationship::new(from, to));
            proof {
                assert forall|i: int| 0 <= i < before.len() implies #[trigger] self.relationships@[i] == before[i] by {}
                assert(self.relationships@.last() == Relationship { from, to });
            }
        }
        self.log_event(EventType::RelationshipCreated { from, to });
        Ok(())
    }

    /// The relationship `from -> to`, if present.
    pub fn get_relationship(&self, from: CellId, to: CellId) -> (r: Option<&Relationship>)
        ensures
            r is Some <==> self.has_rel(from, to),
            r matches Some(rel) ==> *rel == (Relationship { from, to }),
    {
        match self.find_rel(from, to) {
            Some(i) => Some(&self.relationships[i]),
            None => None,
        }
    }

    /// All relationships.
    pub fn relationships(&self) -> (r: &Vec<Relationship>)
        ensures
            r@ == self.rels_spec(),
    {
        &self.relationships
    }

    /// Remove the relationship `from -> to`.
    pub fn delete_relationship(&mut self, from: CellId, to: CellId) -> (r: Result<(), CanvasError>)
        requires
            old(self).wf(),
        ensures
            final(self).wf(),
            r is Err <==> !old(self).has_rel(from, to),
            r is Err ==> r == Err::<(), CanvasError>(CanvasError::RelationshipNotFound { from, to })
                && *final(self) == *old(self),
            r is Ok ==> {
                &&& final(self).cells_spec() == old(self).cells_spec()
                &&& exists|i: int|
                    0 <= i < old(self).rels_spec().len() && old(self).rels_spec()[i] == (Relationship {
                        from,
                        to,
                    }) && final(self).rels_spec() == old(self).rels_spec().remove(i)
                &&& !final(self).has_rel(from, to)
                &&& final(self).root_spec() == old(self).root_spec()
                &&& appended(
                    old(self).events_spec(),
                    final(self).events_spec(),
                    EventType::RelationshipDeleted { from, to },
                )
            },
    {
        match self.find_rel(from, to) {
            None => Err(CanvasError::RelationshipNotFound { from, to }),
            Some(i) => {
                let ghost before = self.relationships@;
                self.relationships.remove(i);
                proof {
                    let after = self.relationships@;
                    assert(after == before.remove(i as int));
                    assert forall|k: int| 0 <= k < after.len() implies #[trigger] after[k] == if k < i {
                        before[k]
                    } else {
                        before[k + 1]
                    } by {}
                    assert forall|a: int, b: int|
                        0 <= a < after.len() && 0 <= b < after.len() && a != b implies #[trigger] after[a]
                        != #[trigger] after[b] by {
                        let a2 = if a < i { a } else { a + 1 };
                        let b2 = if b < i { b } else { b + 1 };
                        assert(after[a] == before[a2] && after[b] == before[b2]);
                    }
                    if after.contains(Relationship { from, to }) {
                        let k = choose|k: int| 0 <= k < after.len() && after[k] == Relationship { from, to };
                        let k2 = if k < i { k } else { k + 1 };
                        assert(before[k2] == before[i as int]);
                    }
                }
                self.log_event(EventType::RelationshipDeleted { from, to });
                Ok(())
            },
        }
    }

    /// All relationships leaving `from`.
    pub fn get_outgoing_relationships(&self, from: CellId) -> (r: Vec<Relationship>)
        ensures
            r@ == self.rels_spec().filter(starts_at(from)),
    {
        let mut out: Vec<Relationship> = Vec::new();
        let mut i: usize = 0;
        while i < self.relationships.len()
            invariant
                i <= self.relationships@.len(),
                out@ == self.relationships@.take(i as int).filter(starts_at(from)),
            decreases self.relationships@.len() - i,
        {
            proof {
                lemma_filter_push(self.relationships@.take(i as int), self.relationships@[i as int], starts_at(from));
                assert(self.relationships@.take(i as int).push(self.relationships@[i as int]) =~= self.relationships@.take(i + 1));
            }
            if self.relationships[i].from == from {
                out.push(self.relationships[i]);
            }
            i += 1;
        }
        assert(self.relationships@.take(i as int) =~= self.relationships@);
        out
    }

    /// All relationships entering `to`.
    pub fn get_incoming_relationships(&self, to: CellId) -> (r: Vec<Relationship>)
        ensures
            r@ == self.rels_spec().filter(ends_at(to)),
    {
        let mut out: Vec<Relationship> = Vec::new();
        let mut i: usize = 0;
        while i < self.relationships.len()
            invariant
                i <= self.relationships@.len(),
                out@ == self.relationships@.take(i as int).filter(ends_at(to)),
            decreases self.relationships@.len() - i,
        {
            proof {
                lemma_filter_push(self.relationships@.take(i as int), self.relationships@[i as int], ends_at(to));
                assert(self.relationships@.take(i as int).push(self.relationships@[i as int]) =~= self.relationships@.take(i + 1));
            }
            if self.relationships[i].to == to {
                out.push(self.relationships[i]);
            }
            i += 1;
        }
        assert(self.relationships@.take(i as int) =~= self.relationships@);
        out
    }

    /// The event log, oldest first.
    pub fn events(&self) -> (r: &Vec<GraphEvent>)
        ensures
            r@ == self.events_spec(),
    {
        &self.events
    }

    /// Empty the event log.
    pub fn clear_events(&mut self)
        requires
            old(self).wf(),
        ensures
            final(self).wf(),
            final(self).events_spec().len() == 0,
            final(self).cells_spec() == old(self).cells_spec(),
            final(self).rels_spec() == old(self).rels_spec(),
            final(self).root_spec() == old(self).root_spec(),
    {
        self.events.clear();
    }

    /// The root cell's id.
    pub fn root_cell(&self) -> (r: Option<CellId>)
        ensures
            r == self.root_spec(),
    {
        self.root_cell
    }

    /// The cell flagged as start point, if any.
    pub fn get_start_point(&self) -> (r: Option<&Cell>)
        requires
            self.wf(),
        ensures
            r is Some <==> start_of(self.cells_spec()) is Some,
            r matches Some(c) ==> c.is_start_point && start_of(self.cells_spec()) == Some(c.id)
                && self.has_cell(c.id) && *c == self.cell_spec(c.id),
    {
        let mut i: usize = 0;
        while i < self.cells.len()
            invariant
                self.wf(),
                i <= self.cells@.len(),
                forall|j: int| 0 <= j < i ==> !(#[trigger] self.cells@[j]).is_start_point,
            decreases self.cells@.len() - i,
        {
            if self.cells[i].is_start_point {
                proof {
                    self.lemma_found(i as int);
                    assert(exists|k: int| 0 <= k < self.cells@.len() && (#[trigger] self.cells@[k]).is_start_point);
                    let k = choose|k: int| 0 <= k < self.cells@.len() && (#[trigger] self.cells@[k]).is_start_point;
                    assert(k == i);
                }
                return Some(&self.cells[i]);
            }
            i += 1;
        }
        None
    }

    /// Number of cells.
    pub fn cell_count(&self) -> (r: usize)
        ensures
            r == self.cells_spec().len(),
    {
        self.cells.len()
    }

    /// Number of relationships.
    pub fn relationship_count(&self) -> (r: usize)
        ensures
            r == self.rels_spec().len(),
    {
        self.relationships.len()
    }

    /// Drop every relationship touching a listed cell, logging each removal.
    fn remove_rels_touching(&mut self, ids: &Vec<CellId>)
        requires
            old(self).wf(),
        ensures
            final(self).relationships@ == old(self).relationships@.filter(touches_none(ids@)),
            final(self).cells@ == old(self).cells@,
            final(self).root_cell == old(self).root_cell,
            final(self).id_generator == old(self).id_generator,
            extends(old(self).events@, final(self).events@),
            final(self).wf(),
    {
        let ghost orig = self.relationships@;
        let mut rest: Vec<Relationship> = Vec::new();
        std::mem::swap(&mut self.relationships, &mut rest);
        let mut k: usize = 0;
        let n = rest.len();
        assert(self.events@.subrange(0, self.events@.len() as int) =~= self.events@);
        while k < n
            invariant
                rest@ == orig,
                n == orig.len(),
                k <= n,
                self.relationships@ == orig.take(k as int).filter(touches_none(ids@)),
                self.cells@ == old(self).cells@,
                self.root_cell == old(self).root_cell,
                self.id_generator == old(self).id_generator,
                extends(old(self).events@, self.events@),
                old(self).wf(),
            decreases n - k,
        {
            let rel = rest[k];
            proof {
                lemma_filter_push(orig.take(k as int), rel, touches_none(ids@));
                assert(orig.take(k as int).push(rel) =~= orig.take(k + 1));
            }
            if contains_cell_id(ids, rel.from) || contains_cell_id(ids, rel.to) {
                let ghost ev = self.events@;
                self.events.push(GraphEvent::new(EventType::RelationshipDeleted { from: rel.from, to: rel.to }));
                proof {
                    assert(self.events@.subrange(0, old(self).events@.len() as int) =~= ev.subrange(0, old(self).events@.len() as int));
                }
            } else {
                self.relationships.push(rel);
            }
            k += 1;
        }
        proof {
            assert(orig.take(n as int) =~= orig);
            let kept = self.relationships@;
            let p = touches_none(ids@);
            assert forall|i: int| 0 <= i < kept.len() implies orig.contains(#[trigger] kept[i]) && p(kept[i]) by {
                orig.lemma_filter_pred(p, i);
                assert(kept.contains(kept[i]));
                orig.lemma_filter_contains_rev(p, kept[i]);
            }
            lemma_filter_unique(orig, p);
        }
    }

    /// Drop every listed cell.
    fn remove_cells_listed(&mut self, ids: &Vec<CellId>)
        requires
            old(self).wf(),
            forall|i: int| 0 <= i < old(self).relationships@.len() ==> #[trigger] touches_none(ids@)(old(self).relationships@[i]),
        ensures
            final(self).cells@ == old(self).cells@.filter(not_listed(ids@)),
            final(self).relationships@ == old(self).relationships@,
            final(self).root_cell == old(self).root_cell,
            final(self).id_generator == old(self).id_generator,
            final(self).events@ == old(self).events@,
            final(self).wf(),
    {
        let ghost orig = self.cells@;
        let mut rest: Vec<Cell> = Vec::new();
        std::mem::swap(&mut self.cells, &mut rest);
        let n = rest.len();
        let mut k: usize = 0;
        while k < n
            invariant
                n == orig.len(),
                k <= n,
                rest@ == orig.skip(k as int),
                self.cells@ == orig.take(k as int).filter(not_listed(ids@)),
                self.relationships@ == old(self).relationships@,
                self.root_cell == old(self).root_cell,
                self.id_generator == old(self).id_generator,
                self.events@ == old(self).events@,
            decreases n - k,
        {
            let c = rest.remove(0);
            proof {
                assert(c == orig[k as int]);
                lemma_filter_push(orig.take(k as int), c, not_listed(ids@));
                assert(orig.take(k as int).push(c) =~= orig.take(k + 1));
                assert(rest@ =~= orig.skip(k + 1));
            }
            if !contains_cell_id(ids, c.id) {
                self.cells.push(c);
            }
            k += 1;
        }
        proof {
            assert(orig.take(n as int) =~= orig);
            let p = not_listed(ids@);
            let kept = self.cells@;
            assert forall|i: int| 0 <= i < kept.len() implies orig.contains(#[trigger] kept[i]) && p(kept[i]) by {
                orig.lemma_filter_pred(p, i);
                assert(kept.contains(kept[i]));
                orig.lemma_filter_contains_rev(p, kept[i]);
            }
            assert forall|x: CellId| has_id(orig, x) && !ids@.contains(x) implies #[trigger] has_id(kept, x) by {
                let a = choose|a: int| 0 <= a < orig.len() && (#[trigger] orig[a]).id == x;
                orig.lemma_filter_contains(p, a);
                let b = choose|b: int| 0 <= b < kept.len() && kept[b] == orig[a];
                assert(kept[b].id == x);
            }
            assert forall|i: int, j: int| 0 <= i < kept.len() && 0 <= j < kept.len() && i != j
                implies (#[trigger] kept[i]).id != (#[trigger] kept[j]).id && !(kept[i].is_start_point && kept[j].is_start_point) by {
                lemma_filter_unique_ids(orig, p, i, j);
            }
            assert forall|i: int| 0 <= i < self.relationships@.len() implies has_id(kept, (#[trigger] self.relationships@[i]).from) && has_id(kept, self.relationships@[i].to) by {
                assert(touches_none(ids@)(self.relationships@[i]));
            }
            assert forall|i: int| 0 <= i < kept.len() implies (#[trigger] kept[i]).bounds.wf() by {
                assert(orig.contains(kept[i]));
            }
        }
    }

    /// Delete a cell together with every relationship touching it.
    pub fn delete_cell(&mut self, id: CellId) -> (r: Result<(), CanvasError>)
        requires
            old(self).wf(),
        ensures
            final(self).wf(),
            r is Err <==> !old(self).has_cell(id),
            r is Err ==> r == Err::<(), CanvasError>(CanvasError::CellNotFound(id)) && *final(self) == *old(self),
            r is Ok ==> {
                &&& final(self).cells_spec() == old(self).cells_spec().filter(not_listed(seq![id]))
                &&& !final(self).has_cell(id)
                &&& final(self).rels_spec() == old(self).rels_spec().filter(touches_none(seq![id]))
                &&& forall|i: int| 0 <= i < final(self).rels_spec().len() ==> !(#[trigger] final(self).rels_spec()[i]).involves_spec(id)
                &&& final(self).rels_spec().len() == old(self).rels_spec().len() - old(self).rels_spec().filter(touches(id)).len()
                &&& final(self).root_spec() == if old(self).root_spec() == Some(id) { None } else { old(self).root_spec() }
                &&& extends(old(self).events_spec(), final(self).events_spec())
                &&& final(self).events_spec().last().event == EventType::CellDeleted { id }
            },
    {
        if !self.contains_id(id) {
            return Err(CanvasError::CellNotFound(id));
        }
        let ids = vec![id];
        assert(ids@ =~= seq![id]);
        let ghost ev0 = self.events@;
        self.remove_rels_touching(&ids);
        self.remove_cells_listed(&ids);
        if self.root_cell == Some(id) {
            self.root_cell = None;
        }
        let ghost ev = self.events@;
        self.log_event(EventType::CellDeleted { id });
        proof {
            assert(self.events@.subrange(0, old(self).events@.len() as int) =~= ev.subrange(0, old(self).events@.len() as int));
            assert(extends(old(self).events@, self.events@));
            assert(self.events@.last().event == EventType::CellDeleted { id });
            let kept = self.cells@;
            if has_id(kept, id) {
                let b = choose|b: int| 0 <= b < kept.len() && (#[trigger] kept[b]).id == id;
                old(self).cells@.lemma_filter_pred(not_listed(ids@), b);
            }
            let rels = self.relationships@;
            assert forall|i: int| 0 <= i < rels.len() implies !(#[trigger] rels[i]).involves_spec(id) by {
                old(self).relationships@.lemma_filter_pred(touches_none(ids@), i);
            }
            assert(touches_none(seq![id]) == untouched_by(id)) by {
                assert forall|x: Relationship| #[trigger] touches_none(seq![id])(x) == untouched_by(id)(x) by {
                    assert(seq![id].contains(x.from) <==> x.from == id) by {
                        if x.from == id { assert(seq![id][0] == id); }
                    }
                    assert(seq![id].contains(x.to) <==> x.to == id) by {
                        if x.to == id { assert(seq![id][0] == id); }
                    }
                }
                assert(touches_none(seq![id]) =~= untouched_by(id));
            }
            lemma_filter_split(old(self).relationships@, touches(id), untouched_by(id));
        }
        Ok(())
    }

    /// Make the cell with this id the one start point: every other cell
    /// loses the flag within the same call.
    pub fn set_start_point(&mut self, id: CellId) -> (r: Result<(), CanvasError>)
        requires
            old(self).wf(),
        ensures
            final(self).wf(),
            r is Err <==> !old(self).has_cell(id),
            r is Err ==> r == Err::<(), CanvasError>(CanvasError::CellNotFound(id)) && *final(self) == *old(self),
            r is Ok ==> {
                &&& final(self).cells_spec().len() == old(self).cells_spec().len()
                &&& forall|k: int| 0 <= k < old(self).cells_spec().len() ==> #[trigger] final(self).cells_spec()[k]
                    == (Cell { is_start_point: old(self).cells_spec()[k].id == id, ..old(self).cells_spec()[k] })
                &&& only_start(final(self).cells_spec(), id)
                &&& start_of(final(self).cells_spec()) == Some(id)
                &&& final(self).rels_spec() == old(self).rels_spec()
                &&& final(self).root_spec() == old(self).root_spec()
                &&& appended(
                    old(self).events_spec(),
                    final(self).events_spec(),
                    EventType::StartPointChanged { old_id: start_of(old(self).cells_spec()), new_id: id },
                )
            },
    {
        let target = match self.find_index(id) {
            None => {
                return Err(CanvasError::CellNotFound(id));
            },
            Some(i) => i,
        };
        let old_start = match self.get_start_point() {
            Some(c) => Some(c.id),
            None => None,
        };
        let ghost before = self.cells@;
        let n = self.cells.len();
        let mut k: usize = 0;
        while k < n
            invariant
                n == before.len() == self.cells@.len(),
                k <= n,
                forall|j: int| 0 <= j < k ==> #[trigger] self.cells@[j] == (Cell { is_start_point: before[j].id == id, ..before[j] }),
                forall|j: int| k <= j < n ==> #[trigger] self.cells@[j] == before[j],
                self.relationships@ == old(self).relationships@,
                self.root_cell == old(self).root_cell,
                self.events@ == old(self).events@,
                self.id_generator == old(self).id_generator,
            decreases n - k,
        {
            let flag = self.cells[k].id == id;
            self.cells[k].is_start_point = flag;
            k += 1;
        }
        proof {
            let after = self.cells@;
            assert forall|j: int| 0 <= j < n implies (#[trigger] after[j]).id == before[j].id && after[j].bounds == before[j].bounds by {}
            assert forall|x: CellId| has_id(before, x) implies #[trigger] has_id(after, x) by {
                let a = choose|a: int| 0 <= a < before.len() && (#[trigger] before[a]).id == x;
                assert(after[a].id == x);
            }
            assert(after[target as int].is_start_point);
            assert(exists|j: int| 0 <= j < after.len() && (#[trigger] after[j]).is_start_point);
        }
        self.log_event(EventType::StartPointChanged { old_id: old_start, new_id: id });
        Ok(())
    }

    /// Split a leaf into two children tiling its bounds. The first child
    /// inherits the content and the start flag (which the parent then
    /// gives up); the second starts empty. The parent stays as a container
    /// listing both children.
    pub fn split_cell(&mut self, cell_id: CellId, direction: SplitDirection, split_ratio: SplitRatio) -> (r:
        Result<(CellId, CellId), CanvasError>)
        requires
            old(self).wf(),
        ensures
            final(self).wf(),
            !split_ratio.is_valid() ==> r == Err::<(CellId, CellId), CanvasError>(CanvasError::InvalidSplitRatio),
            split_ratio.is_valid() && !old(self).has_cell(cell_id) ==> r == Err::<(CellId, CellId), CanvasError>(
                CanvasError::CellNotFound(cell_id),
            ),
            r is Ok <==> split_ratio.is_valid() && old(self).has_cell(cell_id),
            r is Err ==> *final(self) == *old(self),
            r matches Ok((c1, c2)) ==> {
                let parent = old(self).cell_spec(cell_id);
                let n = old(self).cells_spec().len() as int;
                let cells = final(self).cells_spec();
                let (b1, b2) = split_parts_spec(parent.bounds, direction, split_ratio);
                &&& !old(self).has_cell(c1) && !old(self).has_cell(c2) && c1 != c2
                &&& cells.len() == n + 2
                &&& forall|k: int| 0 <= k < n && k != old(self).index_spec(cell_id) ==> #[trigger] cells[k] == old(self).cells_spec()[k]
                &&& cells[old(self).index_spec(cell_id)].id == cell_id
                &&& cells[old(self).index_spec(cell_id)].bounds == parent.bounds
                &&& cells[old(self).index_spec(cell_id)].content == parent.content
                &&& !cells[old(self).index_spec(cell_id)].is_start_point
                &&& cells[old(self).index_spec(cell_id)].children@ == parent.children@.push(c1).push(c2)
                &&& cells[n].id == c1 && cells[n + 1].id == c2
                &&& cells[n].bounds == b1 && cells[n + 1].bounds == b2
                &&& cells[n].content == parent.content
                &&& cells[n + 1].content matches CellContent::Inline(s) && s@.len() == 0
                &&& cells[n].is_start_point == parent.is_start_point
                &&& !cells[n + 1].is_start_point
                &&& cells[n].parent == Some(cell_id) && cells[n + 1].parent == Some(cell_id)
                &&& cells[n].children@.len() == 0 && cells[n + 1].children@.len() == 0
                &&& cells[n].cell_type == parent.cell_type && cells[n + 1].cell_type == parent.cell_type
                &&& final(self).rels_spec() == old(self).rels_spec()
                &&& final(self).root_spec() == old(self).root_spec()
                &&& final(self).events_spec().len() == old(self).events_spec().len() + 1
                &&& final(self).events_spec().drop_last() == old(self).events_spec()
                &&& final(self).events_spec().last().event matches EventType::CellSplit { parent_id, children, direction: d, split_ratio: q }
                    && parent_id == cell_id && children@ == seq![c1, c2] && d == direction && q == split_ratio
            },
    {
        if !split_ratio.valid() {
            return Err(CanvasError::InvalidSplitRatio);
        }
        let i = match self.find_index(cell_id) {
            None => {
                return Err(CanvasError::CellNotFound(cell_id));
            },
            Some(i) => i,
        };
        proof {
            self.lemma_found(i as int);
        }
        let ghost before = self.cells@;
        let (bounds1, bounds2) = split_parts(&self.cells[i].bounds, direction, &split_ratio);
        let inherits_start = self.cells[i].is_start_point;
        let cell_type = self.cells[i].cell_type;
        let content1 = self.cells[i].content.copy();
        let chunk_id = self.cells[i].chunk_id;
        let precision = self.cells[i].decimal_precision;
        let child1_id = self.unused_id();
        let short1 = self.next_short_id();
        let child1 = Cell {
            id: child1_id,
            short_id: short1,
            name: None,
            cell_type,
            bounds: bounds1,
            content: content1,
            is_start_point: inherits_start,
            parent: Some(cell_id),
            children: Vec::new(),
            chunk_id,
            computed_result: None,
            result_target_cell: None,
            decimal_precision: precision,
        };
        // The start role moves to the first child; the parent becomes a container.
        self.cells[i].is_start_point = false;
        self.cells.push(child1);
        proof {
            assert(self.cells@[before.len() as int].id == child1_id);
        }
        let child2_id = self.unused_id();
        let short2 = self.next_short_id();
        let child2 = Cell {
            id: child2_id,
            short_id: short2,
            name: None,
            cell_type,
            bounds: bounds2,
            content: CellContent::Inline(String::new()),
            is_start_point: false,
            parent: Some(cell_id),
            children: Vec::new(),
            chunk_id,
            computed_result: None,
            result_target_cell: None,
            decimal_precision: precision,
        };
        self.cells.push(child2);
        let ghost ch0 = self.cells@[i as int].children@;
        self.cells[i].children.push(child1_id);
        self.cells[i].children.push(child2_id);
        proof {
            assert(self.cells@[i as int].children@ == ch0.push(child1_id).push(child2_id));
        }
        proof {
            let after = self.cells@;
            let n = before.len() as int;
            assert(after.len() == n + 2);
            assert forall|k: int| 0 <= k < n && k != i implies #[trigger] after[k] == before[k] by {}
            assert(!has_id(before, child1_id)) by {
                if has_id(before, child1_id) {
                    let a = choose|a: int| 0 <= a < before.len() && (#[trigger] before[a]).id == child1_id;
                    if a == i { assert(self.cells@[a].id == before[a].id); }
                }
            }
            assert(!has_id(before, child2_id)) by {
                if has_id(before, child2_id) {
                    let a = choose|a: int| 0 <= a < before.len() && (#[trigger] before[a]).id == child2_id;
                    assert(after[a].id == before[a].id);
                    assert(has_id(after.take(n + 1), child2_id)) by {
                        assert(after.take(n + 1)[a].id == child2_id);
                    }
                }
            }
            assert forall|a: int, b: int| 0 <= a < after.len() && 0 <= b < after.len() && a != b
                implies (#[trigger] after[a]).id != (#[trigger] after[b]).id && !(after[a].is_start_point && after[b].is_start_point) by {
                if a < n && b < n {
                    assert(after[a].id == before[a].id && after[b].id == before[b].id);
                }
                if a < n && a != i && b == n && inherits_start {
                    assert(before[a].is_start_point ==> false) by {
                        if before[a].is_start_point { assert(before[i as int].is_start_point); }
                    }
                }
                if b < n && b != i && a == n && inherits_start {
                    assert(before[b].is_start_point ==> false) by {
                        if before[b].is_start_point { assert(before[i as int].is_start_point); }
                    }
                }
                if a < n && b == n { assert(after[a].id == before[a].id); }
                if b < n && a == n { assert(after[b].id == before[b].id); }
                if a < n && b == n + 1 { assert(after[a].id == before[a].id); }
                if b < n && a == n + 1 { assert(after[b].id == before[b].id); }
            }
            assert forall|x: CellId| has_id(before, x) implies #[trigger] has_id(after, x) by {
                let a = choose|a: int| 0 <= a < before.len() && (#[trigger] before[a]).id == x;
                assert(after[a].id == x);
            }
            assert forall|k: int| 0 <= k < after.len() implies (#[trigger] after[k]).bounds.wf() by {
                if k < n { assert(after[k].bounds == before[k].bounds); }
            }
        }
        let children = vec![child1_id, child2_id];
        assert(children@ =~= seq![child1_id, child2_id]);
        self.log_event(EventType::CellSplit { parent_id: cell_id, children, direction, split_ratio });
        proof {
            let n = before.len() as int;
            let cells = self.cells@;
            assert(old(self).index_spec(cell_id) == i);
            assert(cells[n].id == child1_id && cells[n + 1].id == child2_id);
            assert(cells[n].children@.len() == 0);
        }
        Ok((child1_id, child2_id))
    }

    /// The smallest rectangle covering the listed cells, all present.
    fn covering_bounds(&self, ids: &Vec<CellId>) -> (r: Rectangle)
        requires
            self.wf(),
            ids@.len() > 0,
            forall|i: int| 0 <= i < ids@.len() ==> self.has_cell(#[trigger] ids@[i]),
        ensures
            r == cover_spec(bounds_of(*self, ids@)),
            r.wf(),
    {
        let ghost bs = bounds_of(*self, ids@);
        proof {
            assert forall|i: int| 0 <= i < bs.len() implies (#[trigger] bs[i]).wf() by {
                assert(self.has_cell(ids@[i]));
                let k = self.index_spec(ids@[i]);
                assert(self.cells@[k].bounds.wf());
            }
            lemma_cover_edges(bs);
        }
        let mut l: i64 = 0;
        let mut t: i64 = 0;
        let mut rt: i64 = 0;
        let mut b: i64 = 0;
        let mut i: usize = 0;
        while i < ids.len()
            invariant
                self.wf(),
                forall|j: int| 0 <= j < ids@.len() ==> self.has_cell(#[trigger] ids@[j]),
                bs == bounds_of(*self, ids@),
                all_wf(bs),
                i <= ids@.len(),
                i > 0 ==> (l as int, t as int, rt as int, b as int) == cover_edges(bs.take(i as int)),
            decreases ids@.len() - i,
        {
            let j = self.find_index(ids[i]).unwrap();
            proof {
                self.lemma_found(j as int);
                assert(bs[i as int] == self.cells@[j as int].bounds);
                assert(bs[i as int].wf());
                assert(bs.take(i + 1).drop_last() =~= bs.take(i as int));
                assert(bs.take(i + 1).last() == bs[i as int]);
            }
            let rect = self.cells[j].bounds;
            if i == 0 {
                l = rect.x;
                t = rect.y;
                rt = rect.right();
                b = rect.bottom();
            } else {
                if rect.x < l {
                    l = rect.x;
                }
                if rect.y < t {
                    t = rect.y;
                }
                if rect.right() > rt {
                    rt = rect.right();
                }
                if rect.bottom() > b {
                    b = rect.bottom();
                }
            }
            i += 1;
        }
        proof {
            assert(bs.take(i as int) =~= bs);
        }
        Rectangle {
            x: l,
            y: t,
            width: (rt as i128 - l as i128) as u64,
            height: (b as i128 - t as i128) as u64,
        }
    }

    /// Merge the listed cells (at least two, all present) into one fresh
    /// cell covering their bounds; the listed cells and their relationships
    /// are deleted. Nothing changes when a check fails.
    pub fn merge_cells(&mut self, cell_ids: Vec<CellId>, new_type: CellType, merged_content: CellContent) -> (r:
        Result<CellId, CanvasError>)
        requires
            old(self).wf(),
        ensures
            final(self).wf(),
            cell_ids@.len() < 2 ==> r == Err::<CellId, CanvasError>(CanvasError::TooFewCells),
            r is Ok <==> cell_ids@.len() >= 2 && forall|i: int| 0 <= i < cell_ids@.len() ==> old(self).has_cell(#[trigger] cell_ids@[i]),
            r matches Err(CanvasError::CellNotFound(x)) ==> cell_ids@.contains(x) && !old(self).has_cell(x),
            r is Err ==> *final(self) == *old(self),
            r matches Ok(n) ==> {
                &&& !old(self).has_cell(n)
                &&& final(self).cells_spec() == old(self).cells_spec().filter(not_listed(cell_ids@)).push(final(self).cells_spec().last())
                &&& final(self).cells_spec().last().fresh_spec(
                    n,
                    new_type,
                    cover_spec(bounds_of(*old(self), cell_ids@)),
                    merged_content,
                    final(self).cells_spec().last().short_id@,
                )
                &&& final(self).has_cell(n)
                &&& final(self).cell_spec(n) == final(self).cells_spec().last()
                &&& forall|i: int| 0 <= i < cell_ids@.len() ==> !final(self).has_cell(#[trigger] cell_ids@[i])
                &&& final(self).rels_spec() == old(self).rels_spec().filter(touches_none(cell_ids@))
                &&& final(self).root_spec() == match old(self).root_spec() {
                    Some(x) => if cell_ids@.contains(x) { None } else { Some(x) },
                    None => None,
                }
                &&& extends(old(self).events_spec(), final(self).events_spec())
                &&& final(self).events_spec().last().event matches EventType::CellMerged { merged_ids, new_id, new_type: t }
                    && merged_ids@ == cell_ids@ && new_id == n && t == new_type
            },
    {
        if cell_ids.len() < 2 {
            return Err(CanvasError::TooFewCells);
        }
        let mut i: usize = 0;
        while i < cell_ids.len()
            invariant
                *self == *old(self),
                self.wf(),
                cell_ids@.len() >= 2,
                i <= cell_ids@.len(),
                forall|j: int| 0 <= j < i ==> self.has_cell(#[trigger] cell_ids@[j]),
            decreases cell_ids@.len() - i,
        {
            if !self.contains_id(cell_ids[i]) {
                return Err(CanvasError::CellNotFound(cell_ids[i]));
            }
            i += 1;
        }
        let merged_bounds = self.covering_bounds(&cell_ids);
        let new_id = self.unused_id();
        let short_id = self.next_short_id();
        let ghost mid = *self;
        self.remove_rels_touching(&cell_ids);
        self.remove_cells_listed(&cell_ids);
        let root_gone = match self.root_cell {
            Some(x) => contains_cell_id(&cell_ids, x),
            None => false,
        };
        if root_gone {
            self.root_cell = None;
        }
        let ghost filtered = self.cells@;
        let cell = Cell::with_id(new_id, new_type, merged_bounds, merged_content, short_id);
        self.cells.push(cell);
        proof {
            let after = self.cells@;
            let p = not_listed(cell_ids@);
            assert(after.drop_last() == filtered);
            assert forall|k: int| 0 <= k < filtered.len() implies #[trigger] after[k] == filtered[k] by {}
            assert forall|k: int| 0 <= k < filtered.len() implies (#[trigger] filtered[k]).id != new_id by {
                old(self).cells@.lemma_filter_pred(p, k);
                assert(filtered.contains(filtered[k]));
                old(self).cells@.lemma_filter_contains_rev(p, filtered[k]);
                let a = choose|a: int| 0 <= a < old(self).cells@.len() && old(self).cells@[a] == filtered[k];
                assert(has_id(old(self).cells@, filtered[k].id));
            }
            assert forall|x: CellId| has_id(filtered, x) implies #[trigger] has_id(after, x) by {
                let a = choose|a: int| 0 <= a < filtered.len() && (#[trigger] filtered[a]).id == x;
                assert(after[a].id == x);
            }
            assert forall|a: int, b: int| 0 <= a < after.len() && 0 <= b < after.len() && a != b
                implies (#[trigger] after[a]).id != (#[trigger] after[b]).id && !(after[a].is_start_point && after[b].is_start_point) by {
            }
            assert(has_id(after, new_id)) by {
                assert(after[after.len() - 1].id == new_id);
            }
            lemma_index_of(after, after.len() - 1);
            assert forall|k: int| 0 <= k < cell_ids@.len() implies !has_id(after, #[trigger] cell_ids@[k]) by {
                if has_id(after, cell_ids@[k]) {
                    let a = choose|a: int| 0 <= a < after.len() && (#[trigger] after[a]).id == cell_ids@[k];
                    if a < filtered.len() {
                        old(self).cells@.lemma_filter_pred(p, a);
                        assert(cell_ids@.contains(cell_ids@[k]));
                    } else {
                        assert(mid.has_cell(cell_ids@[k]));
                    }
                }
            }
        }
        let ghost ev = self.events@;
        self.log_event(EventType::CellMerged { merged_ids: cell_ids, new_id, new_type });
        proof {
            assert(self.events@.subrange(0, old(self).events@.len() as int) =~= ev.subrange(0, old(self).events@.len() as int));
        }
        Ok(new_id)
    }

    /// Are the two cells adjacent?
    pub fn are_cells_adjacent(&self, id1: CellId, id2: CellId) -> (r: Result<bool, CanvasError>)
        requires
            self.wf(),
        ensures
            !self.has_cell(id1) ==> r == Err::<bool, CanvasError>(CanvasError::CellNotFound(id1)),
            self.has_cell(id1) && !self.has_cell(id2) ==> r == Err::<bool, CanvasError>(CanvasError::CellNotFound(id2)),
            self.has_cell(id1) && self.has_cell(id2) ==> r == Ok::<bool, CanvasError>(
                self.cell_spec(id1).bounds.adjacent_spec(self.cell_spec(id2).bounds),
            ),
    {
        let c1 = match self.get_cell(id1) {
            Some(c) => c,
            None => {
                return Err(CanvasError::CellNotFound(id1));
            },
        };
        let c2 = match self.get_cell(id2) {
            Some(c) => c,
            None => {
                return Err(CanvasError::CellNotFound(id2));
            },
        };
        proof {
            assert(self.cells@[self.index_spec(id1)].bounds.wf());
            assert(self.cells@[self.index_spec(id2)].bounds.wf());
        }
        Ok(c1.bounds.adjacent(&c2.bounds))
    }

    /// Ids of all other cells adjacent to the given one, in store order.
    pub fn find_adjacent_cells(&self, cell_id: CellId) -> (r: Result<Vec<CellId>, CanvasError>)
        requires
            self.wf(),
        ensures
            r is Err <==> !self.has_cell(cell_id),
            r is Err ==> r == Err::<Vec<CellId>, CanvasError>(CanvasError::CellNotFound(cell_id)),
            r matches Ok(v) ==> v@ == cell_ids(self.cells_spec().filter(
                adjacent_to(cell_id, self.cell_spec(cell_id).bounds),
            )),
    {
        let cell = match self.get_cell(cell_id) {
            Some(c) => c,
            None => {
                return Err(CanvasError::CellNotFound(cell_id));
            },
        };
        let bounds = cell.bounds;
        proof {
            assert(self.cells@[self.index_spec(cell_id)].bounds.wf());
        }
        let ghost p = adjacent_to(cell_id, bounds);
        let mut out: Vec<CellId> = Vec::new();
        let mut i: usize = 0;
        while i < self.cells.len()
            invariant
                self.wf(),
                bounds.wf(),
                p == adjacent_to(cell_id, bounds),
                i <= self.cells@.len(),
                out@ == cell_ids(self.cells@.take(i as int).filter(p)),
            decreases self.cells@.len() - i,
        {
            let other = &self.cells[i];
            proof {
                lemma_filter_push(self.cells@.take(i as int), *other, p);
                assert(self.cells@.take(i as int).push(*other) =~= self.cells@.take(i + 1));
                assert(other.bounds.wf());
            }
            if other.id != cell_id && bounds.adjacent(&other.bounds) {
                out.push(other.id);
                proof {
                    let f = self.cells@.take(i as int).filter(p);
                    assert(cell_ids(f.push(*other)) =~= cell_ids(f).push(other.id));
                }
            }
            i += 1;
        }
        assert(self.cells@.take(i as int) =~= self.cells@);
        Ok(out)
    }

    /// Position of the cell with this id.
    pub fn position_of(&self, id: CellId) -> (r: Option<usize>)
        requires
            self.wf(),
        ensures
            r matches Some(i) ==> i < self.cells_spec().len() && self.cells_spec()[i as int].id == id
                && self.index_spec(id) == i,
            r is None <==> !self.has_cell(id),
    {
        let r = self.find_index(id);
        proof {
            if let Some(i) = r {
                self.lemma_found(i as int);
            }
        }
        r
    }

    /// A cell of a well-formed canvas is found at its own position.
    pub proof fn lemma_found_pub(&self, i: int)
        requires
            self.wf(),
            0 <= i < self.cells_spec().len(),
        ensures
            self.has_cell(self.cells_spec()[i].id),
            self.index_spec(self.cells_spec()[i].id) == i,
            self.cell_spec(self.cells_spec()[i].id) == self.cells_spec()[i],
    {
        self.lemma_found(i);
    }

    /// The cell at position `i`.
    pub fn cell_at(&self, i: usize) -> (r: &Cell)
        requires
            i < self.cells_spec().len(),
        ensures
            *r == self.cells_spec()[i as int],
    {
        &self.cells[i]
    }

    /// Cache a cell's computed numeric result (IEEE-754 bits).
    pub fn set_computed_result(&mut self, id: CellId, value: Option<u64>) -> (r: Result<(), CanvasError>)
        requires
            old(self).wf(),
        ensures
            final(self).wf(),
            r is Err <==> !old(self).has_cell(id),
            r is Err ==> r == Err::<(), CanvasError>(CanvasError::CellNotFound(id)) && *final(self) == *old(self),
            r is Ok ==> {
                &&& final(self).cells_spec() == old(self).cells_spec().update(
                    old(self).index_spec(id),
                    Cell { computed_result: value, ..old(self).cell_spec(id) },
                )
                &&& final(self).rels_spec() == old(self).rels_spec()
                &&& final(self).root_spec() == old(self).root_spec()
                &&& final(self).events_spec() == old(self).events_spec()
            },
    {
        match self.find_index(id) {
            None => Err(CanvasError::CellNotFound(id)),
            Some(i) => {
                proof {
                    self.lemma_found(i as int);
                }
                let ghost before = *self;
                self.cells[i].computed_result = value;
                proof {
                    Canvas::lemma_same_shape(before, *self, i as int);
                }
                Ok(())
            },
        }
    }

    /// Choose the cell whose display receives a formula's result.
    pub fn set_result_target(&mut self, id: CellId, target: Option<CellId>) -> (r: Result<(), CanvasError>)
        requires
            old(self).wf(),
        ensures
            final(self).wf(),
            r is Err <==> !old(self).has_cell(id),
            r is Err ==> r == Err::<(), CanvasError>(CanvasError::CellNotFound(id)) && *final(self) == *old(self),
            r is Ok ==> {
                &&& final(self).cells_spec() == old(self).cells_spec().update(
                    old(self).index_spec(id),
                    Cell { result_target_cell: target, ..old(self).cell_spec(id) },
                )
                &&& final(self).rels_spec() == old(self).rels_spec()
                &&& final(self).root_spec() == old(self).root_spec()
                &&& final(self).events_spec() == old(self).events_spec()
            },
    {
        match self.find_index(id) {
            None => Err(CanvasError::CellNotFound(id)),
            Some(i) => {
                proof {
                    self.lemma_found(i as int);
                }
                let ghost before = *self;
                self.cells[i].result_target_cell = target;
                proof {
                    Canvas::lemma_same_shape(before, *self, i as int);
                }
                Ok(())
            },
        }
    }

    /// Set the decimal places a number cell displays.
    pub fn set_decimal_precision(&mut self, id: CellId, places: u8) -> (r: Result<(), CanvasError>)
        requires
            old(self).wf(),
        ensures
            final(self).wf(),
            r is Err <==> !old(self).has_cell(id),
            r is Err ==> r == Err::<(), CanvasError>(CanvasError::CellNotFound(id)) && *final(self) == *old(self),
            r is Ok ==> {
                &&& final(self).cells_spec() == old(self).cells_spec().update(
                    old(self).index_spec(id),
                    Cell { decimal_precision: places, ..old(self).cell_spec(id) },
                )
                &&& final(self).rels_spec() == old(self).rels_spec()
                &&& final(self).root_spec() == old(self).root_spec()
                &&& final(self).events_spec() == old(self).events_spec()
            },
    {
        match self.find_index(id) {
            None => Err(CanvasError::CellNotFound(id)),
            Some(i) => {
                proof {
                    self.lemma_found(i as int);
                }
                let ghost before = *self;
                self.cells[i].decimal_precision = places;
                proof {
                    Canvas::lemma_same_shape(before, *self, i as int);
                }
                Ok(())
            },
        }
    }

    /// Set the short id by which formulas reference a cell.
    pub fn set_short_id(&mut self, id: CellId, short_id: String) -> (r: Result<(), CanvasError>)
        requires
            old(self).wf(),
        ensures
            final(self).wf(),
            r is Err <==> !old(self).has_cell(id),
            r is Err ==> r == Err::<(), CanvasError>(CanvasError::CellNotFound(id)) && *final(self) == *old(self),
            r is Ok ==> {
                &&& final(self).cells_spec() == old(self).cells_spec().update(
                    old(self).index_spec(id),
                    Cell { short_id: short_id, ..old(self).cell_spec(id) },
                )
                &&& final(self).rels_spec() == old(self).rels_spec()
                &&& final(self).root_spec() == old(self).root_spec()
                &&& final(self).events_spec() == old(self).events_spec()
            },
    {
        match self.find_index(id) {
            None => Err(CanvasError::CellNotFound(id)),
            Some(i) => {
                proof {
                    self.lemma_found(i as int);
                }
                let ghost before = *self;
                self.cells[i].short_id = short_id;
                proof {
                    Canvas::lemma_same_shape(before, *self, i as int);
                }
                Ok(())
            },
        }
    }

    /// Rebuild a canvas from stored cells, relationships and root, with an
    /// empty event log; parts that break the invariant are refused.
    pub fn from_parts(cells: Vec<Cell>, relationships: Vec<Relationship>, root_cell: Option<CellId>) -> (r: Result<Canvas, CanvasError>)
        ensures
            r is Ok <==> parts_valid(cells@, relationships@),
            r is Err ==> r == Err::<Canvas, CanvasError>(CanvasError::InvalidParts),
            r matches Ok(c) ==> c.wf() && c.cells_spec() == cells@ && c.rels_spec() == relationships@
                && c.root_spec() == root_cell && c.events_spec().len() == 0,
    {
        if !Canvas::parts_ok(&cells, &relationships) {
            return Err(CanvasError::InvalidParts);
        }
        let mut short_ids: Vec<String> = Vec::new();
        let mut fits = true;
        let mut i: usize = 0;
        while i < cells.len()
            invariant
                i <= cells@.len(),
                short_ids@.len() == i,
                fits ==> forall|k: int| 0 <= k < i ==> (#[trigger] short_ids@[k])@.len() <= MAX_LENGTH,
            decreases cells@.len() - i,
        {
            if cells[i].short_id.as_str().unicode_len() > MAX_LENGTH {
                fits = false;
            }
            short_ids.push(cells[i].short_id.clone());
            i += 1;
        }
        let id_generator = if fits {
            IdGenerator::from_existing_ids(&short_ids)
        } else {
            IdGenerator::new()
        };
        Ok(Canvas { cells, relationships, root_cell, events: Vec::new(), id_generator })
    }

    fn parts_ok(cells: &Vec<Cell>, rels: &Vec<Relationship>) -> (r: bool)
        ensures
            r == parts_valid(cells@, rels@),
    {
        let n = cells.len();
        let mut i: usize = 0;
        while i < n
            invariant
                n == cells@.len(),
                i <= n,
                forall|a: int, b: int| 0 <= a < i && 0 <= b < n && a != b ==> (#[trigger] cells@[a]).id != (#[trigger] cells@[b]).id,
                forall|a: int, b: int| 0 <= a < i && 0 <= b < n && a != b ==> !((#[trigger] cells@[a]).is_start_point && (#[trigger] cells@[b]).is_start_point),
                forall|a: int| 0 <= a < i ==> (#[trigger] cells@[a]).bounds.wf(),
            decreases n - i,
        {
            let b = cells[i].bounds;
            if b.x as i128 + b.width as i128 > i64::MAX as i128 || b.y as i128 + b.height as i128 > i64::MAX as i128 {
                return false;
            }
            let mut j: usize = 0;
            while j < n
                invariant
                    n == cells@.len(),
                    i < n,
                    j <= n,
                    forall|b2: int| 0 <= b2 < j && b2 != i ==> cells@[i as int].id != (#[trigger] cells@[b2]).id
                        && !(cells@[i as int].is_start_point && cells@[b2].is_start_point),
                decreases n - j,
            {
                if j != i {
                    if cells[i].id == cells[j].id {
                        return false;
                    }
                    if cells[i].is_start_point && cells[j].is_start_point {
                        return false;
                    }
                }
                j += 1;
            }
            i += 1;
        }
        let m = rels.len();
        let mut i: usize = 0;
        while i < m
            invariant
                n == cells@.len(),
                m == rels@.len(),
                ids_unique(cells@),
                i <= m,
                forall|a: int| 0 <= a < i ==> (#[trigger] rels@[a]).from != rels@[a].to && has_id(cells@, rels@[a].from) && has_id(cells@, rels@[a].to),
                forall|a: int, b: int| 0 <= a < i && 0 <= b < m && a != b ==> #[trigger] rels@[a] != #[trigger] rels@[b],
            decreases m - i,
        {
            let rel = rels[i];
            if rel.from == rel.to {
                return false;
            }
            let mut found_from = false;
            let mut found_to = false;
            let mut k: usize = 0;
            while k < n
                invariant
                    n == cells@.len(),
                    k <= n,
                    found_from == exists|c: int| 0 <= c < k && (#[trigger] cells@[c]).id == rel.from,
                    found_to == exists|c: int| 0 <= c < k && (#[trigger] cells@[c]).id == rel.to,
                decreases n - k,
            {
                if cells[k].id == rel.from {
                    found_from = true;
                }
                if cells[k].id == rel.to {
                    found_to = true;
                }
                k += 1;
            }
            if !found_from || !found_to {
                return false;
            }
            let mut j: usize = 0;
            while j < m
                invariant
                    m == rels@.len(),
                    i < m,
                    j <= m,
                    rel == rels@[i as int],
                    forall|b: int| 0 <= b < j && b != i ==> #[trigger] rels@[b] != rel,
                decreases m - j,
            {
                if j != i && rels[j].from == rel.from && rels[j].to == rel.to {
                    return false;
                }
                j += 1;
            }
            i += 1;
        }
        true
    }

    /// Ids of the leaf cells (those without children), in store order.
    pub fn leaf_cells(&self) -> (r: Vec<CellId>)
        ensures
            r@ == cell_ids(self.cells_spec().filter(is_leaf())),
    {
        let mut out: Vec<CellId> = Vec::new();
        let mut i: usize = 0;
        while i < self.cells.len()
            invariant
                i <= self.cells@.len(),
                out@ == cell_ids(self.cells@.take(i as int).filter(is_leaf())),
            decreases self.cells@.len() - i,
        {
            let c = &self.cells[i];
            proof {
                lemma_filter_push(self.cells@.take(i as int), *c, is_leaf());
                assert(self.cells@.take(i as int).push(*c) =~= self.cells@.take(i + 1));
            }
            if c.children.len() == 0 {
                out.push(c.id);
                proof {
                    let f = self.cells@.take(i as int).filter(is_leaf());
                    assert(cell_ids(f.push(*c)) =~= cell_ids(f).push(c.id));
                }
            }
            i += 1;
        }
        assert(self.cells@.take(i as int) =~= self.cells@);
        out
    }
}

impl Default for Canvas {
    fn default() -> (r: Canvas)
        ensures
            r.wf(),
            r.cells_spec().len() == 0,
            r.rels_spec().len() == 0,
            r.root_spec() is None,
            r.events_spec().len() == 0,
    {
        Canvas::new()
    }
}

} // verus!
