use crate::geometry::Rectangle;
use vstd::prelude::*;

verus! {

/// Identifier of a cell: a ULID, held as its 128-bit value, so that ids
/// order by creation time.
pub type CellId = u128;

/// Relies on ulid::Ulid::new: a fresh identifier from the clock and a random
/// source. Nothing is promised of its value.
#[verifier::external_body]
pub(crate) fn fresh_id() -> (r: CellId) {
    ulid::Ulid::new().0
}

/// Cell type: decides how content is evaluated.
#[derive(Debug, Clone, Copy, PartialEq, Eq, Structural)]
pub enum CellType {
    Text,
    /// Code handed to an external evaluator.
    Python,
    /// A formula over `[[short_id]]` references.
    Math,
    NumberInt,
    NumberFloat,
    NumberCurrency,
}

impl CellType {
    pub open spec fn is_number(self) -> bool {
        self is NumberInt || self is NumberFloat || self is NumberCurrency
    }
}

/// Cell content: inline text or a reference to an external file.
#[derive(Debug, Clone, PartialEq)]
pub enum CellContent {
    Inline(String),
    External { path: String, summary: String, use_mmap: bool },
}

pub open spec fn inline_text(c: CellContent) -> Option<Seq<char>> {
    match c {
        CellContent::Inline(s) => Some(s@),
        CellContent::External { .. } => None,
    }
}

impl CellContent {
    /// New inline content.
    pub fn inline(content: &str) -> (r: CellContent)
        ensures
            r matches CellContent::Inline(s) && s@ == content@,
    {
        CellContent::Inline(content.to_string())
    }

    /// New reference to an external file.
    pub fn external(path: String, summary: &str, use_mmap: bool) -> (r: CellContent)
        ensures
            r matches CellContent::External { path: p, summary: s, use_mmap: m } && p == path
                && s@ == summary@ && m == use_mmap,
    {
        CellContent::External { path, summary: summary.to_string(), use_mmap }
    }

    /// The inline text, if the content is inline.
    pub fn as_str(&self) -> (r: Option<&str>)
        ensures
            r matches Some(s) ==> inline_text(*self) == Some(s@),
            r is None <==> inline_text(*self) is None,
    {
        match self {
            CellContent::Inline(s) => Some(s.as_str()),
            CellContent::External { .. } => None,
        }
    }

    /// Is the content inline and empty?
    pub fn is_empty(&self) -> (r: bool)
        ensures
            r == (inline_text(*self) == Some(Seq::<char>::empty())),
    {
        match self {
            CellContent::Inline(s) => {
                let n = s.as_str().unicode_len();
                proof {
                    if n == 0 {
                        assert(s@ =~= Seq::<char>::empty());
                    }
                }
                n == 0
            },
            CellContent::External { .. } => false,
        }
    }

    /// An exact copy.
    pub fn copy(&self) -> (r: CellContent)
        ensures
            r == *self,
    {
        match self {
            CellContent::Inline(s) => CellContent::Inline(s.clone()),
            CellContent::External { path, summary, use_mmap } => CellContent::External {
                path: path.clone(),
                summary: summary.clone(),
                use_mmap: *use_mmap,
            },
        }
    }
}

pub fn copy_opt_string(s: &Option<String>) -> (r: Option<String>)
    ensures
        r == *s,
{
    match s {
        Some(x) => Some(x.clone()),
        None => None,
    }
}

/// A cell of the graph.
#[derive(Debug, Clone, PartialEq)]
pub struct Cell {
    /// Unique, sortable identifier.
    pub id: CellId,
    /// Short alphanumeric id used in `[[...]]` references.
    pub short_id: String,
    /// Optional human-readable name.
    pub name: Option<String>,
    pub cell_type: CellType,
    pub bounds: Rectangle,
    pub content: CellContent,
    /// Execution starting point flag.
    pub is_start_point: bool,
    /// The cell this one was split from.
    pub parent: Option<CellId>,
    /// Cells split from this one; a cell with children is a container.
    pub children: Vec<CellId>,
    pub chunk_id: Option<CellId>,
    /// Cached numeric result (IEEE-754 bits of a 64-bit float).
    pub computed_result: Option<u64>,
    /// Cell whose display content receives this formula's result.
    pub result_target_cell: Option<CellId>,
    /// Decimal places shown for Float and Currency numbers.
    pub decimal_precision: u8,
}

impl Cell {
    /// The fields that a freshly made cell has, given its id.
    pub open spec fn fresh_spec(
        self,
        id: CellId,
        cell_type: CellType,
        bounds: Rectangle,
        content: CellContent,
        short_id: Seq<char>,
    ) -> bool {
        &&& self.id == id
        &&& self.short_id@ == short_id
        &&& self.name is None
        &&& self.cell_type == cell_type
        &&& self.bounds == bounds
        &&& self.content == content
        &&& !self.is_start_point
        &&& self.parent is None
        &&& self.children@.len() == 0
        &&& self.chunk_id is None
        &&& self.computed_result is None
        &&& self.result_target_cell is None
        &&& self.decimal_precision == 2
    }

    /// A new cell with a fresh id.
    pub fn new(cell_type: CellType, bounds: Rectangle, content: CellContent, short_id: String) -> (r:
        Cell)
        ensures
            r.fresh_spec(r.id, cell_type, bounds, content, short_id@),
    {
        let id = fresh_id();
        Cell::with_id(id, cell_type, bounds, content, short_id)
    }

    /// A new cell with the given id.
    pub fn with_id(
        id: CellId,
        cell_type: CellType,
        bounds: Rectangle,
        content: CellContent,
        short_id: String,
    ) -> (r: Cell)
        ensures
            r.fresh_spec(id, cell_type, bounds, content, short_id@),
    {
        Cell {
            id,
            short_id,
            name: None,
            cell_type,
            bounds,
            content,
            is_start_point: false,
            parent: None,
            children: Vec::new(),
            chunk_id: None,
            computed_result: None,
            result_target_cell: None,
            decimal_precision: 2,
        }
    }

    /// An exact copy of the cell.
    pub fn clone_cell(&self) -> (r: Cell)
        ensures
            r.id == self.id,
            r.short_id == self.short_id,
            r.name == self.name,
            r.cell_type == self.cell_type,
            r.bounds == self.bounds,
            r.content == self.content,
            r.is_start_point == self.is_start_point,
            r.parent == self.parent,
            r.children@ == self.children@,
            r.chunk_id == self.chunk_id,
            r.computed_result == self.computed_result,
            r.result_target_cell == self.result_target_cell,
            r.decimal_precision == self.decimal_precision,
    {
        Cell {
            id: self.id,
            short_id: self.short_id.clone(),
            name: copy_opt_string(&self.name),
            cell_type: self.cell_type,
            bounds: self.bounds,
            content: self.content.copy(),
            is_start_point: self.is_start_point,
            parent: self.parent,
            children: self.children.clone(),
            chunk_id: self.chunk_id,
            computed_result: self.computed_result,
            result_target_cell: self.result_target_cell,
            decimal_precision: self.decimal_precision,
        }
    }

    pub fn set_name(&mut self, name: Option<String>)
        ensures
            *final(self) == (Cell { name, ..*old(self) }),
    {
        self.name = name;
    }

    pub fn set_start_point(&mut self, is_start: bool)
        ensures
            *final(self) == (Cell { is_start_point: is_start, ..*old(self) }),
    {
        self.is_start_point = is_start;
    }

    pub fn set_content(&mut self, content: CellContent)
        ensures
            *final(self) == (Cell { content, ..*old(self) }),
    {
        self.content = content;
    }

    pub fn set_type(&mut self, cell_type: CellType)
        ensures
            *final(self) == (Cell { cell_type, ..*old(self) }),
    {
        self.cell_type = cell_type;
    }

    pub fn set_bounds(&mut self, bounds: Rectangle)
        ensures
            *final(self) == (Cell { bounds, ..*old(self) }),
    {
        self.bounds = bounds;
    }

    /// Add a child id unless it is already listed.
    pub fn add_child(&mut self, child_id: CellId)
        ensures
            final(self).children@ == if old(self).children@.contains(child_id) {
                old(self).children@
            } else {
                old(self).children@.push(child_id)
            },
            final(self).children@.contains(child_id),
            *final(self) == (Cell { children: final(self).children, ..*old(self) }),
    {
        let mut found = false;
        let mut i: usize = 0;
        while i < self.children.len()
            invariant
                i <= self.children@.len(),
                found == (exists|j: int| 0 <= j < i && self.children@[j] == child_id),
            decreases self.children@.len() - i,
        {
            if self.children[i] == child_id {
                found = true;
            }
            i += 1;
        }
        if !found {
            self.children.push(child_id);
            assert(self.children@[self.children@.len() - 1] == child_id);
        }
    }

    pub fn set_parent(&mut self, parent_id: Option<CellId>)
        ensures
            *final(self) == (Cell { parent: parent_id, ..*old(self) }),
    {
        self.parent = parent_id;
    }
}

} // verus!
