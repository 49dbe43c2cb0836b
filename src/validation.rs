use crate::canvas::{has_id, start_of, Canvas};
use crate::cell::{inline_text, Cell, CellId, CellType};
use crate::execution::{decimal_spec, decimal_text, has_edge};
use crate::flags::{count_free, lemma_mark, lemma_more_marks};
use crate::relationship::Relationship;
use crate::text::{chars_of, string_from_chars};
use vstd::prelude::*;

verus! {

/// How serious a validation issue is.
#[derive(Debug, Clone, Copy, PartialEq, Eq, Structural)]
pub enum ValidationSeverity {
    Info,
    Warning,
    Error,
}

pub open spec fn rank(s: ValidationSeverity) -> int {
    match s {
        ValidationSeverity::Info => 0,
        ValidationSeverity::Warning => 1,
        ValidationSeverity::Error => 2,
    }
}

/// What kind of problem an issue reports.
#[derive(Debug, Clone, Copy, PartialEq, Eq, Structural)]
pub enum ValidationIssueType {
    Cycle,
    NoStartPoint,
    OrphanCell,
    MissingReference,
    TypeMismatch,
    SyntaxError,
}

/// One problem found in a canvas.
#[derive(Debug, Clone, PartialEq)]
pub struct ValidationIssue {
    pub severity: ValidationSeverity,
    pub message: String,
    pub affected_cells: Vec<CellId>,
    pub issue_type: ValidationIssueType,
}

/// All problems found in a canvas.
#[derive(Debug, Clone)]
pub struct ValidationResult {
    pub issues: Vec<ValidationIssue>,
}

fn copy_issue(i: &ValidationIssue) -> (r: ValidationIssue)
    ensures
        r.severity == i.severity,
        r.message == i.message,
        r.affected_cells@ == i.affected_cells@,
        r.issue_type == i.issue_type,
{
    ValidationIssue {
        severity: i.severity,
        message: i.message.clone(),
        affected_cells: i.affected_cells.clone(),
        issue_type: i.issue_type,
    }
}

/// The issues of `issues` with severity `s`.
pub open spec fn with_severity(s: ValidationSeverity) -> spec_fn(ValidationIssue) -> bool {
    |i: ValidationIssue| i.severity == s
}

impl ValidationResult {
    /// No issues.
    pub fn new() -> (r: ValidationResult)
        ensures
            r.issues@.len() == 0,
    {
        ValidationResult { issues: Vec::new() }
    }

    /// Record an issue.
    pub fn add_issue(&mut self, issue: ValidationIssue)
        ensures
            final(self).issues@ == old(self).issues@.push(issue),
    {
        self.issues.push(issue);
    }

    fn any_with(&self, s: ValidationSeverity) -> (r: bool)
        ensures
            r == exists|k: int| 0 <= k < self.issues@.len() && (#[trigger] self.issues@[k]).severity == s,
    {
        let mut i: usize = 0;
        while i < self.issues.len()
            invariant
                i <= self.issues@.len(),
                forall|k: int| 0 <= k < i ==> (#[trigger] self.issues@[k]).severity != s,
            decreases self.issues@.len() - i,
        {
            if self.issues[i].severity == s {
                return true;
            }
            i += 1;
        }
        false
    }

    fn all_with(&self, s: ValidationSeverity) -> (r: Vec<ValidationIssue>)
        ensures
            r@.len() == self.issues@.filter(with_severity(s)).len(),
            forall|k: int| 0 <= k < r@.len() ==> (#[trigger] r@[k]).severity == s
                && r@[k].issue_type == self.issues@.filter(with_severity(s))[k].issue_type
                && r@[k].affected_cells@ == self.issues@.filter(with_severity(s))[k].affected_cells@,
    {
        let mut out: Vec<ValidationIssue> = Vec::new();
        let mut i: usize = 0;
        while i < self.issues.len()
            invariant
                i <= self.issues@.len(),
                out@.len() == self.issues@.take(i as int).filter(with_severity(s)).len(),
                forall|k: int| 0 <= k < out@.len() ==> (#[trigger] out@[k]).severity == s
                    && out@[k].issue_type == self.issues@.take(i as int).filter(with_severity(s))[k].issue_type
                    && out@[k].affected_cells@ == self.issues@.take(i as int).filter(with_severity(s))[k].affected_cells@,
            decreases self.issues@.len() - i,
        {
            proof {
                crate::canvas::lemma_filter_push(self.issues@.take(i as int), self.issues@[i as int], with_severity(s));
                assert(self.issues@.take(i as int).push(self.issues@[i as int]) =~= self.issues@.take(i + 1));
            }
            if self.issues[i].severity == s {
                out.push(copy_issue(&self.issues[i]));
            }
            i += 1;
        }
        assert(self.issues@.take(i as int) =~= self.issues@);
        out
    }

    /// Is there an Error issue?
    pub fn has_errors(&self) -> (r: bool)
        ensures
            r == exists|k: int| 0 <= k < self.issues@.len() && (#[trigger] self.issues@[k]).severity == ValidationSeverity::Error,
    {
        self.any_with(ValidationSeverity::Error)
    }

    /// Is there a Warning issue?
    pub fn has_warnings(&self) -> (r: bool)
        ensures
            r == exists|k: int| 0 <= k < self.issues@.len() && (#[trigger] self.issues@[k]).severity == ValidationSeverity::Warning,
    {
        self.any_with(ValidationSeverity::Warning)
    }

    /// The Error issues, in order.
    pub fn errors(&self) -> (r: Vec<ValidationIssue>)
        ensures
            r@.len() == self.issues@.filter(with_severity(ValidationSeverity::Error)).len(),
            forall|k: int| 0 <= k < r@.len() ==> (#[trigger] r@[k]).severity == ValidationSeverity::Error
                && r@[k].issue_type == self.issues@.filter(with_severity(ValidationSeverity::Error))[k].issue_type,
    {
        self.all_with(ValidationSeverity::Error)
    }

    /// The Warning issues, in order.
    pub fn warnings(&self) -> (r: Vec<ValidationIssue>)
        ensures
            r@.len() == self.issues@.filter(with_severity(ValidationSeverity::Warning)).len(),
            forall|k: int| 0 <= k < r@.len() ==> (#[trigger] r@[k]).severity == ValidationSeverity::Warning
                && r@[k].issue_type == self.issues@.filter(with_severity(ValidationSeverity::Warning))[k].issue_type,
    {
        self.all_with(ValidationSeverity::Warning)
    }

    /// The Info issues, in order.
    pub fn info(&self) -> (r: Vec<ValidationIssue>)
        ensures
            r@.len() == self.issues@.filter(with_severity(ValidationSeverity::Info)).len(),
            forall|k: int| 0 <= k < r@.len() ==> (#[trigger] r@[k]).severity == ValidationSeverity::Info
                && r@[k].issue_type == self.issues@.filter(with_severity(ValidationSeverity::Info))[k].issue_type,
    {
        self.all_with(ValidationSeverity::Info)
    }

    /// No Error issue.
    pub fn is_valid(&self) -> (r: bool)
        ensures
            r == !exists|k: int| 0 <= k < self.issues@.len() && (#[trigger] self.issues@[k]).severity == ValidationSeverity::Error,
    {
        !self.has_errors()
    }
}

/// Consecutive ids of `p` are joined by relationships.
pub open spec fn is_path(rels: Seq<Relationship>, p: Seq<CellId>) -> bool {
    forall|k: int| 0 <= k < p.len() - 1 ==> has_edge(rels, #[trigger] p[k], p[k + 1])
}

/// `c` is a cycle: a path whose last id leads back to its first.
pub open spec fn is_cycle(rels: Seq<Relationship>, c: Seq<CellId>) -> bool {
    c.len() >= 1 && is_path(rels, c) && has_edge(rels, c.last(), c[0])
}

/// `t` can be reached from `s` along relationships.
pub open spec fn reachable(rels: Seq<Relationship>, s: CellId, t: CellId) -> bool {
    exists|p: Seq<CellId>| p.len() >= 1 && p[0] == s && p.last() == t && #[trigger] is_path(rels, p)
}

/// Cells not reachable from `start`.
pub open spec fn unreachable_from(rels: Seq<Relationship>, start: CellId) -> spec_fn(Cell) -> bool {
    |c: Cell| !reachable(rels, start, c.id)
}

proof fn lemma_push_contains_ids(s: Seq<CellId>, x: CellId)
    ensures
        forall|y: CellId| #[trigger] s.push(x).contains(y) <==> s.contains(y) || y == x,
{
    assert forall|y: CellId| #[trigger] s.push(x).contains(y) <==> s.contains(y) || y == x by {
        if s.contains(y) {
            let k = choose|k: int| 0 <= k < s.len() && s[k] == y;
            assert(s.push(x)[k] == y);
        }
        if y == x {
            assert(s.push(x)[s.len() as int] == y);
        }
        if s.push(x).contains(y) && y != x {
            let k = choose|k: int| 0 <= k < s.push(x).len() && s.push(x)[k] == y;
            assert(s[k] == y);
        }
    }
}

pub proof fn lemma_path_extend(rels: Seq<Relationship>, p: Seq<CellId>, t: CellId)
    requires
        p.len() >= 1,
        is_path(rels, p),
        has_edge(rels, p.last(), t),
    ensures
        is_path(rels, p.push(t)),
{
    assert forall|k: int| 0 <= k < p.push(t).len() - 1 implies has_edge(rels, #[trigger] p.push(t)[k], p.push(t)[k + 1]) by {
        if k < p.len() - 1 {
            assert(p.push(t)[k] == p[k] && p.push(t)[k + 1] == p[k + 1]);
        }
    }
}

/// Is the character alphabetic or numeric in Unicode's sense?
pub uninterp spec fn alphanumeric(c: char) -> bool;

/// Relies on char::is_alphanumeric: the Unicode alphabetic and numeric
/// classes; the answer depends on the character alone.
#[verifier::external_body]
fn is_alnum(c: char) -> (r: bool)
    ensures
        r == alphanumeric(c),
{
    c.is_alphanumeric()
}

pub open spec fn name_char(c: char) -> bool {
    alphanumeric(c) || c == '_'
}

pub open spec fn cell_prefix() -> Seq<char> {
    seq!['c', 'e', 'l', 'l', ':']
}

/// Some code cell is named `name`.
pub open spec fn code_cell_named(cells: Seq<Cell>, name: Seq<char>) -> bool {
    exists|i: int| 0 <= i < cells.len() && (#[trigger] cells[i]).cell_type is Python && (cells[i].name matches Some(n) && n@ == name)
}

/// `nm` is the whole name written right after a `cell:` at position `a`
/// of the text (a maximal run of name characters, not empty).
pub open spec fn full_ref_at(text: Seq<char>, a: int, nm: Seq<char>) -> bool {
    &&& crate::text::occurs_at(text, cell_prefix(), a)
    &&& nm.len() > 0
    &&& a + 5 + nm.len() <= text.len()
    &&& text.subrange(a + 5, a + 5 + nm.len()) == nm
    &&& forall|m: int| 0 <= m < nm.len() ==> name_char(#[trigger] nm[m])
    &&& (a + 5 + nm.len() == text.len() || !name_char(text[a + 5 + nm.len()]))
}

/// `x` is `cell:Name` for a reference of the text to a name no code cell has.
pub open spec fn missing_ref(text: Seq<char>, cells: Seq<Cell>, x: Seq<char>) -> bool {
    exists|a: int, nm: Seq<char>| #[trigger] full_ref_at(text, a, nm) && !code_cell_named(cells, nm) && x == cell_prefix() + nm
}

/// What each kind of issue guarantees.
pub open spec fn issue_holds(canvas: &Canvas, i: ValidationIssue) -> bool {
    let cells = canvas.cells_spec();
    let rels = canvas.rels_spec();
    match i.issue_type {
        ValidationIssueType::NoStartPoint => i.severity == ValidationSeverity::Error && i.affected_cells@.len() == 0
            && start_of(cells) is None && cells.len() > 0,
        ValidationIssueType::Cycle => i.severity == ValidationSeverity::Warning && is_cycle(rels, i.affected_cells@),
        ValidationIssueType::OrphanCell => i.severity == ValidationSeverity::Info && (start_of(cells) matches Some(s)
            && i.affected_cells@ == crate::canvas::cell_ids(cells.filter(unreachable_from(rels, s)))
            && i.affected_cells@.len() > 0),
        ValidationIssueType::MissingReference => i.severity == ValidationSeverity::Error && i.affected_cells@.len() == 1
            && exists|c: int| 0 <= c < cells.len() && (#[trigger] cells[c]).id == i.affected_cells@[0] && cells[c].cell_type is Python,
        _ => false,
    }
}

/// Each finished cell's downstream cells finished before it.
pub open spec fn finished_ok(rels: Seq<Relationship>, order: Seq<CellId>) -> bool {
    forall|a: int, t: CellId| 0 <= a < order.len() && #[trigger] has_edge(rels, order[a], t) ==> exists|b: int|
        0 <= b < a && order[b] == t
}

/// The marks agree with the finish order: a cell is finished exactly when
/// it was visited and left the stack; stacked cells were visited.
pub open spec fn marks_agree(c: Canvas, visited: Seq<bool>, on_stack: Seq<bool>, order: Seq<CellId>) -> bool {
    &&& visited.len() == c.cells_spec().len()
    &&& on_stack.len() == c.cells_spec().len()
    &&& forall|i: int| 0 <= i < visited.len() ==> (order.contains(c.cells_spec()[i].id) <==> (#[trigger] visited[i] && !on_stack[i]))
    &&& forall|i: int| 0 <= i < visited.len() && #[trigger] on_stack[i] ==> visited[i]
}

/// In a finish order where every cell's downstream cells come earlier, no
/// position holds a cell of a cycle.
proof fn lemma_no_cycle_in_order(rels: Seq<Relationship>, order: Seq<CellId>, c: Seq<CellId>, a: int)
    requires
        finished_ok(rels, order),
        is_cycle(rels, c),
        0 <= a < order.len(),
    ensures
        forall|k: int| 0 <= k < c.len() ==> order[a] != #[trigger] c[k],
    decreases a,
{
    assert forall|k: int| 0 <= k < c.len() implies order[a] != #[trigger] c[k] by {
        if order[a] == c[k] {
            let next = if k == c.len() - 1 { c[0] } else { c[k + 1] };
            assert(has_edge(rels, c[k], next));
            assert(has_edge(rels, order[a], next));
            let b = choose|b: int| 0 <= b < a && order[b] == next;
            lemma_no_cycle_in_order(rels, order, c, b);
            if k == c.len() - 1 {
                assert(order[b] != c[0]);
            } else {
                assert(order[b] != c[k + 1]);
            }
        }
    }
}

/// A code cell whose inline text references, by `cell:Name`, a name that
/// no code cell has.
pub open spec fn has_dangling_ref(cells: Seq<Cell>, cell: Cell) -> bool {
    &&& cell.cell_type is Python
    &&& inline_text(cell.content) is Some
    &&& exists|a: int, nm: Seq<char>| #[trigger] full_ref_at(inline_text(cell.content)->Some_0, a, nm) && !code_cell_named(cells, nm)
}

/// Some issue reports missing references of exactly the cell `id`.
pub open spec fn reports_missing(issues: Seq<ValidationIssue>, id: CellId) -> bool {
    exists|k: int| 0 <= k < issues.len() && (#[trigger] issues[k]).issue_type is MissingReference && issues[k].affected_cells@ == seq![id]
}

/// What validation reports of a canvas: no start point, cycles, orphans
/// and missing references exactly when they are there, each issue true of
/// the canvas.
pub open spec fn validation_sound(canvas: Canvas, r: ValidationResult) -> bool {
    let cells = canvas.cells_spec();
    let rels = canvas.rels_spec();
    let issues = r.issues@;
    &&& (exists|k: int| 0 <= k < issues.len() && (#[trigger] issues[k]).issue_type is NoStartPoint)
        <==> (start_of(cells) is None && cells.len() > 0)
    &&& (exists|k: int| 0 <= k < issues.len() && (#[trigger] issues[k]).issue_type is OrphanCell)
        <==> (start_of(cells) matches Some(s) && cells.filter(unreachable_from(rels, s)).len() > 0)
    &&& forall|k: int| 0 <= k < issues.len() ==> issue_holds(&canvas, #[trigger] issues[k])
    &&& (exists|k: int| 0 <= k < issues.len() && (#[trigger] issues[k]).issue_type is Cycle)
        <==> (exists|c: Seq<CellId>| #[trigger] is_cycle(rels, c))
    &&& forall|a: int, b: int| 0 <= a < b < issues.len() && (#[trigger] issues[a]).issue_type is Cycle
        ==> !((#[trigger] issues[b]).issue_type is Cycle)
    &&& forall|i: int| 0 <= i < cells.len() ==> (has_dangling_ref(cells, #[trigger] cells[i]) <==> reports_missing(issues, cells[i].id))
}

/// Validator for canvas graphs.
pub struct Validator;

impl Validator {
    #[verifier::rlimit(60)]
    #[verifier::spinoff_prover]
    fn dfs_detect_cycle(
        canvas: &Canvas,
        cur: usize,
        visited: &mut Vec<bool>,
        on_stack: &mut Vec<bool>,
        stack: &mut Vec<CellId>,
        order: &mut Vec<CellId>,
    ) -> (r: Option<Vec<CellId>>)
        requires
            marks_agree(*canvas, old(visited)@, old(on_stack)@, old(order)@),
            finished_ok(canvas.rels_spec(), old(order)@),
            canvas.wf(),
            cur < canvas.cells_spec().len(),
            old(visited)@.len() == canvas.cells_spec().len(),
            old(on_stack)@.len() == canvas.cells_spec().len(),
            !old(visited)@[cur as int],
            !old(on_stack)@[cur as int],
            old(stack)@.len() >= 1 ==> has_edge(canvas.rels_spec(), old(stack)@.last(), canvas.cells_spec()[cur as int].id),
            is_path(canvas.rels_spec(), old(stack)@),
            forall|i: int| 0 <= i < old(on_stack)@.len() && #[trigger] old(on_stack)@[i] ==> old(stack)@.contains(canvas.cells_spec()[i].id),
        ensures
            r matches Some(c) ==> is_cycle(canvas.rels_spec(), c@),
            r is None ==> final(on_stack)@ == old(on_stack)@ && final(stack)@ == old(stack)@,
            final(visited)@.len() == old(visited)@.len(),
            final(on_stack)@.len() == old(on_stack)@.len(),
            forall|i: int| 0 <= i < old(visited)@.len() && #[trigger] old(visited)@[i] ==> final(visited)@[i],
            final(visited)@[cur as int],
            r is None ==> marks_agree(*canvas, final(visited)@, final(on_stack)@, final(order)@),
            r is None ==> finished_ok(canvas.rels_spec(), final(order)@),
            r is None ==> final(order)@.contains(canvas.cells_spec()[cur as int].id),
            r is None ==> forall|t: CellId| old(order)@.contains(t) ==> #[trigger] final(order)@.contains(t),
        decreases count_free(old(visited)@),
    {
        let ghost rels = canvas.rels_spec();
        let ghost v0 = visited@;
        let cur_id = canvas.cell_at(cur).id;
        visited.set(cur, true);
        on_stack.set(cur, true);
        stack.push(cur_id);
        proof {
            lemma_mark(v0, cur as int);
            if old(stack)@.len() >= 1 {
                lemma_path_extend(rels, old(stack)@, cur_id);
            } else {
                assert(stack@.len() == 1);
            }
            assert forall|i: int| 0 <= i < on_stack@.len() && #[trigger] on_stack@[i] implies stack@.contains(canvas.cells_spec()[i].id) by {
                if i == cur {
                    assert(stack@[stack@.len() - 1] == cur_id);
                } else {
                    let k = choose|k: int| 0 <= k < old(stack)@.len() && old(stack)@[k] == canvas.cells_spec()[i].id;
                    assert(stack@[k] == old(stack)@[k]);
                }
            }
        }
        let ghost s1 = stack@;
        let ghost o1 = on_stack@;
        let outgoing = canvas.get_outgoing_relationships(cur_id);
        let mut j: usize = 0;
        while j < outgoing.len()
            invariant
                canvas.wf(),
                rels == canvas.rels_spec(),
                outgoing@ == rels.filter(crate::canvas::starts_at(cur_id)),
                cur < canvas.cells_spec().len(),
                cur_id == canvas.cells_spec()[cur as int].id,
                stack@ == s1,
                on_stack@ == o1,
                s1.len() >= 1,
                s1.last() == cur_id,
                s1 == old(stack)@.push(cur_id),
                o1 == old(on_stack)@.update(cur as int, true),
                is_path(rels, s1),
                forall|i: int| 0 <= i < o1.len() && #[trigger] o1[i] ==> s1.contains(canvas.cells_spec()[i].id),
                visited@.len() == v0.len(),
                v0 == old(visited)@,
                o1.len() == v0.len(),
                v0.len() == canvas.cells_spec().len(),
                old(on_stack)@.len() == canvas.cells_spec().len(),
                forall|i: int| 0 <= i < v0.len() && #[trigger] v0[i] ==> visited@[i],
                visited@[cur as int],
                count_free(visited@) < count_free(v0),
                j <= outgoing@.len(),
                marks_agree(*canvas, visited@, o1, order@),
                finished_ok(rels, order@),
                forall|t: CellId| old(order)@.contains(t) ==> #[trigger] order@.contains(t),
                forall|m: int| 0 <= m < j ==> order@.contains((#[trigger] outgoing@[m]).to),
            decreases outgoing@.len() - j,
        {
            let target = outgoing[j].to;
            proof {
                rels.lemma_filter_pred(crate::canvas::starts_at(cur_id), j as int);
                assert(outgoing@.contains(outgoing@[j as int]));
                rels.lemma_filter_contains_rev(crate::canvas::starts_at(cur_id), outgoing@[j as int]);
                assert(outgoing@[j as int] == Relationship { from: cur_id, to: target });
                assert(has_edge(rels, cur_id, target));
                let q = choose|q: int| 0 <= q < rels.len() && rels[q] == Relationship { from: cur_id, to: target };
                assert(canvas.has_cell(rels[q].to));
            }
            let t = canvas.position_of(target).unwrap();
            if on_stack[t] {
                proof {
                    assert(o1[t as int]);
                    assert(canvas.cells_spec()[t as int].id == target);
                }
                return Validator::cycle_from(stack, target, Ghost(rels));
            } else if !visited[t] {
                let ghost vb = visited@;
                let ghost ob = order@;
                let res = Validator::dfs_detect_cycle(canvas, t, visited, on_stack, stack, order);
                if res.is_some() {
                    return res;
                }
                proof {
                    lemma_more_marks(vb, visited@);
                    assert forall|m: int| 0 <= m < j + 1 implies order@.contains((#[trigger] outgoing@[m]).to) by {
                        if m < j {
                            assert(ob.contains(outgoing@[m].to));
                        }
                    }
                }
            } else {
                proof {
                    assert(canvas.cells_spec()[t as int].id == target);
                    assert(order@.contains(target));
                }
            }
            j += 1;
        }
        let ghost ob = order@;
        let ghost vis = visited@;
        on_stack.set(cur, false);
        stack.pop();
        order.push(cur_id);
        proof {
            assert(on_stack@ =~= old(on_stack)@);
            assert(stack@ =~= old(stack)@);
            lemma_push_contains_ids(ob, cur_id);
            assert forall|t: CellId| has_edge(rels, cur_id, t) implies ob.contains(t) by {
                let q = choose|q: int| 0 <= q < rels.len() && rels[q] == Relationship { from: cur_id, to: t };
                rels.lemma_filter_contains(crate::canvas::starts_at(cur_id), q);
                let m = choose|m: int| 0 <= m < outgoing@.len() && outgoing@[m] == rels[q];
                assert(outgoing@[m].to == t);
            }
            assert forall|a: int, t: CellId| 0 <= a < order@.len() && #[trigger] has_edge(rels, order@[a], t) implies exists|b: int|
                0 <= b < a && order@[b] == t by {
                if a < ob.len() {
                    assert(order@[a] == ob[a]);
                    let b = choose|b: int| 0 <= b < a && ob[b] == t;
                    assert(order@[b] == t);
                } else {
                    assert(ob.contains(t));
                    let b = choose|b: int| 0 <= b < ob.len() && ob[b] == t;
                    assert(order@[b] == t);
                }
            }
            assert forall|i: int| 0 <= i < visited@.len() implies (order@.contains(canvas.cells_spec()[i].id) <==> (#[trigger] visited@[i] && !on_stack@[i])) by {
                if i == cur {
                    assert(order@.contains(cur_id));
                } else {
                    canvas.lemma_found_pub(i);
                    canvas.lemma_found_pub(cur as int);
                    assert(canvas.cells_spec()[i].id != cur_id);
                    assert(o1[i] == on_stack@[i]);
                }
            }
        }
        None
    }

    /// The part of the path from the first occurrence of `target` to its
    /// end, when the end leads back to `target`.
    fn cycle_from(stack: &Vec<CellId>, target: CellId, rels: Ghost<Seq<Relationship>>) -> (r: Option<Vec<CellId>>)
        requires
            stack@.len() >= 1,
            is_path(rels@, stack@),
            stack@.contains(target),
            has_edge(rels@, stack@.last(), target),
        ensures
            r matches Some(c) ==> is_cycle(rels@, c@),
            r is Some,
    {
        let mut p: usize = 0;
        while p < stack.len() && stack[p] != target
            invariant
                p <= stack@.len(),
                stack@.contains(target),
                forall|k: int| 0 <= k < p ==> stack@[k] != target,
            decreases stack@.len() - p,
        {
            p += 1;
        }
        if p == stack.len() {
            proof {
                let k = choose|k: int| 0 <= k < stack@.len() && stack@[k] == target;
            }
        }
        let mut c: Vec<CellId> = Vec::new();
        let mut k = p;
        while k < stack.len()
            invariant
                p <= k <= stack@.len(),
                p < stack@.len(),
                c@ == stack@.subrange(p as int, k as int),
            decreases stack@.len() - k,
        {
            c.push(stack[k]);
            k += 1;
            assert(c@ =~= stack@.subrange(p as int, k as int));
        }
        proof {
            assert(c@ =~= stack@.subrange(p as int, stack@.len() as int));
            assert forall|m: int| 0 <= m < c@.len() - 1 implies has_edge(rels@, #[trigger] c@[m], c@[m + 1]) by {
                assert(c@[m] == stack@[p + m] && c@[m + 1] == stack@[p + m + 1]);
            }
            assert(c@[0] == target);
            assert(c@.last() == stack@.last());
        }
        Some(c)
    }

    /// A cycle of the relationship graph, if there is one.
    fn detect_cycles(canvas: &Canvas) -> (r: Option<Vec<CellId>>)
        requires
            canvas.wf(),
        ensures
            r matches Some(c) ==> is_cycle(canvas.rels_spec(), c@),
            r is None ==> forall|c: Seq<CellId>| !#[trigger] is_cycle(canvas.rels_spec(), c),
    {
        let n = canvas.cell_count();
        let mut visited: Vec<bool> = Vec::new();
        let mut on_stack: Vec<bool> = Vec::new();
        let mut i: usize = 0;
        while i < n
            invariant
                n == canvas.cells_spec().len(),
                i <= n,
                visited@.len() == i,
                on_stack@.len() == i,
                forall|k: int| 0 <= k < i ==> !(#[trigger] on_stack@[k]) && !visited@[k],
            decreases n - i,
        {
            visited.push(false);
            on_stack.push(false);
            i += 1;
        }
        let mut stack: Vec<CellId> = Vec::new();
        let mut order: Vec<CellId> = Vec::new();
        proof {
            assert(marks_agree(*canvas, visited@, on_stack@, order@));
        }
        let mut i: usize = 0;
        while i < n
            invariant
                canvas.wf(),
                n == canvas.cells_spec().len(),
                i <= n,
                visited@.len() == n,
                on_stack@.len() == n,
                forall|k: int| 0 <= k < n ==> !(#[trigger] on_stack@[k]),
                forall|k: int| 0 <= k < i ==> #[trigger] visited@[k],
                stack@.len() == 0,
                marks_agree(*canvas, visited@, on_stack@, order@),
                finished_ok(canvas.rels_spec(), order@),
            decreases n - i,
        {
            if !visited[i] {
                let ghost vb = visited@;
                let res = Validator::dfs_detect_cycle(canvas, i, &mut visited, &mut on_stack, &mut stack, &mut order);
                if res.is_some() {
                    return res;
                }
                proof {
                    assert forall|k: int| 0 <= k < i + 1 implies #[trigger] visited@[k] by {
                        if k < i {
                            assert(vb[k]);
                        }
                    }
                }
            }
            i += 1;
        }
        proof {
            let rels = canvas.rels_spec();
            assert forall|c: Seq<CellId>| !#[trigger] is_cycle(rels, c) by {
                if is_cycle(rels, c) {
                    let first = c[0];
                    let next = if c.len() == 1 { c[0] } else { c[1] };
                    assert(has_edge(rels, c[0], next)) by {
                        if c.len() > 1 {
                            assert(has_edge(rels, c[0], c[1]));
                        }
                    }
                    let q = choose|q: int| 0 <= q < rels.len() && rels[q] == Relationship { from: c[0], to: next };
                    assert(canvas.has_cell(rels[q].from));
                    let k = choose|k: int| 0 <= k < n && (#[trigger] canvas.cells_spec()[k]).id == first;
                    assert(visited@[k]);
                    assert(order@.contains(first));
                    let a = choose|a: int| 0 <= a < order@.len() && order@[a] == first;
                    lemma_no_cycle_in_order(rels, order@, c, a);
                }
            }
        }
        None
    }

    /// Ids of the cells not reachable from `start_id`, in store order.
    fn find_orphan_cells(canvas: &Canvas, start_id: CellId) -> (r: Vec<CellId>)
        requires
            canvas.wf(),
            canvas.has_cell(start_id),
        ensures
            r@ == crate::canvas::cell_ids(canvas.cells_spec().filter(unreachable_from(canvas.rels_spec(), start_id))),
    {
        let ghost rels = canvas.rels_spec();
        let ghost cells = canvas.cells_spec();
        let n = canvas.cell_count();
        let mut reached: Vec<bool> = Vec::new();
        let mut i: usize = 0;
        while i < n
            invariant
                n == cells.len(),
                i <= n,
                reached@.len() == i,
                forall|k: int| 0 <= k < i ==> !(#[trigger] reached@[k]),
            decreases n - i,
        {
            reached.push(false);
            i += 1;
        }
        let mut queue: Vec<CellId> = vec![start_id];
        proof {
            assert(is_path(rels, seq![start_id]));
            assert(reachable(rels, start_id, start_id));
        }
        while queue.len() > 0
            invariant
                canvas.wf(),
                rels == canvas.rels_spec(),
                cells == canvas.cells_spec(),
                n == cells.len(),
                reached@.len() == n,
                forall|k: int| 0 <= k < queue@.len() ==> reachable(rels, start_id, #[trigger] queue@[k]) && canvas.has_cell(queue@[k]),
                forall|k: int| 0 <= k < n && #[trigger] reached@[k] ==> reachable(rels, start_id, cells[k].id),
                forall|k: int, t: CellId| 0 <= k < n && #[trigger] reached@[k] && #[trigger] has_edge(rels, cells[k].id, t)
                    ==> queue@.contains(t) || reached@[canvas.index_spec(t)],
                queue@.contains(start_id) || reached@[canvas.index_spec(start_id)],
            decreases count_free(reached@), queue@.len(),
        {
            let ghost q0 = queue@;
            let id = queue.pop().unwrap();
            proof {
                assert(q0 == queue@.push(id));
                assert forall|t: CellId| q0.contains(t) && t != id implies queue@.contains(t) by {
                    let k = choose|k: int| 0 <= k < q0.len() && q0[k] == t;
                    assert(queue@[k] == t);
                }
                assert(reachable(rels, start_id, q0[q0.len() - 1]));
                assert forall|k: int| 0 <= k < queue@.len() implies reachable(rels, start_id, #[trigger] queue@[k]) && canvas.has_cell(queue@[k]) by {
                    assert(queue@[k] == q0[k]);
                }
            }
            let idx = canvas.position_of(id).unwrap();
            if !reached[idx] {
                let ghost r0 = reached@;
                reached.set(idx, true);
                proof {
                    lemma_mark(r0, idx as int);
                }
                let outgoing = canvas.get_outgoing_relationships(id);
                let ghost qa = queue@;
                let mut j: usize = 0;
                while j < outgoing.len()
                    invariant
                        canvas.wf(),
                        rels == canvas.rels_spec(),
                        cells == canvas.cells_spec(),
                        outgoing@ == rels.filter(crate::canvas::starts_at(id)),
                        reachable(rels, start_id, id),
                        j <= outgoing@.len(),
                        queue@.len() == qa.len() + j,
                        queue@.take(qa.len() as int) == qa,
                        forall|k: int| 0 <= k < queue@.len() ==> reachable(rels, start_id, #[trigger] queue@[k]) && canvas.has_cell(queue@[k]),
                        forall|m: int| 0 <= m < j ==> queue@.contains((#[trigger] outgoing@[m]).to),
                    decreases outgoing@.len() - j,
                {
                    let t = outgoing[j].to;
                    proof {
                        rels.lemma_filter_pred(crate::canvas::starts_at(id), j as int);
                        assert(outgoing@.contains(outgoing@[j as int]));
                        rels.lemma_filter_contains_rev(crate::canvas::starts_at(id), outgoing@[j as int]);
                        assert(outgoing@[j as int] == Relationship { from: id, to: t });
                        assert(has_edge(rels, id, t));
                        let q = choose|q: int| 0 <= q < rels.len() && rels[q] == Relationship { from: id, to: t };
                        assert(canvas.has_cell(rels[q].to));
                        let p = choose|p: Seq<CellId>| p.len() >= 1 && p[0] == start_id && p.last() == id && #[trigger] is_path(rels, p);
                        lemma_path_extend(rels, p, t);
                        assert(p.push(t)[0] == start_id);
                        assert(reachable(rels, start_id, t));
                    }
                    let ghost qb = queue@;
                    queue.push(t);
                    proof {
                        assert(queue@[queue@.len() - 1] == t);
                        assert forall|m: int| 0 <= m < j + 1 implies queue@.contains((#[trigger] outgoing@[m]).to) by {
                            if m < j {
                                let k = choose|k: int| 0 <= k < qb.len() && qb[k] == outgoing@[m].to;
                                assert(queue@[k] == qb[k]);
                            }
                        }
                        assert(queue@.take(qa.len() as int) =~= qb.take(qa.len() as int));
                    }
                    j += 1;
                }
                proof {
                    assert forall|t: CellId| q0.contains(t) && t != id implies queue@.contains(t) by {
                        let k = choose|k: int| 0 <= k < qa.len() && qa[k] == t;
                        assert(queue@[k] == qa[k]);
                    }
                    assert forall|k: int, t: CellId| 0 <= k < n && #[trigger] reached@[k] && #[trigger] has_edge(rels, cells[k].id, t)
                        implies queue@.contains(t) || reached@[canvas.index_spec(t)] by {
                        if k == idx {
                            let q = choose|q: int| 0 <= q < rels.len() && rels[q] == Relationship { from: id, to: t };
                            rels.lemma_filter_contains(crate::canvas::starts_at(id), q);
                            let m = choose|m: int| 0 <= m < outgoing@.len() && outgoing@[m] == rels[q];
                            assert(outgoing@[m].to == t);
                        } else {
                            assert(r0[k]);
                            if q0.contains(t) && t != id {
                            } else if t == id {
                                assert(canvas.index_spec(t) == idx);
                            }
                        }
                    }
                    if !q0.contains(start_id) || start_id != id {
                    }
                    if start_id == id {
                        assert(canvas.index_spec(start_id) == idx);
                    }
                    assert forall|k: int| 0 <= k < n && #[trigger] reached@[k] implies reachable(rels, start_id, cells[k].id) by {
                        if k != idx { assert(r0[k]); }
                    }
                }
            } else {
                proof {
                    assert forall|k: int, t: CellId| 0 <= k < n && #[trigger] reached@[k] && #[trigger] has_edge(rels, cells[k].id, t)
                        implies queue@.contains(t) || reached@[canvas.index_spec(t)] by {
                        if q0.contains(t) && t != id {
                        } else if t == id {
                            assert(canvas.index_spec(t) == idx);
                        }
                    }
                    if start_id == id {
                        assert(canvas.index_spec(start_id) == idx);
                    }
                }
            }
        }
        proof {
            assert forall|t: CellId| reachable(rels, start_id, t) && has_id(cells, t) implies #[trigger] reached@[canvas.index_spec(t)] by {
                let p = choose|p: Seq<CellId>| p.len() >= 1 && p[0] == start_id && p.last() == t && #[trigger] is_path(rels, p);
                Validator::lemma_closed_covers(canvas, reached@, start_id, p);
            }
        }
        let ghost pr = unreachable_from(rels, start_id);
        let mut orphans: Vec<CellId> = Vec::new();
        let mut i: usize = 0;
        while i < n
            invariant
                canvas.wf(),
                rels == canvas.rels_spec(),
                cells == canvas.cells_spec(),
                n == cells.len(),
                reached@.len() == n,
                pr == unreachable_from(rels, start_id),
                forall|k: int| 0 <= k < n && #[trigger] reached@[k] ==> reachable(rels, start_id, cells[k].id),
                forall|t: CellId| reachable(rels, start_id, t) && has_id(cells, t) ==> #[trigger] reached@[canvas.index_spec(t)],
                i <= n,
                orphans@ == crate::canvas::cell_ids(cells.take(i as int).filter(pr)),
            decreases n - i,
        {
            let c = canvas.cell_at(i);
            proof {
                crate::canvas::lemma_filter_push(cells.take(i as int), *c, pr);
                assert(cells.take(i as int).push(*c) =~= cells.take(i + 1));
                canvas.lemma_found_pub(i as int);
                if reachable(rels, start_id, c.id) {
                    assert(has_id(cells, c.id));
                    assert(reached@[canvas.index_spec(c.id)]);
                }
            }
            if !reached[i] {
                orphans.push(c.id);
                proof {
                    let f = cells.take(i as int).filter(pr);
                    assert(crate::canvas::cell_ids(f.push(*c)) =~= crate::canvas::cell_ids(f).push(c.id));
                }
            }
            i += 1;
        }
        assert(cells.take(i as int) =~= cells);
        orphans
    }

    /// A set of cells closed under relationships and holding the start
    /// holds every cell on a path from the start.
    proof fn lemma_closed_covers(canvas: &Canvas, reached: Seq<bool>, start_id: CellId, p: Seq<CellId>)
        requires
            canvas.wf(),
            reached.len() == canvas.cells_spec().len(),
            reached[canvas.index_spec(start_id)],
            canvas.has_cell(start_id),
            forall|k: int, t: CellId| 0 <= k < reached.len() && #[trigger] reached[k] && #[trigger] has_edge(canvas.rels_spec(), canvas.cells_spec()[k].id, t)
                ==> reached[canvas.index_spec(t)],
            p.len() >= 1,
            p[0] == start_id,
            is_path(canvas.rels_spec(), p),
        ensures
            canvas.has_cell(p.last()),
            reached[canvas.index_spec(p.last())],
        decreases p.len(),
    {
        if p.len() > 1 {
            let q = p.drop_last();
            assert(is_path(canvas.rels_spec(), q)) by {
                assert forall|k: int| 0 <= k < q.len() - 1 implies has_edge(canvas.rels_spec(), #[trigger] q[k], q[k + 1]) by {
                    assert(q[k] == p[k] && q[k + 1] == p[k + 1]);
                }
            }
            Validator::lemma_closed_covers(canvas, reached, start_id, q);
            let a = q.last();
            let k = canvas.index_spec(a);
            assert(has_edge(canvas.rels_spec(), p[p.len() - 2], p[p.len() - 1]));
            canvas.lemma_found_pub(k);
            let rq = choose|rq: int| 0 <= rq < canvas.rels_spec().len() && canvas.rels_spec()[rq] == Relationship { from: a, to: p.last() };
            assert(canvas.has_cell(canvas.rels_spec()[rq].to));
            assert(has_edge(canvas.rels_spec(), canvas.cells_spec()[k].id, p.last()));
        }
    }

    /// Is some code cell named `name`?
    fn code_cell_exists(canvas: &Canvas, name: &Vec<char>) -> (r: bool)
        ensures
            r == code_cell_named(canvas.cells_spec(), name@),
    {
        let n = canvas.cell_count();
        let mut i: usize = 0;
        while i < n
            invariant
                n == canvas.cells_spec().len(),
                i <= n,
                forall|k: int| 0 <= k < i ==> !((#[trigger] canvas.cells_spec()[k]).cell_type is Python && (canvas.cells_spec()[k].name matches Some(nm) && nm@ == name@)),
            decreases n - i,
        {
            let c = canvas.cell_at(i);
            if c.cell_type == CellType::Python {
                match &c.name {
                    Some(nm) => {
                        if crate::text::same_chars(&chars_of(nm.as_str()), name) {
                            return true;
                        }
                    },
                    None => {},
                }
            }
            i += 1;
        }
        false
    }

    /// The `cell:Name` references of code text that name no code cell,
    /// each once, as `cell:Name`, in order of first occurrence.
    fn check_cell_references(canvas: &Canvas, _cell_id: CellId, content: &str) -> (r: Vec<String>)
        ensures
            forall|k: int| 0 <= k < r@.len() ==> missing_ref(content@, canvas.cells_spec(), #[trigger] r@[k]@),
            forall|a: int, b: int| 0 <= a < b < r@.len() ==> (#[trigger] r@[a])@ != (#[trigger] r@[b])@,
            forall|a: int, nm: Seq<char>| #[trigger] full_ref_at(content@, a, nm) && !code_cell_named(canvas.cells_spec(), nm)
                ==> exists|k: int| 0 <= k < r@.len() && (#[trigger] r@[k])@ == cell_prefix() + nm,
    {
        let cs = chars_of(content);
        let n = cs.len();
        let prefix: Vec<char> = vec!['c', 'e', 'l', 'l', ':'];
        proof {
            assert(prefix@ =~= cell_prefix());
        }
        let mut missing: Vec<String> = Vec::new();
        let mut p: usize = 0;
        while p < n
            invariant
                cs@ == content@,
                n == cs@.len(),
                prefix@ == cell_prefix(),
                p <= n,
                forall|k: int| 0 <= k < missing@.len() ==> missing_ref(content@, canvas.cells_spec(), #[trigger] missing@[k]@),
                forall|a: int, b: int| 0 <= a < b < missing@.len() ==> (#[trigger] missing@[a])@ != (#[trigger] missing@[b])@,
                forall|a: int, nm: Seq<char>| #[trigger] full_ref_at(content@, a, nm) && a < p && !code_cell_named(canvas.cells_spec(), nm)
                    ==> exists|k: int| 0 <= k < missing@.len() && (#[trigger] missing@[k])@ == cell_prefix() + nm,
            decreases n - p,
        {
            let ghost before = missing@;
            if crate::text::matches_at(&cs, &prefix, p) {
                let start = p + 5;
                let mut q = start;
                while q < n && (is_alnum(cs[q]) || cs[q] == '_')
                    invariant
                        start <= q <= n,
                        n == cs@.len(),
                        forall|m: int| start <= m < q ==> name_char(#[trigger] cs@[m]),
                    decreases n - q,
                {
                    q += 1;
                }
                let mut name: Vec<char> = Vec::new();
                let mut m = start;
                while m < q
                    invariant
                        start <= m <= q <= n,
                        n == cs@.len(),
                        name@ == cs@.subrange(start as int, m as int),
                    decreases q - m,
                {
                    name.push(cs[m]);
                    m += 1;
                    assert(name@ =~= cs@.subrange(start as int, m as int));
                }
                let ghost nm = name@;
                proof {
                    // Any full reference at `p` names exactly `nm`.
                    assert forall|nm2: Seq<char>| #[trigger] full_ref_at(content@, p as int, nm2) implies nm2 == nm by {
                        let l = nm2.len();
                        if start + l < q {
                            assert(name_char(cs@[start + l]));
                        } else if start + l > q {
                            assert(nm2[q - start] == cs@.subrange(start as int, start + l)[q - start]);
                            assert(name_char(nm2[q - start]));
                        }
                        assert(nm2 =~= nm);
                    }
                }
                if q > start && !Validator::code_cell_exists(canvas, &name) {
                    let mut full: Vec<char> = vec!['c', 'e', 'l', 'l', ':'];
                    full.append(&mut name);
                    let entry = string_from_chars(&full);
                    proof {
                        assert(entry@ =~= cell_prefix() + nm);
                        assert(cs@.subrange(start as int, start + nm.len()) =~= nm);
                        assert forall|mm: int| 0 <= mm < nm.len() implies name_char(#[trigger] nm[mm]) by {
                            assert(nm[mm] == cs@[start + mm]);
                        }
                        assert(full_ref_at(content@, p as int, nm));
                        assert(missing_ref(content@, canvas.cells_spec(), entry@));
                    }
                    let mut seen = false;
                    let mut k: usize = 0;
                    while k < missing.len()
                        invariant
                            k <= missing@.len(),
                            seen == exists|kk: int| 0 <= kk < k && (#[trigger] missing@[kk])@ == entry@,
                        decreases missing@.len() - k,
                    {
                        if crate::text::same_text(missing[k].as_str(), entry.as_str()) {
                            seen = true;
                        }
                        k += 1;
                    }
                    if !seen {
                        missing.push(entry);
                        proof {
                            assert forall|a: int| 0 <= a < before.len() implies (#[trigger] missing@[a]) == before[a] by {}
                        }
                    }
                    proof {
                        assert forall|a: int, nm2: Seq<char>| #[trigger] full_ref_at(content@, a, nm2) && a < p + 1 && !code_cell_named(canvas.cells_spec(), nm2)
                            implies exists|k: int| 0 <= k < missing@.len() && (#[trigger] missing@[k])@ == cell_prefix() + nm2 by {
                            if a < p {
                                let k = choose|k: int| 0 <= k < before.len() && (#[trigger] before[k])@ == cell_prefix() + nm2;
                                assert(missing@[k] == before[k]);
                            } else {
                                assert(nm2 == nm);
                                if seen {
                                    let kk = choose|kk: int| 0 <= kk < missing@.len() && (#[trigger] missing@[kk])@ == entry@;
                                } else {
                                    assert(missing@[before.len() as int]@ == cell_prefix() + nm);
                                }
                            }
                        }
                    }
                } else {
                    proof {
                        assert forall|a: int, nm2: Seq<char>| #[trigger] full_ref_at(content@, a, nm2) && a < p + 1 && !code_cell_named(canvas.cells_spec(), nm2)
                            implies exists|k: int| 0 <= k < missing@.len() && (#[trigger] missing@[k])@ == cell_prefix() + nm2 by {
                            if a == p {
                                assert(nm2 == nm);
                                assert(nm2.len() > 0);
                            }
                        }
                    }
                }
            } else {
                proof {
                    assert forall|a: int, nm2: Seq<char>| #[trigger] full_ref_at(content@, a, nm2) && a < p + 1 && !code_cell_named(canvas.cells_spec(), nm2)
                        implies exists|k: int| 0 <= k < missing@.len() && (#[trigger] missing@[k])@ == cell_prefix() + nm2 by {
                        if a == p {
                            assert(crate::text::occurs_at(cs@, prefix@, p as int));
                        }
                    }
                }
            }
            p += 1;
        }
        proof {
            assert forall|a: int, nm: Seq<char>| #[trigger] full_ref_at(content@, a, nm) && !code_cell_named(canvas.cells_spec(), nm)
                implies exists|k: int| 0 <= k < missing@.len() && (#[trigger] missing@[k])@ == cell_prefix() + nm by {
                assert(crate::text::occurs_at(content@, cell_prefix(), a));
            }
        }
        missing
    }

    /// Run every check on the canvas; the checks are independent.
    pub fn validate(canvas: &Canvas) -> (r: ValidationResult)
        requires
            canvas.wf(),
        ensures
            validation_sound(*canvas, r),
    {
        let mut result = ValidationResult::new();
        let start = canvas.get_start_point();
        if start.is_none() && canvas.cell_count() > 0 {
            result.add_issue(ValidationIssue {
                severity: ValidationSeverity::Error,
                message: "No start point set. Execution cannot begin.".to_string(),
                affected_cells: Vec::new(),
                issue_type: ValidationIssueType::NoStartPoint,
            });
        }
        let ghost after_start = result.issues@;
        proof {
            assert(after_start.len() <= 1);
            assert(forall|k: int| 0 <= k < after_start.len() ==> (#[trigger] after_start[k]).issue_type is NoStartPoint);
        }
        let found = Validator::detect_cycles(canvas);
        let ghost found_cycle = found is Some;
        if let Some(cycle_cells) = found {
            let mut msg = chars_of("Cycle detected in relationship graph involving ");
            let mut count = chars_of(decimal_text(cycle_cells.len()).as_str());
            msg.append(&mut count);
            let mut tail = chars_of(" cells. This may cause infinite loops.");
            msg.append(&mut tail);
            result.add_issue(ValidationIssue {
                severity: ValidationSeverity::Warning,
                message: string_from_chars(&msg),
                affected_cells: cycle_cells,
                issue_type: ValidationIssueType::Cycle,
            });
        }
        let ghost after_cycle = result.issues@;
        proof {
            assert(found_cycle ==> after_cycle.len() == after_start.len() + 1 && after_cycle.last().issue_type is Cycle
                && after_cycle.drop_last() == after_start);
            assert(!found_cycle ==> after_cycle == after_start);
        }
        if let Some(start_cell) = start {
            let orphans = Validator::find_orphan_cells(canvas, start_cell.id);
            if orphans.len() > 0 {
                let mut msg = chars_of(decimal_text(orphans.len()).as_str());
                let mut tail = chars_of(" cell(s) are unreachable from the start point and will not execute.");
                msg.append(&mut tail);
                result.add_issue(ValidationIssue {
                    severity: ValidationSeverity::Info,
                    message: string_from_chars(&msg),
                    affected_cells: orphans,
                    issue_type: ValidationIssueType::OrphanCell,
                });
            }
        }
        let ghost after_orphans = result.issues@;
        proof {
            assert(after_orphans == after_cycle || (after_orphans.len() == after_cycle.len() + 1
                && after_orphans.drop_last() == after_cycle && after_orphans.last().issue_type is OrphanCell));
        }
        proof {
            assert forall|k: int| 0 <= k < after_orphans.len() implies !((#[trigger] after_orphans[k]).issue_type is MissingReference) by {
                if k < after_cycle.len() {
                    assert(after_orphans[k] == after_cycle[k]);
                    if k < after_start.len() {
                        assert(after_cycle[k] == after_start[k]);
                    }
                }
            }
        }
        let n = canvas.cell_count();
        let mut i: usize = 0;
        while i < n
            invariant
                canvas.wf(),
                n == canvas.cells_spec().len(),
                i <= n,
                result.issues@.len() >= after_orphans.len(),
                result.issues@.take(after_orphans.len() as int) == after_orphans,
                forall|k: int| after_orphans.len() <= k < result.issues@.len() ==> (#[trigger] result.issues@[k]).issue_type is MissingReference
                    && exists|j: int| 0 <= j < i && result.issues@[k].affected_cells@ == seq![canvas.cells_spec()[j].id]
                        && has_dangling_ref(canvas.cells_spec(), canvas.cells_spec()[j]),
                forall|k: int| 0 <= k < after_orphans.len() ==> !((#[trigger] after_orphans[k]).issue_type is MissingReference),
                forall|j: int| 0 <= j < i && has_dangling_ref(canvas.cells_spec(), #[trigger] canvas.cells_spec()[j])
                    ==> reports_missing(result.issues@, canvas.cells_spec()[j].id),
                forall|k: int| 0 <= k < result.issues@.len() ==> issue_holds(canvas, #[trigger] result.issues@[k]),
            decreases n - i,
        {
            let cell = canvas.cell_at(i);
            let ghost issues0 = result.issues@;
            if cell.cell_type == CellType::Python {
                if let Some(content) = cell.content.as_str() {
                    let missing = Validator::check_cell_references(canvas, cell.id, content);
                    proof {
                        if missing@.len() > 0 {
                            assert(missing_ref(content@, canvas.cells_spec(), missing@[0]@));
                            let (a, nm) = choose|a: int, nm: Seq<char>| #[trigger] full_ref_at(content@, a, nm)
                                && !code_cell_named(canvas.cells_spec(), nm) && missing@[0]@ == cell_prefix() + nm;
                            assert(inline_text(cell.content)->Some_0 == content@);
                            assert(full_ref_at(inline_text(cell.content)->Some_0, a, nm));
                            assert(has_dangling_ref(canvas.cells_spec(), *cell));
                        } else {
                            assert(!has_dangling_ref(canvas.cells_spec(), *cell)) by {
                                if has_dangling_ref(canvas.cells_spec(), *cell) {
                                    let (a, nm) = choose|a: int, nm: Seq<char>| #[trigger] full_ref_at(content@, a, nm) && !code_cell_named(canvas.cells_spec(), nm);
                                }
                            }
                        }
                    }
                    if missing.len() > 0 {
                        let mut msg = chars_of("Missing cell references: ");
                        let mut k: usize = 0;
                        while k < missing.len()
                            invariant
                                k <= missing@.len(),
                            decreases missing@.len() - k,
                        {
                            if k > 0 {
                                msg.push(',');
                                msg.push(' ');
                            }
                            let mut part = chars_of(missing[k].as_str());
                            msg.append(&mut part);
                            k += 1;
                        }
                        let ghost before = result.issues@;
                        let affected = vec![cell.id];
                        result.add_issue(ValidationIssue {
                            severity: ValidationSeverity::Error,
                            message: string_from_chars(&msg),
                            affected_cells: affected,
                            issue_type: ValidationIssueType::MissingReference,
                        });
                        proof {
                            assert forall|k: int| 0 <= k < before.len() implies #[trigger] result.issues@[k] == before[k] by {}
                            assert(result.issues@.take(after_orphans.len() as int) =~= before.take(after_orphans.len() as int));
                            assert(canvas.cells_spec()[i as int].id == cell.id);
                            assert(result.issues@[before.len() as int].affected_cells@ =~= seq![cell.id]);
                        }
                    }
                }
            }
            proof {
                let cells = canvas.cells_spec();
                let iss = result.issues@;
                assert forall|j: int| 0 <= j < i && has_dangling_ref(cells, #[trigger] cells[j]) implies reports_missing(iss, cells[j].id) by {
                    let k = choose|k: int| 0 <= k < issues0.len() && (#[trigger] issues0[k]).issue_type is MissingReference && issues0[k].affected_cells@ == seq![cells[j].id];
                    assert(iss[k] == issues0[k]);
                }
                if has_dangling_ref(cells, cells[i as int]) {
                    assert(iss.len() == issues0.len() + 1);
                    assert(iss[issues0.len() as int].affected_cells@ == seq![cells[i as int].id]);
                }
                assert forall|k: int| after_orphans.len() <= k < iss.len() implies (#[trigger] iss[k]).issue_type is MissingReference
                    && exists|j: int| 0 <= j < i + 1 && iss[k].affected_cells@ == seq![cells[j].id] && has_dangling_ref(cells, cells[j]) by {
                    if k < issues0.len() {
                        assert(iss[k] == issues0[k]);
                        let j = choose|j: int| 0 <= j < i && issues0[k].affected_cells@ == seq![cells[j].id] && has_dangling_ref(cells, cells[j]);
                    } else {
                        assert(iss[k].affected_cells@ == seq![cells[i as int].id]);
                    }
                }
            }
            i += 1;
        }
        proof {
            let issues = result.issues@;
            let cells = canvas.cells_spec();
            assert forall|k: int| 0 <= k < after_orphans.len() implies #[trigger] issues[k] == after_orphans[k] by {
                assert(issues.take(after_orphans.len() as int)[k] == issues[k]);
            }
            if exists|k: int| 0 <= k < issues.len() && (#[trigger] issues[k]).issue_type is NoStartPoint {
                let k = choose|k: int| 0 <= k < issues.len() && (#[trigger] issues[k]).issue_type is NoStartPoint;
                assert(k < after_orphans.len());
            }
            if start_of(cells) is None && cells.len() > 0 {
                assert(issues[0].issue_type is NoStartPoint);
            }
            if exists|k: int| 0 <= k < issues.len() && (#[trigger] issues[k]).issue_type is OrphanCell {
                let k = choose|k: int| 0 <= k < issues.len() && (#[trigger] issues[k]).issue_type is OrphanCell;
                assert(k < after_orphans.len());
            }
            if start_of(cells) matches Some(s) && cells.filter(unreachable_from(canvas.rels_spec(), s)).len() > 0 {
                assert(after_orphans.last().issue_type is OrphanCell);
                assert(issues[after_orphans.len() - 1] == after_orphans.last());
            }
            assert forall|i: int| 0 <= i < cells.len() implies (has_dangling_ref(cells, #[trigger] cells[i]) <==> reports_missing(issues, cells[i].id)) by {
                if reports_missing(issues, cells[i].id) {
                    let k = choose|k: int| 0 <= k < issues.len() && (#[trigger] issues[k]).issue_type is MissingReference && issues[k].affected_cells@ == seq![cells[i].id];
                    if k < after_orphans.len() {
                        assert(issues[k] == after_orphans[k]);
                    }
                    let j = choose|j: int| 0 <= j < n && issues[k].affected_cells@ == seq![cells[j].id] && has_dangling_ref(cells, cells[j]);
                    assert(seq![cells[j].id][0] == seq![cells[i].id][0]);
                    if j != i {
                        assert(cells[j].id != cells[i].id);
                    }
                }
            }
            let m = after_start.len() as int;
            assert forall|k: int| 0 <= k < issues.len() && (#[trigger] issues[k]).issue_type is Cycle implies k == m && found_cycle by {
                if k < after_start.len() {
                    assert(after_cycle[k] == after_start[k]);
                    assert(after_orphans[k] == after_cycle[k]);
                } else if k < after_cycle.len() {
                    assert(after_orphans[k] == after_cycle[k]);
                } else if k < after_orphans.len() {
                }
            }
            if found_cycle {
                assert(after_orphans[m] == after_cycle[m]);
                assert(issues[m].issue_type is Cycle);
            }
            if exists|c: Seq<CellId>| #[trigger] is_cycle(canvas.rels_spec(), c) {
                assert(found_cycle);
            }
        }
        result
    }
}

/// The more severe of a recorded severity and a new one.
pub open spec fn worse(a: Option<ValidationSeverity>, s: ValidationSeverity) -> Option<ValidationSeverity> {
    match a {
        None => Some(s),
        Some(x) => if rank(s) > rank(x) {
            Some(s)
        } else {
            Some(x)
        },
    }
}

/// The most severe severity among the issues naming `id`.
pub open spec fn worst(issues: Seq<ValidationIssue>, id: CellId) -> Option<ValidationSeverity>
    decreases issues.len(),
{
    if issues.len() == 0 {
        None
    } else {
        let prev = worst(issues.drop_last(), id);
        if issues.last().affected_cells@.contains(id) {
            worse(prev, issues.last().severity)
        } else {
            prev
        }
    }
}

/// The severity recorded for `id`.
pub open spec fn recorded(pairs: Seq<(CellId, ValidationSeverity)>, id: CellId) -> Option<ValidationSeverity> {
    if exists|k: int| 0 <= k < pairs.len() && (#[trigger] pairs[k]).0 == id {
        Some(pairs[choose|k: int| 0 <= k < pairs.len() && (#[trigger] pairs[k]).0 == id].1)
    } else {
        None
    }
}

pub open spec fn pair_ids_unique(pairs: Seq<(CellId, ValidationSeverity)>) -> bool {
    forall|a: int, b: int| 0 <= a < b < pairs.len() ==> (#[trigger] pairs[a]).0 != (#[trigger] pairs[b]).0
}

/// Record severity `sev` for `id`, keeping the more severe one.
fn note(pairs: &mut Vec<(CellId, ValidationSeverity)>, id: CellId, sev: ValidationSeverity)
    requires
        pair_ids_unique(old(pairs)@),
    ensures
        pair_ids_unique(final(pairs)@),
        forall|x: CellId| #[trigger] recorded(final(pairs)@, x) == if x == id {
            worse(recorded(old(pairs)@, x), sev)
        } else {
            recorded(old(pairs)@, x)
        },
{
    let ghost start_pairs = pairs@;
    let mut k: usize = 0;
    while k < pairs.len()
        invariant
            pairs@ == start_pairs,
            start_pairs == old(pairs)@,
            pair_ids_unique(start_pairs),
            k <= start_pairs.len(),
            forall|j: int| 0 <= j < k ==> (#[trigger] start_pairs[j]).0 != id,
        decreases start_pairs.len() - k,
    {
        if pairs[k].0 == id {
            let old_sev = pairs[k].1;
            let stronger = match (old_sev, sev) {
                (ValidationSeverity::Info, ValidationSeverity::Warning) => true,
                (ValidationSeverity::Info, ValidationSeverity::Error) => true,
                (ValidationSeverity::Warning, ValidationSeverity::Error) => true,
                _ => false,
            };
            if stronger {
                pairs.set(k, (id, sev));
            }
            proof {
                assert forall|x: CellId| #[trigger] recorded(pairs@, x) == if x == id {
                    worse(recorded(start_pairs, x), sev)
                } else {
                    recorded(start_pairs, x)
                } by {
                    if x == id {
                        assert(start_pairs[k as int].0 == id);
                        let c = choose|c: int| 0 <= c < start_pairs.len() && (#[trigger] start_pairs[c]).0 == id;
                        assert(c == k);
                        assert(pairs@[k as int].0 == id);
                        let c2 = choose|c2: int| 0 <= c2 < pairs@.len() && (#[trigger] pairs@[c2]).0 == id;
                        assert(c2 == k);
                    } else {
                        if exists|c: int| 0 <= c < start_pairs.len() && (#[trigger] start_pairs[c]).0 == x {
                            let c = choose|c: int| 0 <= c < start_pairs.len() && (#[trigger] start_pairs[c]).0 == x;
                            assert(pairs@[c] == start_pairs[c]);
                            let c2 = choose|c2: int| 0 <= c2 < pairs@.len() && (#[trigger] pairs@[c2]).0 == x;
                            assert(c2 == c);
                        } else {
                            assert forall|c: int| 0 <= c < pairs@.len() implies (#[trigger] pairs@[c]).0 != x by {
                                assert(pairs@[c].0 == start_pairs[c].0);
                            }
                        }
                    }
                }
            }
            return;
        }
        k += 1;
    }
    pairs.push((id, sev));
    proof {
        assert forall|x: CellId| #[trigger] recorded(pairs@, x) == if x == id {
            worse(recorded(start_pairs, x), sev)
        } else {
            recorded(start_pairs, x)
        } by {
            if x == id {
                assert(pairs@[start_pairs.len() as int].0 == id);
                let c2 = choose|c2: int| 0 <= c2 < pairs@.len() && (#[trigger] pairs@[c2]).0 == id;
                assert(c2 == start_pairs.len());
            } else {
                if exists|c: int| 0 <= c < start_pairs.len() && (#[trigger] start_pairs[c]).0 == x {
                    let c = choose|c: int| 0 <= c < start_pairs.len() && (#[trigger] start_pairs[c]).0 == x;
                    assert(pairs@[c] == start_pairs[c]);
                    let c2 = choose|c2: int| 0 <= c2 < pairs@.len() && (#[trigger] pairs@[c2]).0 == x;
                    assert(c2 == c);
                } else {
                    assert forall|c: int| 0 <= c < pairs@.len() implies (#[trigger] pairs@[c]).0 != x by {
                        if c < start_pairs.len() { assert(pairs@[c].0 == start_pairs[c].0); }
                    }
                }
            }
        }
    }
}

/// For each cell named by an issue, the most severe severity among the
/// issues naming it; each cell once.
pub fn worst_severities(result: &ValidationResult) -> (r: Vec<(CellId, ValidationSeverity)>)
    ensures
        pair_ids_unique(r@),
        forall|x: CellId| #[trigger] recorded(r@, x) == worst(result.issues@, x),
{
    let mut pairs: Vec<(CellId, ValidationSeverity)> = Vec::new();
    let ghost issues = result.issues@;
    let mut i: usize = 0;
    while i < result.issues.len()
        invariant
            issues == result.issues@,
            i <= issues.len(),
            pair_ids_unique(pairs@),
            forall|x: CellId| #[trigger] recorded(pairs@, x) == worst(issues.take(i as int), x),
        decreases issues.len() - i,
    {
        let issue = &result.issues[i];
        let ghost base = pairs@;
        proof {
            assert(issues.take(i + 1).drop_last() =~= issues.take(i as int));
            assert(issues.take(i + 1).last() == issues[i as int]);
        }
        let mut j: usize = 0;
        while j < issue.affected_cells.len()
            invariant
                *issue == issues[i as int],
                j <= issue.affected_cells@.len(),
                pair_ids_unique(pairs@),
                forall|x: CellId| #[trigger] recorded(pairs@, x) == if issue.affected_cells@.take(j as int).contains(x) {
                    worse(recorded(base, x), issue.severity)
                } else {
                    recorded(base, x)
                },
            decreases issue.affected_cells@.len() - j,
        {
            let ghost before = pairs@;
            let id = issue.affected_cells[j];
            note(&mut pairs, id, issue.severity);
            proof {
                let t1 = issue.affected_cells@.take(j + 1);
                let t0 = issue.affected_cells@.take(j as int);
                assert(t1 =~= t0.push(id));
                assert forall|x: CellId| #[trigger] recorded(pairs@, x) == if t1.contains(x) {
                    worse(recorded(base, x), issue.severity)
                } else {
                    recorded(base, x)
                } by {
                    if x == id {
                        assert(t1[j as int] == x);
                        if t0.contains(x) {
                            assert(recorded(before, x) == worse(recorded(base, x), issue.severity));
                            let w = recorded(base, x);
                            assert(worse(worse(w, issue.severity), issue.severity) == worse(w, issue.severity));
                        }
                    } else {
                        if t1.contains(x) {
                            let c = choose|c: int| 0 <= c < t1.len() && t1[c] == x;
                            assert(t0[c] == x);
                        }
                        if t0.contains(x) {
                            let c = choose|c: int| 0 <= c < t0.len() && t0[c] == x;
                            assert(t1[c] == x);
                        }
                    }
                }
            }
            j += 1;
        }
        proof {
            assert(issue.affected_cells@.take(j as int) =~= issue.affected_cells@);
        }
        i += 1;
    }
    assert(issues.take(i as int) =~= issues);
    pairs
}

/// Validation offered as methods of a canvas.
pub trait ValidatedCanvas {
    /// The canvas satisfies its invariant.
    spec fn ready(&self) -> bool;

    /// `r` is what validating this canvas reports.
    spec fn reports(&self, r: ValidationResult) -> bool;

    /// Validate the canvas.
    fn validate(&self) -> (r: ValidationResult)
        requires
            self.ready(),
        ensures
            self.reports(r),
    ;

    /// The cells named by the result's issues, each with its most severe
    /// severity.
    fn cells_with_issues(&self, result: &ValidationResult) -> (r: Vec<(CellId, ValidationSeverity)>)
        ensures
            pair_ids_unique(r@),
            forall|x: CellId| #[trigger] recorded(r@, x) == worst(result.issues@, x),
    ;
}

impl ValidatedCanvas for Canvas {
    open spec fn ready(&self) -> bool {
        self.wf()
    }

    open spec fn reports(&self, r: ValidationResult) -> bool {
        validation_sound(*self, r)
    }

    fn validate(&self) -> ValidationResult {
        Validator::validate(self)
    }

    fn cells_with_issues(&self, result: &ValidationResult) -> Vec<(CellId, ValidationSeverity)> {
        worst_severities(result)
    }
}

} // verus!
