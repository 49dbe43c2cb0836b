use crate::canvas::{
    cell_ids, ends_at, lemma_filter_push, lemma_filter_unique, start_of, starts_at, Canvas,
};
use crate::cell::{copy_opt_string, inline_text, Cell, CellContent, CellId, CellType};
use crate::markdown_links::{trim_text, trimmed};
use crate::math_eval::{
    cycle_reachable, detect_circular_references, evaluate_expression, formula_fault, formula_value_fits, parsed_number, refers_to,
    result_view, FormulaError, FormulaFault,
};
use crate::relationship::Relationship;
use crate::validation::{is_path, reachable};
use evalexpr::FloatType;
use vstd::prelude::*;

verus! {

/// How a float's value reads in decimal (its `Display` form).
pub uninterp spec fn float_display(bits: u64) -> Seq<char>;

/// A float truncated toward zero to an `i64`, in decimal.
pub uninterp spec fn truncated_display(bits: u64) -> Seq<char>;

/// A float in decimal with exactly `places` digits after the point.
pub uninterp spec fn fixed_display(bits: u64, places: u8) -> Seq<char>;

/// Relies on `Display` for evalexpr's float type: the shortest decimal
/// form that reads back as the same value.
#[verifier::external_body]
fn float_text(bits: u64) -> (r: String)
    ensures
        r@ == float_display(bits),
{
    FloatType::from_bits(bits).to_string()
}

/// Relies on the float-to-`i64` cast (truncating, saturating) and `i64`'s
/// `Display`.
#[verifier::external_body]
fn truncated_text(bits: u64) -> (r: String)
    ensures
        r@ == truncated_display(bits),
{
    (FloatType::from_bits(bits) as i64).to_string()
}

/// Relies on `format!("{:.p$}")`: fixed-point decimal with `places` digits
/// after the point.
#[verifier::external_body]
fn fixed_text(bits: u64, places: u8) -> (r: String)
    ensures
        r@ == fixed_display(bits, places),
{
    format!("{:.p$}", FloatType::from_bits(bits), p = places as usize)
}

/// How a number cell of type `kind` shows `value`: Int truncates toward
/// zero, Float and Currency show `places` decimals; other types show none.
pub open spec fn display_spec(value: u64, kind: CellType, places: u8) -> Option<Seq<char>> {
    match kind {
        CellType::NumberInt => Some(truncated_display(value)),
        CellType::NumberFloat | CellType::NumberCurrency => Some(fixed_display(value, places)),
        _ => None,
    }
}

/// The display text of `value` in a number cell of type `kind`.
pub fn display_text(value: u64, kind: CellType, places: u8) -> (r: Option<String>)
    ensures
        match display_spec(value, kind, places) {
            Some(t) => r matches Some(x) && x@ == t,
            None => r is None,
        },
{
    match kind {
        CellType::NumberInt => Some(truncated_text(value)),
        CellType::NumberFloat | CellType::NumberCurrency => Some(fixed_text(value, places)),
        _ => None,
    }
}

/// The decimal digits of `n`.
pub open spec fn decimal_spec(n: nat) -> Seq<char>
    decreases n,
{
    if n < 10 {
        seq![(('0' as u32) + n) as char]
    } else {
        decimal_spec(n / 10).push((('0' as u32) + (n % 10)) as char)
    }
}

fn decimal_digits(n: usize) -> (r: Vec<char>)
    ensures
        r@ == decimal_spec(n as nat),
    decreases n,
{
    let d = ((('0' as u32) + (n % 10) as u32) as u8) as char;
    if n < 10 {
        let mut v: Vec<char> = Vec::new();
        v.push(d);
        assert(v@ =~= decimal_spec(n as nat));
        v
    } else {
        let mut v = decimal_digits(n / 10);
        v.push(d);
        v
    }
}

/// The decimal digits of `n`.
pub(crate) fn decimal_text(n: usize) -> (r: String)
    ensures
        r@ == decimal_spec(n as nat),
{
    crate::text::string_from_chars(&decimal_digits(n))
}

/// Data passed between cells.
#[derive(Debug, Clone, PartialEq)]
pub enum CellData {
    Empty,
    Text(String),
    /// A number, as the IEEE-754 bits of a 64-bit float.
    Number(u64),
    Boolean(bool),
    Binary(Vec<u8>),
}

/// Cell data as a value of the model.
pub enum DataView {
    Empty,
    Text(Seq<char>),
    Number(u64),
    Boolean(bool),
    Binary(Seq<u8>),
}

impl View for CellData {
    type V = DataView;

    open spec fn view(&self) -> DataView {
        match self {
            CellData::Empty => DataView::Empty,
            CellData::Text(s) => DataView::Text(s@),
            CellData::Number(n) => DataView::Number(*n),
            CellData::Boolean(b) => DataView::Boolean(*b),
            CellData::Binary(b) => DataView::Binary(b@),
        }
    }
}

/// The text form of cell data.
pub open spec fn coerce_spec(d: DataView) -> Seq<char> {
    match d {
        DataView::Empty => Seq::empty(),
        DataView::Text(s) => s,
        DataView::Number(n) => float_display(n),
        DataView::Boolean(b) => if b {
            seq!['t', 'r', 'u', 'e']
        } else {
            seq!['f', 'a', 'l', 's', 'e']
        },
        DataView::Binary(b) => seq!['[', 'B', 'i', 'n', 'a', 'r', 'y', ' ', 'd', 'a', 't', 'a', ':', ' ']
            + decimal_spec(b.len()) + seq![' ', 'b', 'y', 't', 'e', 's', ']'],
    }
}

impl CellData {
    /// The data as text: numbers in decimal, booleans as `true`/`false`,
    /// binary data as a note of its size.
    pub fn coerce_to_string(&self) -> (r: String)
        ensures
            r@ == coerce_spec(self@),
    {
        match self {
            CellData::Empty => String::new(),
            CellData::Text(s) => s.clone(),
            CellData::Number(n) => float_text(*n),
            CellData::Boolean(b) => {
                if *b {
                    let v = vec!['t', 'r', 'u', 'e'];
                    assert(v@ =~= seq!['t', 'r', 'u', 'e']);
                    crate::text::string_from_chars(&v)
                } else {
                    let v = vec!['f', 'a', 'l', 's', 'e'];
                    assert(v@ =~= seq!['f', 'a', 'l', 's', 'e']);
                    crate::text::string_from_chars(&v)
                }
            },
            CellData::Binary(b) => {
                let mut v = vec!['[', 'B', 'i', 'n', 'a', 'r', 'y', ' ', 'd', 'a', 't', 'a', ':', ' '];
                let mut digits = crate::text::chars_of(decimal_text(b.len()).as_str());
                v.append(&mut digits);
                let mut tail = vec![' ', 'b', 'y', 't', 'e', 's', ']'];
                v.append(&mut tail);
                proof {
                    assert(v@ =~= coerce_spec(self@));
                }
                crate::text::string_from_chars(&v)
            },
        }
    }

    /// Is this the empty value?
    pub fn is_none(&self) -> (r: bool)
        ensures
            r == (self@ is Empty),
    {
        match self {
            CellData::Empty => true,
            _ => false,
        }
    }

    /// A copy with the same view.
    pub fn copy(&self) -> (r: CellData)
        ensures
            r@ == self@,
    {
        match self {
            CellData::Empty => CellData::Empty,
            CellData::Text(s) => CellData::Text(s.clone()),
            CellData::Number(n) => CellData::Number(*n),
            CellData::Boolean(b) => CellData::Boolean(*b),
            CellData::Binary(b) => CellData::Binary(b.clone()),
        }
    }
}

/// Evaluation of code cells, supplied by the embedding program.
pub trait CodeEvaluator {
    /// Run `code` with the upstream outputs in order; the output or a message.
    fn evaluate(&mut self, code: &str, inputs: &Vec<CellData>) -> Result<CellData, String>;

    /// Check `code` without running it.
    fn validate(&mut self, code: &str) -> Result<(), String>;
}

/// Execution mode.
#[derive(Debug, Clone, Copy, PartialEq, Eq, Structural)]
pub enum ExecutionMode {
    /// Execute until the queue is empty.
    Run,
    /// Execute one step, then pause.
    Step,
    /// Schedule as `Run`, but only validate each cell.
    DryRun,
}

/// Why a cell could not be evaluated.
#[derive(Debug, Clone, PartialEq)]
pub enum CellError {
    /// The cell's content is not inline text.
    NoInlineContent,
    /// A number cell's text is not a number.
    NotANumber,
    /// The formula could not be evaluated.
    Formula(FormulaError),
    /// The code evaluator reported a failure.
    Code(String),
}

/// Why an execution failed.
#[derive(Debug, Clone, PartialEq)]
pub enum ExecutionError {
    /// No cell is flagged as start point.
    NoStartPoint,
    /// `continue_execution` was called while not paused.
    NotPaused,
    /// A scheduled cell is missing from the canvas.
    CellNotFound(CellId),
    /// Two cells of one step both feed `target`.
    Conflict { target: CellId, step: usize },
    /// A cell's evaluation failed.
    Evaluation { cell: CellId, error: CellError },
    /// The step counter reached its largest value.
    StepLimit,
}

/// Execution status.
#[derive(Debug, Clone, PartialEq)]
pub enum ExecutionStatus {
    NotStarted,
    Running,
    Paused,
    Complete,
    DryRunComplete,
    Error(ExecutionError),
}

/// One evaluated cell.
#[derive(Debug, Clone)]
pub struct ExecutionLogEntry {
    pub step: usize,
    pub cell_id: CellId,
    pub cell_name: Option<String>,
    pub output: CellData,
    pub dry_run: bool,
    pub error: Option<String>,
}

/// The outcome of an execution.
#[derive(Debug, Clone)]
pub struct ExecutionReport {
    pub status: ExecutionStatus,
    pub step: usize,
    pub log: Vec<ExecutionLogEntry>,
    pub total_cells_executed: usize,
}

/// A relationship `a -> t` exists.
pub open spec fn has_edge(rels: Seq<Relationship>, a: CellId, t: CellId) -> bool {
    rels.contains(Relationship { from: a, to: t })
}

/// Two cells both feed some target.
pub open spec fn shares_target(rels: Seq<Relationship>, a: CellId, b: CellId) -> bool {
    exists|t: CellId| has_edge(rels, a, t) && has_edge(rels, b, t)
}

/// No two entries of one step feed a common target.
pub open spec fn conflict_free(log: Seq<ExecutionLogEntry>, rels: Seq<Relationship>) -> bool {
    forall|i: int, j: int|
        0 <= i < j < log.len() && (#[trigger] log[i]).step == (#[trigger] log[j]).step ==> !shares_target(
            rels,
            log[i].cell_id,
            log[j].cell_id,
        )
}

/// Ids strictly ascending.
pub open spec fn ascending(s: Seq<CellId>) -> bool {
    forall|i: int, j: int| 0 <= i < j < s.len() ==> #[trigger] s[i] < #[trigger] s[j]
}

/// The latest output recorded for `id`.
pub open spec fn output_of(outputs: Seq<(CellId, CellData)>, id: CellId) -> Option<DataView>
    decreases outputs.len(),
{
    if outputs.len() == 0 {
        None
    } else if outputs.last().0 == id {
        Some(outputs.last().1@)
    } else {
        output_of(outputs.drop_last(), id)
    }
}

/// The outputs of the sources of `incoming`, in order, skipping those
/// without output.
pub open spec fn inputs_spec(outputs: Seq<(CellId, CellData)>, incoming: Seq<Relationship>) -> Seq<DataView>
    decreases incoming.len(),
{
    if incoming.len() == 0 {
        Seq::empty()
    } else {
        inputs_spec(outputs, incoming.drop_last()) + match output_of(outputs, incoming.last().from) {
            Some(d) => seq![d],
            None => Seq::empty(),
        }
    }
}

/// The latest logged output of `id`.
pub open spec fn log_output_of(log: Seq<ExecutionLogEntry>, id: CellId) -> Option<DataView>
    decreases log.len(),
{
    if log.len() == 0 {
        None
    } else if log.last().cell_id == id {
        Some(log.last().output@)
    } else {
        log_output_of(log.drop_last(), id)
    }
}

/// The logged outputs of the sources of `incoming`, in order, skipping
/// those without output.
pub open spec fn log_inputs(log: Seq<ExecutionLogEntry>, incoming: Seq<Relationship>) -> Seq<DataView>
    decreases incoming.len(),
{
    if incoming.len() == 0 {
        Seq::empty()
    } else {
        log_inputs(log, incoming.drop_last()) + match log_output_of(log, incoming.last().from) {
            Some(d) => seq![d],
            None => Seq::empty(),
        }
    }
}

/// The recorded outputs are the log's outputs, entry for entry.
pub open spec fn outputs_match(outputs: Seq<(CellId, CellData)>, log: Seq<ExecutionLogEntry>) -> bool {
    &&& outputs.len() == log.len()
    &&& forall|k: int| 0 <= k < outputs.len() ==> (#[trigger] outputs[k]).0 == log[k].cell_id && outputs[k].1@ == log[k].output@
}

proof fn lemma_match_output_of(outputs: Seq<(CellId, CellData)>, log: Seq<ExecutionLogEntry>, id: CellId)
    requires
        outputs_match(outputs, log),
    ensures
        output_of(outputs, id) == log_output_of(log, id),
    decreases outputs.len(),
{
    if outputs.len() > 0 {
        let (o, l) = (outputs.drop_last(), log.drop_last());
        assert forall|k: int| 0 <= k < o.len() implies (#[trigger] o[k]).0 == l[k].cell_id && o[k].1@ == l[k].output@ by {
            assert(o[k] == outputs[k] && l[k] == log[k]);
        }
        lemma_match_output_of(o, l, id);
        assert(outputs.last() == outputs[outputs.len() - 1]);
    }
}

proof fn lemma_match_inputs(outputs: Seq<(CellId, CellData)>, log: Seq<ExecutionLogEntry>, incoming: Seq<Relationship>)
    requires
        outputs_match(outputs, log),
    ensures
        inputs_spec(outputs, incoming) == log_inputs(log, incoming),
    decreases incoming.len(),
{
    if incoming.len() > 0 {
        lemma_match_inputs(outputs, log, incoming.drop_last());
        lemma_match_output_of(outputs, log, incoming.last().from);
    }
}

/// The first input, or nothing.
pub open spec fn first_or_empty(s: Seq<DataView>) -> DataView {
    if s.len() > 0 {
        s[0]
    } else {
        DataView::Empty
    }
}

/// In a run, the `k`-th entry of a text cell passes through the first
/// output logged before it by the cell's upstream cells.
pub open spec fn text_ok(canvas: Canvas, mode: ExecutionMode, log: Seq<ExecutionLogEntry>, k: int) -> bool {
    let e = log[k];
    !(mode is DryRun) && canvas.has_cell(e.cell_id) && canvas.cell_spec(e.cell_id).cell_type is Text ==> e.output@
        == first_or_empty(log_inputs(log.take(k), canvas.rels_spec().filter(ends_at(e.cell_id))))
}

pub open spec fn views(ds: Seq<CellData>) -> Seq<DataView> {
    ds.map_values(|d: CellData| d@)
}

/// What a number cell evaluates to.
pub open spec fn number_spec(cell: Cell) -> Result<u64, CellError> {
    match inline_text(cell.content) {
        Some(t) => match parsed_number(trimmed(t)) {
            Some(v) => Ok(v),
            None => Err(CellError::NotANumber),
        },
        None => Err(CellError::NoInlineContent),
    }
}

/// A text cell passes its first input through.
pub fn execute_text_cell(_cell: &Cell, inputs: &Vec<CellData>) -> (r: CellData)
    ensures
        inputs@.len() > 0 ==> r@ == inputs@[0]@,
        inputs@.len() == 0 ==> r@ is Empty,
{
    if inputs.len() > 0 {
        inputs[0].copy()
    } else {
        CellData::Empty
    }
}

/// A number cell's value: its inline text parsed as a float.
pub fn execute_number_cell(cell: &Cell) -> (r: Result<CellData, CellError>)
    ensures
        match number_spec(*cell) {
            Ok(v) => r matches Ok(d) && d@ == DataView::Number(v),
            Err(e) => r == Err::<CellData, CellError>(e),
        },
{
    match cell.content.as_str() {
        Some(text) => {
            let t = trim_text(text);
            match crate::math_eval::parse_number_text(t.as_str()) {
                Some(v) => Ok(CellData::Number(v)),
                None => Err(CellError::NotANumber),
            }
        },
        None => Err(CellError::NoInlineContent),
    }
}

/// A formula cell's value. Reference cycles are rejected before any
/// arithmetic is attempted.
pub fn execute_math_cell(canvas: &Canvas, cell: &Cell) -> (r: Result<CellData, CellError>)
    requires
        canvas.wf(),
        canvas.has_cell(cell.id),
        *cell == canvas.cell_spec(cell.id),
    ensures
        inline_text(cell.content) is None ==> r == Err::<CellData, CellError>(CellError::NoInlineContent),
        cell.cell_type is Math && refers_to(*canvas, *cell, cell.id) ==> r matches Err(CellError::Formula(FormulaError::Cycle(_))),
        r matches Ok(d) ==> (inline_text(cell.content) matches Some(t) && formula_fault(*canvas, t) is None
            && exists|v: u64| d@ == DataView::Number(v) && formula_value_fits(*canvas, t, v)),
        r matches Err(CellError::Formula(e)) ==> (e is Cycle || (inline_text(cell.content) matches Some(t)
            && formula_fault(*canvas, t) == Some(e@))),
        r matches Err(CellError::Formula(FormulaError::Cycle(_))) ==> cycle_reachable(*canvas, cell.id),
        inline_text(cell.content) is Some && cycle_reachable(*canvas, cell.id) ==> r matches Err(CellError::Formula(FormulaError::Cycle(_))),
        inline_text(cell.content) is Some && !cycle_reachable(*canvas, cell.id) ==> match formula_fault(
            *canvas,
            inline_text(cell.content)->Some_0,
        ) {
            None => r matches Ok(d) && exists|v: u64| d@ == DataView::Number(v) && formula_value_fits(
                *canvas,
                inline_text(cell.content)->Some_0,
                v,
            ),
            Some(e) => r matches Err(CellError::Formula(x)) && x@ == e,
        },
        r is Err ==> math_fails(*canvas, *cell),
{
    let formula = match cell.content.as_str() {
        Some(f) => f,
        None => {
            return Err(CellError::NoInlineContent);
        },
    };
    if let Err(cycle) = detect_circular_references(cell.id, canvas) {
        return Err(CellError::Formula(FormulaError::Cycle(cycle)));
    }
    let r = evaluate_expression(formula, canvas);
    proof {
        crate::math_eval::lemma_value_not_cycle(*canvas, formula@);
    }
    match r {
        Ok(v) => Ok(CellData::Number(v)),
        Err(e) => Err(CellError::Formula(e)),
    }
}

/// Insert `id` into an ascending list unless present.
fn insert_sorted(v: &mut Vec<CellId>, id: CellId)
    requires
        ascending(old(v)@),
    ensures
        ascending(final(v)@),
        final(v)@.to_set() == old(v)@.to_set().insert(id),
{
    let mut i: usize = 0;
    while i < v.len() && v[i] < id
        invariant
            i <= v@.len(),
            v@ == old(v)@,
            forall|k: int| 0 <= k < i ==> v@[k] < id,
        decreases v@.len() - i,
    {
        i += 1;
    }
    if i < v.len() && v[i] == id {
        proof {
            assert(old(v)@.to_set().insert(id) =~= old(v)@.to_set());
        }
        return;
    }
    v.insert(i, id);
    proof {
        let o = old(v)@;
        let n = v@;
        assert(n == o.insert(i as int, id));
        assert forall|a: int, b: int| 0 <= a < b < n.len() implies #[trigger] n[a] < #[trigger] n[b] by {
            if b < i {
            } else if a < i && b == i {
            } else if a < i && b > i {
                assert(n[b] == o[b - 1]);
                assert(o[a] < o[b - 1]);
            } else if a == i {
                assert(n[b] == o[b - 1]);
                assert(id < o[i as int]);
                if b - 1 > i {
                    assert(o[i as int] < o[b - 1]);
                }
            } else {
                assert(n[a] == o[a - 1] && n[b] == o[b - 1]);
            }
        }
        assert forall|x: CellId| n.to_set().contains(x) == o.to_set().insert(id).contains(x) by {
            if n.contains(x) {
                let k = choose|k: int| 0 <= k < n.len() && n[k] == x;
                if k < i { assert(o[k] == x); } else if k > i { assert(o[k - 1] == x); }
            }
            if o.contains(x) {
                let k = choose|k: int| 0 <= k < o.len() && o[k] == x;
                if k < i { assert(n[k] == x); } else { assert(n[k + 1] == x); }
            }
            if x == id { assert(n[i as int] == x); }
        }
        assert(n.to_set() =~= o.to_set().insert(id));
    }
}

proof fn lemma_push_contains<A>(s: Seq<A>, x: A)
    ensures
        forall|y: A| #[trigger] s.push(x).contains(y) <==> s.contains(y) || y == x,
{
    assert forall|y: A| #[trigger] s.push(x).contains(y) <==> s.contains(y) || y == x by {
        if s.contains(y) {
            let k = choose|k: int| 0 <= k < s.len() && s[k] == y;
            assert(s.push(x)[k] == y);
        }
        if y == x {
            assert(s.push(x)[s.len() as int] == y);
        }
        if s.push(x).contains(y) && y != x {
            let k = choose|k: int| 0 <= k < s.push(x).len() && s.push(x)[k] == y;
            assert(s[k] == y);
        }
    }
}

/// Steps never go back, and the cells of one step run in ascending id order.
pub open spec fn ordered_log(log: Seq<ExecutionLogEntry>) -> bool {
    forall|i: int, j: int|
        0 <= i < j < log.len() ==> (#[trigger] log[i]).step <= (#[trigger] log[j]).step && (log[i].step == log[j].step
            ==> log[i].cell_id < log[j].cell_id)
}

/// Cell `c` ran at step `s`.
pub open spec fn runs_at(log: Seq<ExecutionLogEntry>, s: int, c: CellId) -> bool {
    exists|k: int| 0 <= k < log.len() && (#[trigger] log[k]).step == s && log[k].cell_id == c
}

/// Some cell ran at step `s`.
pub open spec fn step_ran(log: Seq<ExecutionLogEntry>, s: int) -> bool {
    exists|k: int| 0 <= k < log.len() && (#[trigger] log[k]).step == s
}

/// A cell that may run: it is not a split container (a cell with children).
pub open spec fn runnable(canvas: Canvas) -> spec_fn(CellId) -> bool {
    |id: CellId| !(canvas.has_cell(id) && canvas.cell_spec(id).children@.len() > 0)
}

/// Each step after the first runs exactly the downstream cells of the
/// cells of the step before, split containers excepted.
pub open spec fn follows_edges(log: Seq<ExecutionLogEntry>, canvas: Canvas) -> bool {
    &&& forall|s: int, c: CellId|
        1 <= s && #[trigger] runs_at(log, s + 1, c) ==> exists|p: CellId| #[trigger] runs_at(log, s, p) && has_edge(canvas.rels_spec(), p, c)
    &&& forall|s: int, p: CellId, c: CellId|
        #[trigger] runs_at(log, s, p) && #[trigger] has_edge(canvas.rels_spec(), p, c) && step_ran(log, s + 1) ==> runs_at(log, s + 1, c)
            || !runnable(canvas)(c)
}

/// The scheduler's state: an ordered log following the edges, every entry
/// at a step already reached, and (once a step ran) the queue holding
/// exactly the downstream cells of the last step.
pub open spec fn scheduled(log: Seq<ExecutionLogEntry>, queue: Seq<CellId>, step: int, canvas: Canvas) -> bool {
    let rels = canvas.rels_spec();
    &&& ordered_log(log)
    &&& follows_edges(log, canvas)
    &&& forall|k: int| 0 <= k < log.len() ==> 1 <= (#[trigger] log[k]).step <= step
    &&& step >= 1 ==> forall|t: CellId| #[trigger] queue.contains(t) <==> exists|p: CellId| runs_at(log, step, p) && #[trigger] has_edge(rels, p, t)
}

/// The schedule of a log depends only on the steps and cell ids of its
/// entries.
proof fn lemma_same_schedule(a: Seq<ExecutionLogEntry>, b: Seq<ExecutionLogEntry>, canvas: Canvas)
    requires
        a.len() == b.len(),
        forall|k: int| 0 <= k < a.len() ==> (#[trigger] a[k]).step == b[k].step && a[k].cell_id == b[k].cell_id,
        ordered_log(a),
        follows_edges(a, canvas),
    ensures
        ordered_log(b),
        follows_edges(b, canvas),
{
    let rels = canvas.rels_spec();
    assert forall|i: int, j: int| 0 <= i < j < b.len() implies (#[trigger] b[i]).step <= (#[trigger] b[j]).step && (b[i].step == b[j].step
        ==> b[i].cell_id < b[j].cell_id) by {
        assert(a[i].step == b[i].step && a[j].step == b[j].step);
    }
    assert forall|s: int, c: CellId| #[trigger] runs_at(b, s, c) <==> runs_at(a, s, c) by {
        if runs_at(b, s, c) {
            let k = choose|k: int| 0 <= k < b.len() && (#[trigger] b[k]).step == s && b[k].cell_id == c;
            assert(a[k].step == s);
        }
        if runs_at(a, s, c) {
            let k = choose|k: int| 0 <= k < a.len() && (#[trigger] a[k]).step == s && a[k].cell_id == c;
            assert(b[k].step == s);
        }
    }
    assert forall|s: int| #[trigger] step_ran(b, s) <==> step_ran(a, s) by {
        if step_ran(b, s) {
            let k = choose|k: int| 0 <= k < b.len() && (#[trigger] b[k]).step == s;
            assert(a[k].step == s);
        }
        if step_ran(a, s) {
            let k = choose|k: int| 0 <= k < a.len() && (#[trigger] a[k]).step == s;
            assert(b[k].step == s);
        }
    }
    assert forall|s: int, c: CellId| 1 <= s && #[trigger] runs_at(b, s + 1, c) implies exists|p: CellId| #[trigger] runs_at(b, s, p) && has_edge(rels, p, c) by {
        assert(runs_at(a, s + 1, c));
        let p = choose|p: CellId| #[trigger] runs_at(a, s, p) && has_edge(rels, p, c);
        assert(runs_at(b, s, p));
    }
    assert forall|s: int, p: CellId, c: CellId| #[trigger] runs_at(b, s, p) && #[trigger] has_edge(rels, p, c) && step_ran(b, s + 1)
        implies runs_at(b, s + 1, c) || !runnable(canvas)(c) by {
        assert(runs_at(a, s, p) && step_ran(a, s + 1));
    }
}

/// Running the queued cells as the next step keeps the log free of
/// same-step conflicts.
proof fn lemma_step_keeps_conflict_free(
    log: Seq<ExecutionLogEntry>,
    queue: Seq<CellId>,
    cur: int,
    log2: Seq<ExecutionLogEntry>,
    rels: Seq<Relationship>,
)
    requires
        conflict_free(log, rels),
        forall|k: int| 0 <= k < log.len() ==> (#[trigger] log[k]).step < cur,
        log2.len() == log.len() + queue.len(),
        log2.take(log.len() as int) == log,
        forall|k: int| 0 <= k < queue.len() ==> (#[trigger] log2[log.len() + k]).cell_id == queue[k] && log2[log.len() + k].step == cur,
        forall|a: int, b: int| 0 <= a < b < queue.len() ==> !shares_target(rels, #[trigger] queue[a], #[trigger] queue[b]),
    ensures
        conflict_free(log2, rels),
{
    let n0 = log.len() as int;
    assert forall|k: int| 0 <= k < n0 implies #[trigger] log2[k] == log[k] by {
        assert(log2.take(n0)[k] == log2[k]);
    }
    assert forall|i: int, j: int| 0 <= i < j < log2.len() && (#[trigger] log2[i]).step == (#[trigger] log2[j]).step
        implies !shares_target(rels, log2[i].cell_id, log2[j].cell_id) by {
        if j < n0 {
            assert(log2[i] == log[i] && log2[j] == log[j]);
        } else if i < n0 {
            assert(log2[i] == log[i]);
            assert(log2[n0 + (j - n0)] == log2[j]);
        } else {
            assert(log2[n0 + (i - n0)] == log2[i]);
            assert(log2[n0 + (j - n0)] == log2[j]);
            assert(!shares_target(rels, queue[i - n0], queue[j - n0]));
        }
    }
}

/// Running the queued cells as the next step keeps the schedule.
proof fn lemma_step_keeps_schedule(
    log: Seq<ExecutionLogEntry>,
    waiting: Seq<CellId>,
    queue: Seq<CellId>,
    cur: int,
    log2: Seq<ExecutionLogEntry>,
    queue2: Seq<CellId>,
    canvas: Canvas,
)
    requires
        scheduled(log, waiting, cur - 1, canvas),
        queue == waiting.filter(runnable(canvas)),
        cur >= 1,
        ascending(queue),
        log2.len() == log.len() + queue.len(),
        log2.take(log.len() as int) == log,
        forall|k: int| 0 <= k < queue.len() ==> (#[trigger] log2[log.len() + k]).cell_id == queue[k] && log2[log.len() + k].step == cur,
        forall|t: CellId| #[trigger] queue2.contains(t) <==> exists|k: int| 0 <= k < queue.len() && has_edge(canvas.rels_spec(), #[trigger] queue[k], t),
    ensures
        scheduled(log2, queue2, cur, canvas),
{
    let rels = canvas.rels_spec();
    assert forall|c: CellId| #[trigger] queue.contains(c) <==> waiting.contains(c) && runnable(canvas)(c) by {
        if queue.contains(c) {
            waiting.lemma_filter_contains_rev(runnable(canvas), c);
            let q = choose|q: int| 0 <= q < queue.len() && queue[q] == c;
            waiting.lemma_filter_pred(runnable(canvas), q);
        }
        if waiting.contains(c) && runnable(canvas)(c) {
            let q = choose|q: int| 0 <= q < waiting.len() && waiting[q] == c;
            waiting.lemma_filter_contains(runnable(canvas), q);
        }
    }
    let n = log.len() as int;
    assert forall|k: int| 0 <= k < n implies #[trigger] log2[k] == log[k] by {
        assert(log2.take(n)[k] == log2[k]);
    }
    assert forall|k: int| 0 <= k < log2.len() implies 1 <= (#[trigger] log2[k]).step <= cur by {
        if k >= n {
            assert(log2[n + (k - n)] == log2[k]);
        }
    }
    assert forall|i: int, j: int| 0 <= i < j < log2.len() implies (#[trigger] log2[i]).step <= (#[trigger] log2[j]).step && (log2[i].step == log2[j].step
        ==> log2[i].cell_id < log2[j].cell_id) by {
        if j < n {
            assert(log2[i] == log[i] && log2[j] == log[j]);
        } else if i < n {
            assert(log2[n + (j - n)] == log2[j]);
        } else {
            assert(log2[n + (i - n)] == log2[i]);
            assert(log2[n + (j - n)] == log2[j]);
        }
    }
    // Entries at a step below `cur` are the old ones; those at `cur` are the queue.
    assert forall|s: int, c: CellId| s < cur && #[trigger] runs_at(log2, s, c) implies runs_at(log, s, c) by {
        let k = choose|k: int| 0 <= k < log2.len() && (#[trigger] log2[k]).step == s && log2[k].cell_id == c;
        if k >= n {
            assert(log2[n + (k - n)] == log2[k]);
        }
        assert(log[k] == log2[k]);
    }
    assert forall|s: int, c: CellId| #[trigger] runs_at(log, s, c) implies runs_at(log2, s, c) by {
        let k = choose|k: int| 0 <= k < log.len() && (#[trigger] log[k]).step == s && log[k].cell_id == c;
        assert(log2[k] == log[k]);
    }
    assert forall|c: CellId| #[trigger] runs_at(log2, cur, c) <==> queue.contains(c) by {
        if runs_at(log2, cur, c) {
            let k = choose|k: int| 0 <= k < log2.len() && (#[trigger] log2[k]).step == cur && log2[k].cell_id == c;
            if k < n {
                assert(log[k] == log2[k]);
            } else {
                assert(log2[n + (k - n)] == log2[k]);
            }
        }
        if queue.contains(c) {
            let q = choose|q: int| 0 <= q < queue.len() && queue[q] == c;
            assert(log2[n + q].cell_id == c);
        }
    }
    assert forall|s: int| s > cur implies !step_ran(log2, s) by {}
    assert forall|s: int| s < cur && #[trigger] step_ran(log2, s) implies step_ran(log, s) by {
        let k = choose|k: int| 0 <= k < log2.len() && (#[trigger] log2[k]).step == s;
        if k >= n {
            assert(log2[n + (k - n)] == log2[k]);
        }
        assert(log[k] == log2[k]);
    }
    assert forall|s: int, c: CellId| 1 <= s && #[trigger] runs_at(log2, s + 1, c) implies exists|p: CellId| #[trigger] runs_at(log2, s, p) && has_edge(rels, p, c) by {
        if s + 1 < cur {
            assert(runs_at(log, s + 1, c));
            let p = choose|p: CellId| #[trigger] runs_at(log, s, p) && has_edge(rels, p, c);
            assert(runs_at(log2, s, p));
        } else if s + 1 == cur {
            assert(queue.contains(c));
            assert(waiting.contains(c));
            let p = choose|p: CellId| runs_at(log, cur - 1, p) && #[trigger] has_edge(rels, p, c);
            assert(runs_at(log2, s, p));
        } else {
            let k = choose|k: int| 0 <= k < log2.len() && (#[trigger] log2[k]).step == s + 1 && log2[k].cell_id == c;
            assert(log2[k].step <= cur);
        }
    }
    assert forall|s: int, p: CellId, c: CellId| #[trigger] runs_at(log2, s, p) && #[trigger] has_edge(rels, p, c) && step_ran(log2, s + 1)
        implies runs_at(log2, s + 1, c) || !runnable(canvas)(c) by {
        let k = choose|k: int| 0 <= k < log2.len() && (#[trigger] log2[k]).step == s + 1;
        assert(log2[k].step <= cur);
        if s + 1 < cur {
            assert(runs_at(log, s, p));
            assert(step_ran(log, s + 1));
            if runnable(canvas)(c) {
                assert(runs_at(log, s + 1, c));
            }
        } else {
            assert(s == cur - 1);
            assert(runs_at(log, s, p));
            let j = choose|j: int| 0 <= j < log.len() && (#[trigger] log[j]).step == s && log[j].cell_id == p;
            assert(1 <= log[j].step);
            assert(waiting.contains(c));
        }
    }
    assert forall|t: CellId| #[trigger] queue2.contains(t) <==> exists|p: CellId| runs_at(log2, cur, p) && #[trigger] has_edge(rels, p, t) by {
        if queue2.contains(t) {
            let k = choose|k: int| 0 <= k < queue.len() && has_edge(rels, #[trigger] queue[k], t);
            assert(queue.contains(queue[k]));
            assert(runs_at(log2, cur, queue[k]));
        }
        if exists|p: CellId| runs_at(log2, cur, p) && #[trigger] has_edge(rels, p, t) {
            let p = choose|p: CellId| runs_at(log2, cur, p) && #[trigger] has_edge(rels, p, t);
            assert(queue.contains(p));
            let q = choose|q: int| 0 <= q < queue.len() && queue[q] == p;
            assert(has_edge(rels, queue[q], t));
        }
    }
}

/// The relationship at `q` joins existing cells.
pub open spec fn rels_wf_at(canvas: Canvas, q: int) -> bool {
    canvas.has_cell(canvas.rels_spec()[q].from) && canvas.has_cell(canvas.rels_spec()[q].to)
}

/// What a successful evaluation of `cell` outputs: a number cell its
/// parsed number, a formula cell the value of its formula.
pub open spec fn output_ok(canvas: Canvas, cell: Cell, out: DataView) -> bool {
    &&& cell.cell_type.is_number() ==> (number_spec(cell) matches Ok(v) && out == DataView::Number(v))
    &&& cell.cell_type is Math ==> (inline_text(cell.content) matches Some(t) && exists|v: u64|
        out == DataView::Number(v) && formula_fault(canvas, t) is None && formula_value_fits(canvas, t, v))
}

/// A log entry of a run (not a dry run) shows what its cell evaluated to.
pub open spec fn entry_ok(canvas: Canvas, mode: ExecutionMode, e: ExecutionLogEntry) -> bool {
    !(mode is DryRun) ==> canvas.has_cell(e.cell_id) && output_ok(canvas, canvas.cell_spec(e.cell_id), e.output@)
}

/// A cell of the step whose evaluation may fail: it exists and is not a
/// text cell, and in a dry run only code cells are checked.
pub open spec fn evaluation_failed(canvas: Canvas, mode: ExecutionMode, step_cells: Seq<CellId>, cell: CellId) -> bool {
    &&& step_cells.contains(cell)
    &&& canvas.has_cell(cell)
    &&& if mode is DryRun {
        canvas.cell_spec(cell).cell_type is Python
    } else {
        cell_can_fail(canvas, canvas.cell_spec(cell))
    }
}

/// A formula cell whose evaluation fails: no inline text, a reachable
/// reference cycle, or a formula without a value.
pub open spec fn math_fails(canvas: Canvas, cell: Cell) -> bool {
    match inline_text(cell.content) {
        None => true,
        Some(t) => cycle_reachable(canvas, cell.id) || formula_fault(canvas, t) is Some,
    }
}

/// A cell whose evaluation may fail: a code cell (the evaluator decides),
/// a number cell whose text is no number, or a failing formula cell.
pub open spec fn cell_can_fail(canvas: Canvas, cell: Cell) -> bool {
    ||| cell.cell_type is Python
    ||| cell.cell_type.is_number() && number_spec(cell) is Err
    ||| cell.cell_type is Math && math_fails(canvas, cell)
}

/// How a formula cell's recalculation result relates to its evaluation.
pub open spec fn math_result(c: Canvas, cell: Cell, r: Result<u64, CellError>) -> bool {
    &&& inline_text(cell.content) is None ==> r == Err::<u64, CellError>(CellError::NoInlineContent)
    &&& inline_text(cell.content) is Some && cycle_reachable(c, cell.id) ==> (r matches Err(CellError::Formula(FormulaError::Cycle(_))))
    &&& inline_text(cell.content) is Some && !cycle_reachable(c, cell.id) ==> match formula_fault(
        c,
        inline_text(cell.content)->Some_0,
    ) {
        None => (r matches Ok(v) && formula_value_fits(c, inline_text(cell.content)->Some_0, v)),
        Some(e) => (r matches Err(CellError::Formula(x)) && x@ == e),
    }
}

/// `after` has `value` cached in the target cell (if it exists) and, for a
/// number target, shown as its display text; nothing else changes.
pub open spec fn target_shown(before: Canvas, after: Canvas, target: CellId, value: u64) -> bool {
    let b = before.cells_spec();
    let a = after.cells_spec();
    &&& a.len() == b.len()
    &&& !before.has_cell(target) ==> a == b
    &&& before.has_cell(target) ==> {
        let j = before.index_spec(target);
        &&& forall|k: int| 0 <= k < b.len() && k != j ==> #[trigger] a[k] == b[k]
        &&& a[j] == (Cell { computed_result: Some(value), content: a[j].content, ..b[j] })
        &&& match display_spec(value, b[j].cell_type, b[j].decimal_precision) {
            Some(txt) => (a[j].content matches CellContent::Inline(s) && s@ == txt),
            None => a[j].content == b[j].content,
        }
    }
}

/// One recalculation: the result is the formula's evaluation on `before`;
/// a failure changes no cell; a value `v` is cached in the formula cell and
/// shown in its result target.
pub open spec fn recalc_step(before: Canvas, after: Canvas, id: CellId, r: Result<u64, CellError>) -> bool {
    let cell = before.cell_spec(id);
    &&& after.wf()
    &&& after.rels_spec() == before.rels_spec()
    &&& math_result(before, cell, r)
    &&& match r {
        Err(_) => after.cells_spec() == before.cells_spec(),
        Ok(v) => {
            let i = before.index_spec(id);
            let mid = before.cells_spec().update(i, Cell { computed_result: Some(v), ..cell });
            &&& cell.result_target_cell is None ==> after.cells_spec() == mid
            &&& cell.result_target_cell matches Some(t) ==> exists|m: Canvas| m.wf() && m.cells_spec() == mid && #[trigger] target_shown(m, after, t, v)
        },
    }
}

/// A one-item sequence whose item is kept filters to itself.
proof fn lemma_filter_single(s: Seq<CellId>, p: spec_fn(CellId) -> bool)
    requires
        s.len() == 1,
        p(s[0]),
    ensures
        s.filter(p) == s,
{
    crate::canvas::lemma_filter_push(Seq::<CellId>::empty(), s[0], p);
    reveal(Seq::filter);
    assert(Seq::<CellId>::empty().push(s[0]) =~= s);
    assert(Seq::<CellId>::empty().filter(p) =~= Seq::<CellId>::empty());
}

/// Keeping some items of an ascending sequence keeps it ascending.
proof fn lemma_filter_ascending(s: Seq<CellId>, p: spec_fn(CellId) -> bool)
    requires
        ascending(s),
    ensures
        ascending(s.filter(p)),
    decreases s.len(),
{
    if s.len() > 0 {
        let d = s.drop_last();
        assert(ascending(d)) by {
            assert forall|i: int, j: int| 0 <= i < j < d.len() implies #[trigger] d[i] < #[trigger] d[j] by {
                assert(d[i] == s[i] && d[j] == s[j]);
            }
        }
        lemma_filter_ascending(d, p);
        crate::canvas::lemma_filter_push(d, s.last(), p);
        assert(d.push(s.last()) =~= s);
        let f = d.filter(p);
        if p(s.last()) {
            assert forall|i: int, j: int| 0 <= i < j < f.push(s.last()).len() implies #[trigger] f.push(s.last())[i] < #[trigger] f.push(s.last())[j] by {
                if j == f.len() {
                    assert(f.contains(f[i]));
                    d.lemma_filter_contains_rev(p, f[i]);
                    let k = choose|k: int| 0 <= k < d.len() && d[k] == f[i];
                    assert(s[k] == d[k]);
                    assert(s[k] < s[s.len() - 1]);
                }
            }
        }
    } else {
        reveal(Seq::filter);
    }
}

/// Some cell reachable from `start` may fail when evaluated in this mode.
pub open spec fn reachable_failure(canvas: Canvas, mode: ExecutionMode, start: CellId) -> bool {
    exists|c: CellId| #[trigger] reachable(canvas.rels_spec(), start, c) && canvas.has_cell(c) && if mode is DryRun {
        canvas.cell_spec(c).cell_type is Python
    } else {
        cell_can_fail(canvas, canvas.cell_spec(c))
    }
}

/// Two distinct cells reachable from `start` feed a common target.
pub open spec fn reachable_shared_target(canvas: Canvas, start: CellId) -> bool {
    exists|a: CellId, b: CellId| a != b && #[trigger] reachable(canvas.rels_spec(), start, a) && #[trigger] reachable(
        canvas.rels_spec(),
        start,
        b,
    ) && shares_target(canvas.rels_spec(), a, b)
}

/// Every queued cell and every cell of the current step is reachable from
/// `root` along relationships.
pub open spec fn scheduled_from(canvas: Canvas, root: CellId, queue: Seq<CellId>, step_cells: Seq<CellId>) -> bool {
    &&& forall|k: int| 0 <= k < queue.len() ==> reachable(canvas.rels_spec(), root, #[trigger] queue[k])
    &&& forall|k: int| 0 <= k < step_cells.len() ==> reachable(canvas.rels_spec(), root, #[trigger] step_cells[k])
}

proof fn lemma_step_reachable(
    canvas: Canvas,
    root: CellId,
    waiting: Seq<CellId>,
    step_cells: Seq<CellId>,
    queue: Seq<CellId>,
    ok: bool,
)
    requires
        forall|k: int| 0 <= k < waiting.len() ==> reachable(canvas.rels_spec(), root, #[trigger] waiting[k]),
        step_cells == waiting.filter(runnable(canvas)),
        ok ==> forall|t: CellId| #[trigger] queue.contains(t) <==> exists|k: int|
            0 <= k < step_cells.len() && has_edge(canvas.rels_spec(), #[trigger] step_cells[k], t),
    ensures
        forall|k: int| 0 <= k < step_cells.len() ==> reachable(canvas.rels_spec(), root, #[trigger] step_cells[k]),
        ok ==> forall|k: int| 0 <= k < queue.len() ==> reachable(canvas.rels_spec(), root, #[trigger] queue[k]),
{
    let rels = canvas.rels_spec();
    assert forall|k: int| 0 <= k < step_cells.len() implies reachable(rels, root, #[trigger] step_cells[k]) by {
        assert(step_cells.contains(step_cells[k]));
        waiting.lemma_filter_contains_rev(runnable(canvas), step_cells[k]);
        let q = choose|q: int| 0 <= q < waiting.len() && waiting[q] == step_cells[k];
        assert(reachable(rels, root, waiting[q]));
    }
    if ok {
        assert forall|k: int| 0 <= k < queue.len() implies reachable(rels, root, #[trigger] queue[k]) by {
            let t = queue[k];
            assert(queue.contains(t));
            let m = choose|m: int| 0 <= m < step_cells.len() && has_edge(rels, #[trigger] step_cells[m], t);
            assert(reachable(rels, root, step_cells[m]));
            let p = choose|p: Seq<CellId>| p.len() >= 1 && p[0] == root && p.last() == step_cells[m] && #[trigger] is_path(rels, p);
            crate::validation::lemma_path_extend(rels, p, t);
            assert(p.push(t)[0] == root);
            assert(is_path(rels, p.push(t)));
        }
    }
}

/// A copy of a log entry.
fn copy_entry(e: &ExecutionLogEntry) -> (r: ExecutionLogEntry)
    ensures
        r.step == e.step,
        r.cell_id == e.cell_id,
        r.cell_name == e.cell_name,
        r.output@ == e.output@,
        r.dry_run == e.dry_run,
        r.error == e.error,
{
    ExecutionLogEntry {
        step: e.step,
        cell_id: e.cell_id,
        cell_name: copy_opt_string(&e.cell_name),
        output: e.output.copy(),
        dry_run: e.dry_run,
        error: copy_opt_string(&e.error),
    }
}

/// The fields of two log entries that contracts speak of agree.
pub open spec fn same_entry(a: ExecutionLogEntry, b: ExecutionLogEntry) -> bool {
    a.step == b.step && a.cell_id == b.cell_id && a.cell_name == b.cell_name && a.output@ == b.output@
        && a.dry_run == b.dry_run
}

/// The stepped execution engine.
pub struct ExecutionEngine {
    mode: ExecutionMode,
    current_step: usize,
    execution_queue: Vec<CellId>,
    step_cells: Vec<CellId>,
    executed_this_step: Vec<CellId>,
    log: Vec<ExecutionLogEntry>,
    cell_outputs: Vec<(CellId, CellData)>,
    status: ExecutionStatus,
}

impl ExecutionEngine {
    pub closed spec fn mode_spec(&self) -> ExecutionMode {
        self.mode
    }

    pub closed spec fn step_spec(&self) -> usize {
        self.current_step
    }

    pub closed spec fn log_spec(&self) -> Seq<ExecutionLogEntry> {
        self.log@
    }

    pub closed spec fn status_spec(&self) -> ExecutionStatus {
        self.status
    }

    /// The cells of the step being run or last run, ascending.
    pub closed spec fn step_cells_spec(&self) -> Seq<CellId> {
        self.step_cells@
    }

    /// The cells scheduled for the next step, ascending.
    pub closed spec fn queue_spec(&self) -> Seq<CellId> {
        self.execution_queue@
    }

    /// Queue ascending; every entry logged at a step already reached and
    /// flagged as a dry run exactly in dry-run mode.
    pub open spec fn wf(&self) -> bool {
        &&& ascending(self.queue_spec())
        &&& ascending(self.step_cells_spec())
        &&& forall|k: int|
            0 <= k < self.log_spec().len() ==> 1 <= (#[trigger] self.log_spec()[k]).step <= self.step_spec()
                && self.log_spec()[k].dry_run == (self.mode_spec() is DryRun)
    }

    /// A new engine in the given mode.
    pub fn new(mode: ExecutionMode) -> (r: ExecutionEngine)
        ensures
            r.wf(),
            r.mode_spec() == mode,
            r.status_spec() == ExecutionStatus::NotStarted,
            r.log_spec().len() == 0,
            r.step_spec() == 0,
    {
        ExecutionEngine {
            mode,
            current_step: 0,
            execution_queue: Vec::new(),
            step_cells: Vec::new(),
            executed_this_step: Vec::new(),
            log: Vec::new(),
            cell_outputs: Vec::new(),
            status: ExecutionStatus::NotStarted,
        }
    }

    /// The current status.
    pub fn status(&self) -> (r: &ExecutionStatus)
        ensures
            *r == self.status_spec(),
    {
        &self.status
    }

    /// The log of evaluated cells.
    pub fn log(&self) -> (r: &Vec<ExecutionLogEntry>)
        ensures
            r@ == self.log_spec(),
    {
        &self.log
    }

    /// The latest output recorded for `id`.
    fn latest_output(&self, id: CellId) -> (r: Option<&CellData>)
        ensures
            match output_of(self.cell_outputs@, id) {
                Some(d) => r matches Some(x) && x@ == d,
                None => r is None,
            },
    {
        let mut i = self.cell_outputs.len();
        assert(self.cell_outputs@.take(i as int) =~= self.cell_outputs@);
        while i > 0
            invariant
                i <= self.cell_outputs@.len(),
                output_of(self.cell_outputs@, id) == output_of(self.cell_outputs@.take(i as int), id),
            decreases i,
        {
            proof {
                assert(self.cell_outputs@.take(i as int).drop_last() =~= self.cell_outputs@.take(i - 1));
            }
            if self.cell_outputs[i - 1].0 == id {
                return Some(&self.cell_outputs[i - 1].1);
            }
            i -= 1;
        }
        None
    }

    /// The available outputs of the cell's upstream cells, in relationship
    /// order; sources without output are skipped.
    fn gather_inputs(&self, canvas: &Canvas, cell_id: CellId) -> (r: Vec<CellData>)
        ensures
            views(r@) == inputs_spec(self.cell_outputs@, canvas.rels_spec().filter(ends_at(cell_id))),
    {
        let incoming = canvas.get_incoming_relationships(cell_id);
        let mut inputs: Vec<CellData> = Vec::new();
        let mut i: usize = 0;
        while i < incoming.len()
            invariant
                i <= incoming@.len(),
                views(inputs@) == inputs_spec(self.cell_outputs@, incoming@.take(i as int)),
            decreases incoming@.len() - i,
        {
            proof {
                assert(incoming@.take(i + 1).drop_last() =~= incoming@.take(i as int));
            }
            let ghost before = inputs@;
            match self.latest_output(incoming[i].from) {
                Some(d) => {
                    inputs.push(d.copy());
                    proof {
                        assert(views(inputs@) =~= views(before) + seq![inputs@.last()@]);
                    }
                },
                None => {
                    proof {
                        assert(views(inputs@) =~= views(before) + Seq::<DataView>::empty());
                    }
                },
            }
            i += 1;
        }
        assert(incoming@.take(i as int) =~= incoming@);
        inputs
    }

    /// Evaluate a cell by its type.
    fn execute_cell<E: CodeEvaluator>(&self, canvas: &Canvas, cell: &Cell, inputs: &Vec<CellData>, code: &mut E) -> (r:
        Result<CellData, CellError>)
        requires
            canvas.wf(),
            canvas.has_cell(cell.id),
            *cell == canvas.cell_spec(cell.id),
        ensures
            cell.cell_type is Text ==> r is Ok,
            cell.cell_type is Text ==> (r matches Ok(d) && d@ == first_or_empty(views(inputs@))),
            cell.cell_type.is_number() ==> match number_spec(*cell) {
                Ok(v) => r matches Ok(d) && d@ == DataView::Number(v),
                Err(e) => r == Err::<CellData, CellError>(e),
            },
            r matches Ok(d) ==> output_ok(*canvas, *cell, d@),
            r is Err ==> cell_can_fail(*canvas, *cell),
    {
        match cell.cell_type {
            CellType::Text => Ok(execute_text_cell(cell, inputs)),
            CellType::Python => match cell.content.as_str() {
                Some(text) => match code.evaluate(text, inputs) {
                    Ok(d) => Ok(d),
                    Err(m) => Err(CellError::Code(m)),
                },
                None => Err(CellError::NoInlineContent),
            },
            CellType::Math => execute_math_cell(canvas, cell),
            CellType::NumberInt | CellType::NumberFloat | CellType::NumberCurrency => execute_number_cell(cell),
        }
    }

    /// Check a cell without evaluating it; a placeholder stands for its output.
    fn validate_cell<E: CodeEvaluator>(&self, cell: &Cell, code: &mut E) -> (r: Result<CellData, CellError>)
        ensures
            !(cell.cell_type is Python) ==> r is Ok,
    {
        match cell.cell_type {
            CellType::Text => Ok(CellData::Text("(dry-run)".to_string())),
            CellType::Python => match cell.content.as_str() {
                Some(text) => match code.validate(text) {
                    Ok(()) => Ok(CellData::Text("(syntax valid)".to_string())),
                    Err(m) => Err(CellError::Code(m)),
                },
                None => Err(CellError::NoInlineContent),
            },
            CellType::Math => Ok(CellData::Text("(dry-run-math)".to_string())),
            CellType::NumberInt | CellType::NumberFloat | CellType::NumberCurrency => Ok(
                CellData::Text("(dry-run-number)".to_string()),
            ),
        }
    }

    /// The queued cells other than split containers, in queue order.
    fn runnable_cells(canvas: &Canvas, waiting: &Vec<CellId>) -> (r: Vec<CellId>)
        requires
            canvas.wf(),
        ensures
            r@ == waiting@.filter(runnable(*canvas)),
    {
        let mut out: Vec<CellId> = Vec::new();
        let mut i: usize = 0;
        while i < waiting.len()
            invariant
                canvas.wf(),
                i <= waiting@.len(),
                out@ == waiting@.take(i as int).filter(runnable(*canvas)),
            decreases waiting@.len() - i,
        {
            let id = waiting[i];
            proof {
                lemma_filter_push(waiting@.take(i as int), id, runnable(*canvas));
                assert(waiting@.take(i as int).push(id) =~= waiting@.take(i + 1));
            }
            let container = match canvas.position_of(id) {
                Some(k) => canvas.cell_at(k).children.len() > 0,
                None => false,
            };
            if !container {
                out.push(id);
            }
            i += 1;
        }
        assert(waiting@.take(i as int) =~= waiting@);
        out
    }

    /// Run the queued cells as one step, in ascending id order, and queue
    /// their downstream cells (each once) for the next step. A target fed
    /// by two cells of the step is a conflict. On failure the step leaves
    /// no log entries or outputs behind.
    fn execute_step<E: CodeEvaluator>(&mut self, canvas: &Canvas, code: &mut E) -> (r: Result<(), ExecutionError>)
        requires
            canvas.wf(),
            old(self).wf(),
            old(self).current_step >= 1,
            forall|k: int| 0 <= k < old(self).log@.len() ==> (#[trigger] old(self).log@[k]).step < old(self).current_step,
        ensures
            final(self).wf(),
            outputs_match(old(self).cell_outputs@, old(self).log@) ==> outputs_match(final(self).cell_outputs@, final(self).log@),
            outputs_match(old(self).cell_outputs@, old(self).log@) ==> forall|k: int|
                old(self).log@.len() <= k < final(self).log@.len() ==> #[trigger] text_ok(*canvas, final(self).mode, final(self).log@, k),
            final(self).mode == old(self).mode,
            final(self).current_step == old(self).current_step,
            final(self).status == old(self).status,
            final(self).step_cells@ == old(self).execution_queue@.filter(runnable(*canvas)),
            ascending(final(self).step_cells@),
            final(self).log@.len() >= old(self).log@.len(),
            final(self).log@.take(old(self).log@.len() as int) == old(self).log@,
            r is Err ==> final(self).log@ == old(self).log@,
            r is Ok ==> {
                &&& final(self).log@.len() == old(self).log@.len() + final(self).step_cells@.len()
                &&& forall|k: int| 0 <= k < final(self).step_cells@.len() ==> (#[trigger] final(self).log@[old(self).log@.len() + k]).cell_id
                    == final(self).step_cells@[k] && final(self).log@[old(self).log@.len() + k].step == old(self).current_step
                &&& forall|k: int| 0 <= k < final(self).step_cells@.len() ==> entry_ok(*canvas, final(self).mode, #[trigger] final(self).log@[old(self).log@.len() + k])
                &&& forall|a: int, b: int| 0 <= a < b < final(self).step_cells@.len() ==> !shares_target(
                    canvas.rels_spec(),
                    #[trigger] final(self).step_cells@[a],
                    #[trigger] final(self).step_cells@[b],
                )
                &&& forall|t: CellId| #[trigger] final(self).execution_queue@.contains(t) <==> exists|k: int|
                    0 <= k < final(self).step_cells@.len() && has_edge(canvas.rels_spec(), #[trigger] final(self).step_cells@[k], t)
            },
            r matches Err(ExecutionError::Conflict { target, step }) ==> step == final(self).current_step
                && exists|a: int, b: int|
                0 <= a < b < final(self).step_cells@.len() && has_edge(canvas.rels_spec(), #[trigger] final(self).step_cells@[a], target)
                    && has_edge(canvas.rels_spec(), #[trigger] final(self).step_cells@[b], target),
            r matches Err(ExecutionError::Evaluation { cell, error }) ==> evaluation_failed(*canvas, final(self).mode, final(self).step_cells@, cell),
            r matches Err(e) ==> e is Conflict || e is Evaluation || e is CellNotFound,
            (forall|k: int| 0 <= k < old(self).execution_queue@.len() ==> canvas.has_cell(#[trigger] old(self).execution_queue@[k]))
                ==> !(r matches Err(ExecutionError::CellNotFound(_))),
            r is Ok ==> forall|k: int| 0 <= k < final(self).execution_queue@.len() ==> canvas.has_cell(#[trigger] final(self).execution_queue@[k]),
    {
        let mut waiting: Vec<CellId> = Vec::new();
        std::mem::swap(&mut waiting, &mut self.execution_queue);
        self.step_cells = Self::runnable_cells(canvas, &waiting);
        proof {
            lemma_filter_ascending(waiting@, runnable(*canvas));
        }
        self.executed_this_step.clear();
        let ghost cells = self.step_cells@;
        let ghost rels = canvas.rels_spec();
        let log_len0 = self.log.len();
        let out_len0 = self.cell_outputs.len();
        let ghost log0 = self.log@;
        let ghost outs0 = self.cell_outputs@;
        let ghost om0 = outputs_match(outs0, log0);
        let dry = self.mode == ExecutionMode::DryRun;
        proof {
            assert(self.log@.take(log_len0 as int) =~= log0);
            assert(self.cell_outputs@.take(out_len0 as int) =~= outs0);
            assert(self.execution_queue@.to_set() =~= Set::<CellId>::empty());
        }
        let mut i: usize = 0;
        while i < self.step_cells.len()
            invariant
                canvas.wf(),
                rels == canvas.rels_spec(),
                self.step_cells@ == cells,
                cells == old(self).execution_queue@.filter(runnable(*canvas)),
                ascending(cells),
                self.mode == old(self).mode,
                dry == (self.mode is DryRun),
                self.current_step == old(self).current_step,
                self.status == old(self).status,
                log_len0 == log0.len(),
                log0 == old(self).log@,
                out_len0 == outs0.len(),
                i <= cells.len(),
                self.log@.len() == log_len0 + i,
                self.log@.take(log_len0 as int) == log0,
                self.cell_outputs@.len() >= out_len0,
                self.cell_outputs@.take(out_len0 as int) == outs0,
                old(self).wf(),
                forall|k: int| 0 <= k < log0.len() ==> (#[trigger] log0[k]).step < old(self).current_step,
                forall|k: int| 0 <= k < i ==> (#[trigger] self.log@[log_len0 + k]).cell_id == cells[k]
                    && self.log@[log_len0 + k].step == self.current_step
                    && self.log@[log_len0 + k].dry_run == dry,
                forall|k: int| 0 <= k < i ==> entry_ok(*canvas, self.mode, #[trigger] self.log@[log_len0 + k]),
                om0 == outputs_match(outs0, log0),
                outs0 == old(self).cell_outputs@,
                om0 ==> outputs_match(self.cell_outputs@, self.log@),
                om0 ==> forall|k: int| log_len0 <= k < self.log@.len() ==> #[trigger] text_ok(*canvas, self.mode, self.log@, k),
                forall|a: int, b: int| 0 <= a < b < i ==> !shares_target(rels, #[trigger] cells[a], #[trigger] cells[b]),
                ascending(self.execution_queue@),
                forall|t: CellId| #[trigger] self.executed_this_step@.contains(t) <==> exists|k: int| 0 <= k < i && has_edge(rels, #[trigger] cells[k], t),
                forall|t: CellId| #[trigger] self.execution_queue@.to_set().contains(t) <==> self.executed_this_step@.contains(t),
            decreases cells.len() - i,
        {
            let cell_id = self.step_cells[i];
            let cell = match canvas.get_cell(cell_id) {
                Some(c) => c,
                None => {
                    self.log.truncate(log_len0);
                    self.cell_outputs.truncate(out_len0);
                    proof {
                        assert(self.log@ =~= log0);
                        assert(self.cell_outputs@ =~= outs0);
                        assert(cells.contains(cell_id));
                        old(self).execution_queue@.lemma_filter_contains_rev(runnable(*canvas), cell_id);
                    }
                    return Err(ExecutionError::CellNotFound(cell_id));
                },
            };
            let inputs = self.gather_inputs(canvas, cell_id);
            let result = if dry {
                self.validate_cell(cell, code)
            } else {
                self.execute_cell(canvas, cell, &inputs, code)
            };
            let output = match result {
                Ok(d) => d,
                Err(e) => {
                    self.log.truncate(log_len0);
                    self.cell_outputs.truncate(out_len0);
                    proof {
                        assert(self.log@ =~= log0);
                        assert(self.cell_outputs@ =~= outs0);
                        assert(cells[i as int] == cell_id);
                    }
                    return Err(ExecutionError::Evaluation { cell: cell_id, error: e });
                },
            };
            let ghost log_before = self.log@;
            self.log.push(ExecutionLogEntry {
                step: self.current_step,
                cell_id,
                cell_name: copy_opt_string(&cell.name),
                output: output.copy(),
                dry_run: dry,
                error: None,
            });
            proof {
                assert forall|k: int| 0 <= k < log_before.len() implies #[trigger] self.log@[k] == log_before[k] by {}
                assert(self.log@.take(log_len0 as int) =~= log_before.take(log_len0 as int));
                assert(self.log@[log_len0 + i] == self.log@[log_before.len() as int]);
                assert(entry_ok(*canvas, self.mode, self.log@[log_len0 + i]));
            }
            let ghost outs_before = self.cell_outputs@;
            self.cell_outputs.push((cell_id, output));
            proof {
                assert(self.cell_outputs@.take(out_len0 as int) =~= outs_before.take(out_len0 as int));
                if om0 {
                    let l = self.log@;
                    let n0 = log_before.len() as int;
                    assert(l.take(n0) =~= log_before);
                    lemma_match_inputs(outs_before, log_before, canvas.rels_spec().filter(ends_at(cell_id)));
                    assert(text_ok(*canvas, self.mode, l, n0));
                    assert forall|k: int| log_len0 <= k < l.len() implies #[trigger] text_ok(*canvas, self.mode, l, k) by {
                        if k < n0 {
                            assert(l.take(k) =~= log_before.take(k));
                            assert(l[k] == log_before[k]);
                            assert(text_ok(*canvas, self.mode, log_before, k));
                        }
                    }
                    assert forall|k: int| 0 <= k < self.cell_outputs@.len() implies (#[trigger] self.cell_outputs@[k]).0 == l[k].cell_id
                        && self.cell_outputs@[k].1@ == l[k].output@ by {
                        if k < n0 {
                            assert(self.cell_outputs@[k] == outs_before[k]);
                        }
                    }
                }
            }
            let downstream = canvas.get_outgoing_relationships(cell_id);
            let ghost d = downstream@;
            let ghost log_i = self.log@;
            let ghost outs_i = self.cell_outputs@;
            proof {
                lemma_filter_unique(rels, starts_at(cell_id));
            }
            let mut j: usize = 0;
            while j < downstream.len()
                invariant
                    canvas.wf(),
                    rels == canvas.rels_spec(),
                    d == downstream@,
                    d == rels.filter(starts_at(cell_id)),
                    forall|a: int, b: int| 0 <= a < d.len() && 0 <= b < d.len() && a != b ==> #[trigger] d[a] != #[trigger] d[b],
                    cell_id == cells[i as int],
                    i < cells.len(),
                    self.step_cells@ == cells,
                    ascending(cells),
                    self.current_step == old(self).current_step,
                    j <= d.len(),
                    ascending(self.execution_queue@),
                    forall|t: CellId| #[trigger] self.executed_this_step@.contains(t) <==> (exists|k: int| 0 <= k < i && has_edge(rels, #[trigger] cells[k], t))
                        || exists|m: int| 0 <= m < j && (#[trigger] d[m]).to == t,
                    forall|t: CellId| #[trigger] self.execution_queue@.to_set().contains(t) <==> self.executed_this_step@.contains(t),
                    forall|m: int| 0 <= m < j ==> !exists|k: int| 0 <= k < i && has_edge(rels, #[trigger] cells[k], (#[trigger] d[m]).to),
                    self.log@ == log_i,
                    self.cell_outputs@ == outs_i,
                    log_len0 == log0.len(),
                    log_i.len() == log_len0 + i + 1,
                    log_i.take(log_len0 as int) == log0,
                    forall|k: int| 0 <= k < i + 1 ==> entry_ok(*canvas, self.mode, #[trigger] log_i[log_len0 + k]),
                    om0 == outputs_match(outs0, log0),
                    outs0 == old(self).cell_outputs@,
                    om0 ==> outputs_match(outs_i, log_i),
                    om0 ==> forall|k: int| log_len0 <= k < log_i.len() ==> #[trigger] text_ok(*canvas, self.mode, log_i, k),
                    out_len0 == outs0.len(),
                    outs_i.len() >= out_len0,
                    outs_i.take(out_len0 as int) == outs0,
                    log0 == old(self).log@,
                    cells == old(self).execution_queue@.filter(runnable(*canvas)),
                    old(self).wf(),
                    self.mode == old(self).mode,
                    self.status == old(self).status,
                decreases d.len() - j,
            {
                let target = downstream[j].to;
                proof {
                    rels.lemma_filter_pred(starts_at(cell_id), j as int);
                    assert(d.contains(d[j as int]));
                    rels.lemma_filter_contains_rev(starts_at(cell_id), d[j as int]);
                    assert(d[j as int] == Relationship { from: cell_id, to: target });
                    assert(has_edge(rels, cell_id, target));
                }
                if crate::canvas::contains_cell_id(&self.executed_this_step, target) {
                    proof {
                        if exists|m: int| 0 <= m < j && (#[trigger] d[m]).to == target {
                            let m = choose|m: int| 0 <= m < j && (#[trigger] d[m]).to == target;
                            rels.lemma_filter_pred(starts_at(cell_id), m);
                            assert(d[m] == d[j as int]);
                        }
                        let k = choose|k: int| 0 <= k < i && has_edge(rels, #[trigger] cells[k], target);
                        assert(has_edge(rels, cells[k], target) && has_edge(rels, cells[i as int], target));
                    }
                    self.log.truncate(log_len0);
                    self.cell_outputs.truncate(out_len0);
                    proof {
                        assert(self.log@ =~= log0);
                        assert(self.cell_outputs@ =~= outs0);
                        assert(self.step_cells@ == cells);
                        assert(ascending(self.execution_queue@));
                    }
                    return Err(ExecutionError::Conflict { target, step: self.current_step });
                }
                let ghost ex_before = self.executed_this_step@;
                self.executed_this_step.push(target);
                proof {
                    lemma_push_contains(ex_before, target);
                    assert forall|t: CellId| #[trigger] self.executed_this_step@.contains(t) <==> (exists|k: int| 0 <= k < i && has_edge(rels, #[trigger] cells[k], t))
                        || exists|m: int| 0 <= m < j + 1 && (#[trigger] d[m]).to == t by {
                        if t == target {
                            assert(d[j as int].to == t);
                        }
                        if exists|m: int| 0 <= m < j + 1 && (#[trigger] d[m]).to == t {
                            let m = choose|m: int| 0 <= m < j + 1 && (#[trigger] d[m]).to == t;
                            if m < j {
                                assert(ex_before.contains(t));
                            }
                        }
                    }
                }
                insert_sorted(&mut self.execution_queue, target);
                j += 1;
            }
            proof {
                assert forall|k: int| 0 <= k < i implies !shares_target(rels, #[trigger] cells[k], cells[i as int]) by {
                    if shares_target(rels, cells[k], cells[i as int]) {
                        let t = choose|t: CellId| has_edge(rels, cells[k], t) && has_edge(rels, cells[i as int], t);
                        let q = choose|q: int| 0 <= q < rels.len() && rels[q] == Relationship { from: cells[i as int], to: t };
                        rels.lemma_filter_contains(starts_at(cell_id), q);
                        let m = choose|m: int| 0 <= m < d.len() && d[m] == rels[q];
                        assert(d[m].to == t);
                    }
                }
                assert forall|t: CellId| #[trigger] self.executed_this_step@.contains(t) <==> exists|k: int| 0 <= k < i + 1 && has_edge(rels, #[trigger] cells[k], t) by {
                    if exists|m: int| 0 <= m < d.len() && (#[trigger] d[m]).to == t {
                        let m = choose|m: int| 0 <= m < d.len() && (#[trigger] d[m]).to == t;
                        rels.lemma_filter_pred(starts_at(cell_id), m);
                        assert(d.contains(d[m]));
                        rels.lemma_filter_contains_rev(starts_at(cell_id), d[m]);
                        assert(d[m] == Relationship { from: cells[i as int], to: t });
                        assert(has_edge(rels, cells[i as int], t));
                    }
                    if has_edge(rels, cells[i as int], t) {
                        let q = choose|q: int| 0 <= q < rels.len() && rels[q] == Relationship { from: cells[i as int], to: t };
                        rels.lemma_filter_contains(starts_at(cell_id), q);
                        let m = choose|m: int| 0 <= m < d.len() && d[m] == rels[q];
                        assert(d[m].to == t);
                    }
                }
            }
            i += 1;
        }
        proof {
            assert forall|k: int| 0 <= k < self.log@.len() implies 1 <= (#[trigger] self.log@[k]).step <= self.current_step
                && self.log@[k].dry_run == (self.mode is DryRun) by {
                if k < log_len0 {
                    assert(self.log@[k] == self.log@.take(log_len0 as int)[k]);
                    assert(old(self).log@[k] == log0[k]);
                } else {
                    assert(self.log@[log_len0 + (k - log_len0)] == self.log@[k]);
                }
            }
            assert forall|t: CellId| #[trigger] self.execution_queue@.contains(t) <==> self.executed_this_step@.contains(t) by {
                assert(self.execution_queue@.to_set().contains(t) == self.execution_queue@.contains(t));
            }
            assert forall|k: int| 0 <= k < self.execution_queue@.len() implies canvas.has_cell(#[trigger] self.execution_queue@[k]) by {
                let t = self.execution_queue@[k];
                assert(self.execution_queue@.contains(t));
                assert(self.executed_this_step@.contains(t));
                let c = choose|c: int| 0 <= c < i && has_edge(rels, #[trigger] cells[c], t);
                assert(rels.contains(Relationship { from: cells[c], to: t }));
                let q = choose|q: int| 0 <= q < rels.len() && rels[q] == Relationship { from: cells[c], to: t };
                assert(rels_wf_at(*canvas, q));
            }
        }
        Ok(())
    }

    /// A report of the current state, with the given status.
    fn create_report(&self, status: ExecutionStatus) -> (r: ExecutionReport)
        ensures
            r.status == status,
            r.step == self.current_step,
            r.total_cells_executed == r.log@.len(),
            r.log@.len() == self.log@.len(),
            forall|k: int| 0 <= k < r.log@.len() ==> same_entry(#[trigger] r.log@[k], self.log@[k]),
    {
        let mut log: Vec<ExecutionLogEntry> = Vec::new();
        let mut i: usize = 0;
        while i < self.log.len()
            invariant
                i <= self.log@.len(),
                log@.len() == i,
                forall|k: int| 0 <= k < i ==> same_entry(#[trigger] log@[k], self.log@[k]),
            decreases self.log@.len() - i,
        {
            log.push(copy_entry(&self.log[i]));
            i += 1;
        }
        let n = log.len();
        ExecutionReport { status, step: self.current_step, log, total_cells_executed: n }
    }

    /// Run steps until the queue is empty, or for one step in step mode.
    #[verifier::rlimit(100)]
    #[verifier::spinoff_prover]
    fn run_steps<E: CodeEvaluator>(&mut self, canvas: &Canvas, code: &mut E, root: Ghost<CellId>) -> (r: Result<ExecutionReport, ExecutionError>)
        requires
            canvas.wf(),
            old(self).wf(),
        ensures
            scheduled_from(*canvas, root@, old(self).execution_queue@, old(self).step_cells@) ==> forall|k: int|
                0 <= k < final(self).step_cells@.len() ==> reachable(canvas.rels_spec(), root@, #[trigger] final(self).step_cells@[k]),
            final(self).wf(),
            outputs_match(old(self).cell_outputs@, old(self).log@) && (forall|k: int| 0 <= k < old(self).log@.len() ==> #[trigger] text_ok(*canvas, old(self).mode, old(self).log@, k))
                ==> outputs_match(final(self).cell_outputs@, final(self).log@) && forall|k: int|
                0 <= k < final(self).log@.len() ==> #[trigger] text_ok(*canvas, final(self).mode, final(self).log@, k),
            final(self).mode == old(self).mode,
            final(self).current_step >= old(self).current_step,
            final(self).log@.len() >= old(self).log@.len(),
            final(self).log@.take(old(self).log@.len() as int) == old(self).log@,
            conflict_free(old(self).log@, canvas.rels_spec()) ==> conflict_free(final(self).log@, canvas.rels_spec()),
            (forall|k: int| 0 <= k < old(self).log@.len() ==> entry_ok(*canvas, old(self).mode, #[trigger] old(self).log@[k]))
                ==> forall|k: int| 0 <= k < final(self).log@.len() ==> entry_ok(*canvas, final(self).mode, #[trigger] final(self).log@[k]),
            old(self).current_step == 0 && old(self).log@.len() == 0 && old(self).execution_queue@.len() == 1
                && runnable(*canvas)(old(self).execution_queue@[0]) && r is Ok
                ==> final(self).log@.len() >= 1 && final(self).log@[0].cell_id == old(self).execution_queue@[0]
                && final(self).log@[0].step == 1
                && forall|k: int| 1 <= k < final(self).log@.len() ==> (#[trigger] final(self).log@[k]).step >= 2,
            r is Err ==> final(self).status is Error,
            r matches Err(ExecutionError::StepLimit) ==> final(self).current_step == usize::MAX,
            r is Err && !(r matches Err(ExecutionError::StepLimit)) ==> forall|k: int|
                0 <= k < final(self).log@.len() ==> (#[trigger] final(self).log@[k]).step < final(self).current_step,
            old(self).mode is Step && old(self).execution_queue@.len() > 0 && r is Ok ==> final(self).current_step
                == old(self).current_step + 1 && final(self).status is Paused,
            r matches Err(ExecutionError::Evaluation { cell, error }) ==> evaluation_failed(*canvas, final(self).mode, final(self).step_cells@, cell),
            r matches Err(e) ==> e is Conflict || e is Evaluation || e is CellNotFound || e is StepLimit,
            (forall|k: int| 0 <= k < old(self).execution_queue@.len() ==> canvas.has_cell(#[trigger] old(self).execution_queue@[k]))
                ==> !(r matches Err(ExecutionError::CellNotFound(_))),
            (r is Ok || r matches Err(ExecutionError::StepLimit)) && scheduled(old(self).log@, old(self).execution_queue@, old(self).current_step as int, *canvas)
                ==> scheduled(final(self).log@, final(self).execution_queue@, final(self).current_step as int, *canvas),
            r matches Err(ExecutionError::StepLimit) ==> forall|s: int| old(self).current_step < s <= usize::MAX ==> #[trigger] step_ran(final(self).log@, s),
            old(self).mode is Step && (r matches Err(ExecutionError::StepLimit)) ==> old(self).current_step == usize::MAX,
            r is Ok ==> forall|s: int| old(self).current_step < s < final(self).current_step ==> #[trigger] step_ran(final(self).log@, s),
            r matches Ok(rep) ==> {
                &&& rep.status == final(self).status
                &&& rep.step == final(self).current_step
                &&& !(rep.status is Paused) ==> final(self).execution_queue@.len() == 0
                &&& rep.total_cells_executed == rep.log@.len()
                &&& rep.log@.len() == final(self).log@.len()
                &&& forall|k: int| 0 <= k < rep.log@.len() ==> same_entry(#[trigger] rep.log@[k], final(self).log@[k])
                &&& match final(self).mode {
                    ExecutionMode::Step => rep.status is Paused || rep.status is Complete,
                    ExecutionMode::Run => rep.status is Complete,
                    ExecutionMode::DryRun => rep.status is DryRunComplete,
                }
            },
            r matches Err(ExecutionError::Conflict { target, step }) ==> step == final(self).current_step
                && exists|a: int, b: int|
                0 <= a < b < final(self).step_cells@.len() && has_edge(canvas.rels_spec(), #[trigger] final(self).step_cells@[a], target)
                    && has_edge(canvas.rels_spec(), #[trigger] final(self).step_cells@[b], target),
    {
        let ghost rels = canvas.rels_spec();
        let ghost log_start = self.log@;
        let ghost first = self.execution_queue@;
        let ghost step0 = self.current_step;
        let ghost cf0 = conflict_free(log_start, rels);
        let ghost sched0 = scheduled(log_start, first, step0 as int, *canvas);
        let ghost eo0 = forall|k: int| 0 <= k < log_start.len() ==> entry_ok(*canvas, old(self).mode, #[trigger] log_start[k]);
        let ghost rq0 = scheduled_from(*canvas, root@, first, old(self).step_cells@);
        let ghost tm0 = outputs_match(old(self).cell_outputs@, log_start) && forall|k: int| 0 <= k < log_start.len() ==> #[trigger] text_ok(*canvas, old(self).mode, log_start, k);
        proof {
            assert(self.log@.take(log_start.len() as int) =~= log_start);
        }
        while self.execution_queue.len() > 0
            invariant
                canvas.wf(),
                rels == canvas.rels_spec(),
                self.wf(),
                self.mode == old(self).mode,
                self.current_step >= step0,
                step0 == old(self).current_step,
                log_start == old(self).log@,
                first == old(self).execution_queue@,
                self.log@.len() >= log_start.len(),
                self.log@.take(log_start.len() as int) == log_start,
                cf0 == conflict_free(log_start, rels),
                cf0 ==> conflict_free(self.log@, rels),
                sched0 == scheduled(log_start, first, step0 as int, *canvas),
                eo0 == forall|k: int| 0 <= k < log_start.len() ==> entry_ok(*canvas, old(self).mode, #[trigger] log_start[k]),
                eo0 ==> forall|k: int| 0 <= k < self.log@.len() ==> entry_ok(*canvas, self.mode, #[trigger] self.log@[k]),
                tm0 == (outputs_match(old(self).cell_outputs@, log_start) && forall|k: int| 0 <= k < log_start.len() ==> #[trigger] text_ok(*canvas, old(self).mode, log_start, k)),
                rq0 == scheduled_from(*canvas, root@, first, old(self).step_cells@),
                rq0 ==> scheduled_from(*canvas, root@, self.execution_queue@, self.step_cells@),
                tm0 ==> outputs_match(self.cell_outputs@, self.log@) && forall|k: int| 0 <= k < self.log@.len() ==> #[trigger] text_ok(*canvas, self.mode, self.log@, k),
                (forall|k: int| 0 <= k < first.len() ==> canvas.has_cell(#[trigger] first[k])) ==> forall|k: int|
                    0 <= k < self.execution_queue@.len() ==> canvas.has_cell(#[trigger] self.execution_queue@[k]),
                sched0 ==> scheduled(self.log@, self.execution_queue@, self.current_step as int, *canvas),
                step0 == 0 && log_start.len() == 0 && first.len() == 1 && runnable(*canvas)(first[0]) ==> (self.current_step == 0 ==> self.execution_queue@ == first && self.log@.len() == 0)
                    && (self.current_step >= 1 ==> self.log@.len() >= 1 && self.log@[0].cell_id == first[0] && self.log@[0].step == 1
                    && forall|k: int| 1 <= k < self.log@.len() ==> (#[trigger] self.log@[k]).step >= 2),
                self.mode is Step ==> self.current_step == step0 && self.execution_queue@ == first,
                forall|st: int| step0 < st < self.current_step ==> #[trigger] step_ran(self.log@, st),
                self.current_step > step0 && self.execution_queue@.len() > 0 ==> step_ran(self.log@, self.current_step as int),
            decreases usize::MAX - self.current_step,
        {
            if self.current_step == usize::MAX {
                self.status = ExecutionStatus::Error(ExecutionError::StepLimit);
                return Err(ExecutionError::StepLimit);
            }
            self.current_step = self.current_step + 1;
            let ghost before = self.log@;
            let ghost queue_before = self.execution_queue@;
            let step_result = self.execute_step(canvas, code);
            proof {
                if rq0 {
                    lemma_step_reachable(*canvas, root@, queue_before, self.step_cells@, self.execution_queue@, step_result is Ok);
                }
            }
            match step_result {
                Err(e) => {
                    proof {
                        assert(self.log@.take(log_start.len() as int) =~= log_start);
                    }
                    self.status = ExecutionStatus::Error(e.clone());
                    return Err(e);
                },
                Ok(()) => {},
            }
            proof {
                let l = self.log@;
                let n0 = before.len() as int;
                assert(l.take(log_start.len() as int) =~= before.take(log_start.len() as int));
                if cf0 {
                    lemma_step_keeps_conflict_free(before, self.step_cells@, self.current_step as int, l, rels);
                }
                if tm0 {
                    assert forall|k: int| 0 <= k < l.len() implies #[trigger] text_ok(*canvas, self.mode, l, k) by {
                        if k < before.len() {
                            assert(l[k] == l.take(before.len() as int)[k]);
                            assert(l[k] == before[k]);
                            assert(l.take(k) =~= before.take(k));
                            assert(text_ok(*canvas, self.mode, before, k));
                        }
                    }
                }
                if eo0 {
                    assert forall|k: int| 0 <= k < l.len() implies entry_ok(*canvas, self.mode, #[trigger] l[k]) by {
                        if k < before.len() {
                            assert(l[k] == l.take(before.len() as int)[k]);
                        } else {
                            assert(l[before.len() + (k - before.len())] == l[k]);
                        }
                    }
                }
                assert forall|st: int| step0 < st < self.current_step implies #[trigger] step_ran(l, st) by {
                    assert(step_ran(before, st));
                    let k = choose|k: int| 0 <= k < before.len() && (#[trigger] before[k]).step == st;
                    assert(l[k] == l.take(before.len() as int)[k]);
                    assert(l[k] == before[k]);
                }
                if self.execution_queue@.len() > 0 {
                    let t = self.execution_queue@[0];
                    assert(self.execution_queue@.contains(t));
                    let k = choose|k: int| 0 <= k < self.step_cells@.len() && has_edge(canvas.rels_spec(), #[trigger] self.step_cells@[k], t);
                    assert(l[before.len() + k].step == self.current_step);
                }
                if sched0 {
                    lemma_step_keeps_schedule(before, queue_before, self.step_cells@, self.current_step as int, l, self.execution_queue@, *canvas);
                }
                if step0 == 0 && log_start.len() == 0 && first.len() == 1 && runnable(*canvas)(first[0]) && self.current_step == 1 {
                    lemma_filter_single(queue_before, runnable(*canvas));
                    let z: int = 0;
                    assert(l[before.len() + z].cell_id == self.step_cells@[z]);
                    assert(l[0].cell_id == queue_before[0]);
                }
                if step0 == 0 && log_start.len() == 0 && first.len() == 1 && runnable(*canvas)(first[0]) && self.current_step > 1 {
                    assert(l[0] == before[0]);
                    assert forall|k: int| 1 <= k < l.len() implies (#[trigger] l[k]).step >= 2 by {
                        if k < before.len() {
                            assert(l[k] == l.take(before.len() as int)[k]);
                            assert(l[k] == before[k]);
                        } else {
                            assert(l[before.len() + (k - before.len())] == l[k]);
                        }
                    }
                }
            }
            if self.mode == ExecutionMode::Step {
                self.status = ExecutionStatus::Paused;
                return Ok(self.create_report(ExecutionStatus::Paused));
            }
        }
        if self.mode == ExecutionMode::DryRun {
            self.status = ExecutionStatus::DryRunComplete;
            Ok(self.create_report(ExecutionStatus::DryRunComplete))
        } else {
            self.status = ExecutionStatus::Complete;
            Ok(self.create_report(ExecutionStatus::Complete))
        }
    }

    /// Execute from the start cell: step 1 runs the start cell, and each
    /// later step runs, in ascending id order, the downstream cells of the
    /// cells of the step before (each once).
    pub fn execute<E: CodeEvaluator>(&mut self, canvas: &Canvas, code: &mut E) -> (r: Result<ExecutionReport, ExecutionError>)
        requires
            canvas.wf(),
            old(self).wf(),
        ensures
            final(self).wf(),
            final(self).mode_spec() == old(self).mode_spec(),
            start_of(canvas.cells_spec()) is None ==> r == Err::<ExecutionReport, ExecutionError>(ExecutionError::NoStartPoint)
                && *final(self) == *old(self),
            start_of(canvas.cells_spec()) is Some && r is Err ==> final(self).status_spec() is Error,
            start_of(canvas.cells_spec()) is Some ==> (r matches Err(e) ==> e is Conflict || e is Evaluation || e is StepLimit),
            r matches Err(ExecutionError::Evaluation { cell, error }) ==> evaluation_failed(*canvas, old(self).mode_spec(), final(self).step_cells_spec(), cell),
            start_of(canvas.cells_spec()) is Some && r is Err ==> reachable_failure(*canvas, old(self).mode_spec(), start_of(canvas.cells_spec())->Some_0)
                || reachable_shared_target(*canvas, start_of(canvas.cells_spec())->Some_0) || r matches Err(ExecutionError::StepLimit),
            start_of(canvas.cells_spec()) is Some && r is Err ==> forall|k: int| 0 <= k < final(self).step_cells_spec().len()
                ==> reachable(canvas.rels_spec(), start_of(canvas.cells_spec())->Some_0, #[trigger] final(self).step_cells_spec()[k]),
            r matches Err(ExecutionError::StepLimit) ==> final(self).step_spec() == usize::MAX,
            r is Err && !(r matches Err(ExecutionError::StepLimit)) && !(r matches Err(ExecutionError::NoStartPoint))
                && !(r matches Err(ExecutionError::NotPaused)) ==> forall|k: int|
                0 <= k < final(self).log_spec().len() ==> (#[trigger] final(self).log_spec()[k]).step < final(self).step_spec(),
            r matches Err(ExecutionError::StepLimit) ==> {
                &&& !(old(self).mode_spec() is Step)
                &&& forall|s: int| 1 <= s <= usize::MAX ==> #[trigger] step_ran(final(self).log_spec(), s)
                &&& conflict_free(final(self).log_spec(), canvas.rels_spec())
                &&& scheduled(final(self).log_spec(), final(self).queue_spec(), final(self).step_spec() as int, *canvas)
            },
            r matches Ok(rep) ==> {
                &&& rep.status == final(self).status_spec()
                &&& rep.step == final(self).step_spec()
                &&& forall|s: int| 1 <= s < rep.step ==> #[trigger] step_ran(final(self).log_spec(), s)
                &&& !(rep.status is Paused) ==> final(self).queue_spec().len() == 0
                &&& old(self).mode_spec() is Step ==> rep.status is Paused && rep.step == 1
                &&& rep.total_cells_executed == rep.log@.len()
                &&& runnable(*canvas)(start_of(canvas.cells_spec())->Some_0) ==> rep.log@.len() >= 1
                    && start_of(canvas.cells_spec()) == Some(rep.log@[0].cell_id) && rep.log@[0].step == 1
                    && forall|k: int| 1 <= k < rep.log@.len() ==> (#[trigger] rep.log@[k]).step >= 2
                &&& forall|k: int| 0 <= k < rep.log@.len() ==> (#[trigger] rep.log@[k]).dry_run == (old(self).mode_spec() is DryRun)
                &&& conflict_free(rep.log@, canvas.rels_spec())
                &&& ordered_log(rep.log@)
                &&& follows_edges(rep.log@, *canvas)
                &&& forall|k: int| 0 <= k < rep.log@.len() ==> entry_ok(*canvas, old(self).mode_spec(), #[trigger] rep.log@[k])
                &&& forall|k: int| 0 <= k < final(self).log_spec().len() ==> #[trigger] text_ok(*canvas, old(self).mode_spec(), final(self).log_spec(), k)
                &&& scheduled(final(self).log_spec(), final(self).queue_spec(), final(self).step_spec() as int, *canvas)
                &&& forall|k: int| 0 <= k < rep.log@.len() ==> same_entry(#[trigger] rep.log@[k], final(self).log_spec()[k])
                &&& match old(self).mode_spec() {
                    ExecutionMode::Step => rep.status is Paused || rep.status is Complete,
                    ExecutionMode::Run => rep.status is Complete,
                    ExecutionMode::DryRun => rep.status is DryRunComplete,
                }
            },
            r matches Err(ExecutionError::Conflict { target, step }) ==> step == final(self).step_spec()
                && exists|a: int, b: int|
                0 <= a < b < final(self).step_cells_spec().len() && has_edge(canvas.rels_spec(), #[trigger] final(self).step_cells_spec()[a], target)
                    && has_edge(canvas.rels_spec(), #[trigger] final(self).step_cells_spec()[b], target),
    {
        let start = match canvas.get_start_point() {
            Some(c) => c.id,
            None => {
                return Err(ExecutionError::NoStartPoint);
            },
        };
        self.status = ExecutionStatus::Running;
        self.execution_queue = vec![start];
        self.current_step = 0;
        self.executed_this_step.clear();
        self.step_cells.clear();
        self.cell_outputs.clear();
        self.log.clear();
        proof {
            assert(ascending(self.execution_queue@));
            assert(conflict_free(self.log@, canvas.rels_spec()));
            assert(scheduled(self.log@, self.execution_queue@, 0, *canvas));
            assert(canvas.has_cell(self.execution_queue@[0]));
        }
        proof {
            let p = seq![start];
            assert(is_path(canvas.rels_spec(), p));
            assert(reachable(canvas.rels_spec(), start, start));
            assert(scheduled_from(*canvas, start, self.execution_queue@, self.step_cells@));
        }
        let r = self.run_steps(canvas, code, Ghost(start));
        proof {
            if let Ok(rep) = &r {
                assert forall|k: int| 0 <= k < rep.log@.len() implies (#[trigger] rep.log@[k]).dry_run == (old(self).mode_spec() is DryRun) by {
                    assert(same_entry(rep.log@[k], self.log@[k]));
                }
                assert forall|i: int, j: int| 0 <= i < j < rep.log@.len() && (#[trigger] rep.log@[i]).step == (#[trigger] rep.log@[j]).step
                    implies !shares_target(canvas.rels_spec(), rep.log@[i].cell_id, rep.log@[j].cell_id) by {
                    assert(same_entry(rep.log@[i], self.log@[i]) && same_entry(rep.log@[j], self.log@[j]));
                }
                if rep.log@.len() > 0 {
                    assert(same_entry(rep.log@[0], self.log@[0]));
                }
                lemma_same_schedule(self.log@, rep.log@, *canvas);
                assert forall|k: int| 0 <= k < rep.log@.len() implies entry_ok(*canvas, old(self).mode_spec(), #[trigger] rep.log@[k]) by {
                    assert(same_entry(rep.log@[k], self.log@[k]));
                    assert(entry_ok(*canvas, self.mode, self.log@[k]));
                }
            }
            if let Err(ExecutionError::Conflict { target, step }) = &r {
                let (a, b) = choose|a: int, b: int|
                    0 <= a < b < self.step_cells@.len() && has_edge(canvas.rels_spec(), #[trigger] self.step_cells@[a], *target)
                        && has_edge(canvas.rels_spec(), #[trigger] self.step_cells@[b], *target);
                assert(has_edge(canvas.rels_spec(), self.step_cells_spec()[a], *target));
                assert(has_edge(canvas.rels_spec(), self.step_cells_spec()[b], *target));
            }
            if let Err(ExecutionError::Conflict { target, step }) = &r {
                let (a, b) = choose|a: int, b: int|
                    0 <= a < b < self.step_cells@.len() && has_edge(canvas.rels_spec(), #[trigger] self.step_cells@[a], *target)
                        && has_edge(canvas.rels_spec(), #[trigger] self.step_cells@[b], *target);
                let (x, y) = (self.step_cells@[a], self.step_cells@[b]);
                assert(ascending(self.step_cells@));
                assert(x < y);
                assert(reachable(canvas.rels_spec(), start, x) && reachable(canvas.rels_spec(), start, y));
                assert(shares_target(canvas.rels_spec(), x, y));
                assert(reachable_shared_target(*canvas, start));
            }
            if let Err(ExecutionError::Evaluation { cell, error }) = &r {
                let k = choose|k: int| 0 <= k < self.step_cells@.len() && self.step_cells@[k] == *cell;
                assert(reachable(canvas.rels_spec(), start, self.step_cells@[k]));
                assert(reachable_failure(*canvas, old(self).mode_spec(), start));
            }
        }
        r
    }

    /// Resume a paused execution.
    pub fn continue_execution<E: CodeEvaluator>(&mut self, canvas: &Canvas, code: &mut E) -> (r: Result<ExecutionReport, ExecutionError>)
        requires
            canvas.wf(),
            old(self).wf(),
        ensures
            final(self).wf(),
            final(self).mode_spec() == old(self).mode_spec(),
            !(old(self).status_spec() is Paused) ==> r == Err::<ExecutionReport, ExecutionError>(ExecutionError::NotPaused)
                && *final(self) == *old(self),
            old(self).status_spec() is Paused && r is Err ==> final(self).status_spec() is Error,
            old(self).status_spec() is Paused ==> (r matches Err(e) ==> e is Conflict || e is Evaluation || e is StepLimit
                || e is CellNotFound),
            (forall|k: int| 0 <= k < old(self).queue_spec().len() ==> canvas.has_cell(#[trigger] old(self).queue_spec()[k]))
                ==> !(r matches Err(ExecutionError::CellNotFound(_))),
            r matches Err(ExecutionError::Evaluation { cell, error }) ==> evaluation_failed(*canvas, old(self).mode_spec(), final(self).step_cells_spec(), cell),
            r matches Err(ExecutionError::Conflict { target, step }) ==> step == final(self).step_spec()
                && exists|a: int, b: int|
                0 <= a < b < final(self).step_cells_spec().len() && has_edge(canvas.rels_spec(), #[trigger] final(self).step_cells_spec()[a], target)
                    && has_edge(canvas.rels_spec(), #[trigger] final(self).step_cells_spec()[b], target),
            r matches Err(ExecutionError::StepLimit) ==> final(self).step_spec() == usize::MAX,
            r is Err && !(r matches Err(ExecutionError::StepLimit)) && !(r matches Err(ExecutionError::NoStartPoint))
                && !(r matches Err(ExecutionError::NotPaused)) ==> forall|k: int|
                0 <= k < final(self).log_spec().len() ==> (#[trigger] final(self).log_spec()[k]).step < final(self).step_spec(),
            final(self).log_spec().take(old(self).log_spec().len() as int) == old(self).log_spec(),
            conflict_free(old(self).log_spec(), canvas.rels_spec()) && r is Ok ==> conflict_free(final(self).log_spec(), canvas.rels_spec()),
            scheduled(old(self).log_spec(), old(self).queue_spec(), old(self).step_spec() as int, *canvas) && r is Ok
                ==> scheduled(final(self).log_spec(), final(self).queue_spec(), final(self).step_spec() as int, *canvas),
            r matches Err(ExecutionError::StepLimit) ==> forall|s: int| old(self).step_spec() < s <= usize::MAX ==> #[trigger] step_ran(final(self).log_spec(), s),
            old(self).mode_spec() is Step && (r matches Err(ExecutionError::StepLimit)) ==> old(self).step_spec() == usize::MAX,
            r matches Ok(rep) ==> {
                &&& rep.status == final(self).status_spec()
                &&& rep.step == final(self).step_spec()
                &&& forall|s: int| old(self).step_spec() < s < rep.step ==> #[trigger] step_ran(final(self).log_spec(), s)
                &&& !(rep.status is Paused) ==> final(self).queue_spec().len() == 0
                &&& old(self).mode_spec() is Step && old(self).queue_spec().len() > 0 ==> rep.status is Paused
                    && rep.step == old(self).step_spec() + 1
                &&& rep.total_cells_executed == rep.log@.len()
                &&& forall|k: int| 0 <= k < rep.log@.len() ==> (#[trigger] rep.log@[k]).dry_run == (old(self).mode_spec() is DryRun)
                &&& forall|k: int| 0 <= k < rep.log@.len() ==> same_entry(#[trigger] rep.log@[k], final(self).log_spec()[k])
                &&& match old(self).mode_spec() {
                    ExecutionMode::Step => rep.status is Paused || rep.status is Complete,
                    ExecutionMode::Run => rep.status is Complete,
                    ExecutionMode::DryRun => rep.status is DryRunComplete,
                }
            },
    {
        match self.status {
            ExecutionStatus::Paused => {},
            _ => {
                proof {
                    assert(self.log@.take(self.log@.len() as int) =~= self.log@);
                }
                return Err(ExecutionError::NotPaused);
            },
        }
        self.status = ExecutionStatus::Running;
        let r = self.run_steps(canvas, code, Ghost(0));
        proof {
            if let Ok(rep) = &r {
                assert forall|k: int| 0 <= k < rep.log@.len() implies (#[trigger] rep.log@[k]).dry_run == (old(self).mode_spec() is DryRun) by {
                    assert(same_entry(rep.log@[k], self.log@[k]));
                }
            }
            if let Err(ExecutionError::Conflict { target, step }) = &r {
                let (a, b) = choose|a: int, b: int|
                    0 <= a < b < self.step_cells@.len() && has_edge(canvas.rels_spec(), #[trigger] self.step_cells@[a], *target)
                        && has_edge(canvas.rels_spec(), #[trigger] self.step_cells@[b], *target);
                assert(has_edge(canvas.rels_spec(), self.step_cells_spec()[a], *target));
                assert(has_edge(canvas.rels_spec(), self.step_cells_spec()[b], *target));
            }
        }
        r
    }

    /// Re-evaluate every formula cell whose text references the changed
    /// cell (one hop), in store order, each on the canvas as the ones before
    /// left it. Each result is cached in its cell; where a formula names a
    /// result target, the target caches it too, and a number target shows
    /// it formatted by its type (Int truncates, Float and Currency use its
    /// decimal places). A failure affects only its own entry.
    pub fn recalculate_dependents(&mut self, changed_cell_id: CellId, canvas: &mut Canvas) -> (r: Vec<(CellId, Result<u64, CellError>)>)
        requires
            old(canvas).wf(),
        ensures
            final(canvas).wf(),
            !old(canvas).has_cell(changed_cell_id) ==> r@.len() == 0,
            old(canvas).has_cell(changed_cell_id) ==> r@.len() == cell_ids(old(canvas).cells_spec().filter(
                crate::math_eval::depends_on(old(canvas).cell_spec(changed_cell_id).short_id@),
            )).len(),
            old(canvas).has_cell(changed_cell_id) ==> forall|k: int| 0 <= k < r@.len() ==> (#[trigger] r@[k]).0 == cell_ids(old(canvas).cells_spec().filter(
                crate::math_eval::depends_on(old(canvas).cell_spec(changed_cell_id).short_id@),
            ))[k],
            exists|hist: Seq<Canvas>|
                hist.len() == r@.len() + 1 && hist[0] == *old(canvas) && hist.last() == *final(canvas)
                    && forall|k: int| 0 <= k < r@.len() ==> #[trigger] recalc_step(hist[k], hist[k + 1], r@[k].0, r@[k].1),
    {
        let dependents = crate::math_eval::get_dependent_math_cells(changed_cell_id, canvas);
        let ghost orig = canvas.cells_spec();
        let ghost hist: Seq<Canvas> = seq![*canvas];
        let mut results: Vec<(CellId, Result<u64, CellError>)> = Vec::new();
        let mut i: usize = 0;
        while i < dependents.len()
            invariant
                canvas.wf(),
                canvas.cells_spec().len() == orig.len(),
                orig == old(canvas).cells_spec(),
                forall|k: int| 0 <= k < orig.len() ==> (#[trigger] canvas.cells_spec()[k]).id == orig[k].id,
                i <= dependents@.len(),
                old(canvas).wf(),
                old(canvas).has_cell(changed_cell_id) ==> dependents@ == cell_ids(old(canvas).cells_spec().filter(
                    crate::math_eval::depends_on(old(canvas).cell_spec(changed_cell_id).short_id@),
                )),
                !old(canvas).has_cell(changed_cell_id) ==> dependents@.len() == 0,
                results@.len() == i,
                forall|k: int| 0 <= k < i ==> (#[trigger] results@[k]).0 == dependents@[k],
                hist.len() == i + 1,
                hist[0] == *old(canvas),
                hist.last() == *canvas,
                forall|k: int| 0 <= k < i ==> #[trigger] recalc_step(hist[k], hist[k + 1], results@[k].0, results@[k].1),
            decreases dependents@.len() - i,
        {
            let cell_id = dependents[i];
            proof {
                let f = old(canvas).cells_spec().filter(crate::math_eval::depends_on(old(canvas).cell_spec(changed_cell_id).short_id@));
                assert(f.contains(f[i as int]));
                old(canvas).cells_spec().lemma_filter_contains_rev(crate::math_eval::depends_on(old(canvas).cell_spec(changed_cell_id).short_id@), f[i as int]);
                let k = choose|k: int| 0 <= k < orig.len() && orig[k] == f[i as int];
                assert(canvas.cells_spec()[k].id == cell_id);
            }
            let ghost before = *canvas;
            let result = self.recalculate_cell(canvas, cell_id);
            proof {
                assert forall|k: int| 0 <= k < orig.len() implies (#[trigger] canvas.cells_spec()[k]).id == orig[k].id by {
                    assert(canvas.cells_spec()[k].id == before.cells_spec()[k].id);
                }
            }
            let ghost hist_before = hist;
            results.push((cell_id, result));
            proof {
                hist = hist.push(*canvas);
                assert forall|k: int| 0 <= k < i + 1 implies #[trigger] recalc_step(hist[k], hist[k + 1], results@[k].0, results@[k].1) by {
                    if k < i {
                        assert(hist[k] == hist_before[k] && hist[k + 1] == hist_before[k + 1]);
                    } else {
                        assert(hist[k] == before);
                    }
                }
            }
            i += 1;
        }
        results
    }

    /// Re-evaluate one formula cell, cache its result and show it in its
    /// result target.
    fn recalculate_cell(&mut self, canvas: &mut Canvas, cell_id: CellId) -> (r: Result<u64, CellError>)
        requires
            old(canvas).wf(),
            old(canvas).has_cell(cell_id),
        ensures
            recalc_step(*old(canvas), *final(canvas), cell_id, r),
    {
        let cell = canvas.get_cell(cell_id).unwrap();
        let target = cell.result_target_cell;
        let ghost c0 = *canvas;
        let ghost i0 = canvas.index_spec(cell_id);
        match execute_math_cell(canvas, cell) {
            Ok(CellData::Number(value)) => {
                let _ = canvas.set_computed_result(cell_id, Some(value));
                let ghost c1 = *canvas;
                proof {
                    assert forall|k: int| 0 <= k < c0.cells_spec().len() implies (#[trigger] c1.cells_spec()[k]).id == c0.cells_spec()[k].id by {}
                }
                if let Some(target_id) = target {
                    self.show_in_target(canvas, target_id, value);
                    proof {
                        assert(target_shown(c1, *canvas, target_id, value));
                    }
                }
                proof {
                    assert(c1.cells_spec() == c0.cells_spec().update(i0, Cell { computed_result: Some(value), ..c0.cell_spec(cell_id) }));
                }
                self.cell_outputs.push((cell_id, CellData::Number(value)));
                Ok(value)
            },
            Ok(_) => Err(CellError::Formula(FormulaError::NonNumericResult)),
            Err(e) => Err(e),
        }
    }

    /// Cache `value` in the target cell and, for a number cell, show it
    /// formatted by the cell's type.
    fn show_in_target(&mut self, canvas: &mut Canvas, target_id: CellId, value: u64)
        requires
            old(canvas).wf(),
        ensures
            final(canvas).wf(),
            final(canvas).rels_spec() == old(canvas).rels_spec(),
            target_shown(*old(canvas), *final(canvas), target_id, value),
    {
        let (kind, places) = match canvas.get_cell(target_id) {
            None => {
                return;
            },
            Some(t) => (t.cell_type, t.decimal_precision),
        };
        let ghost c0 = *canvas;
        let ghost j = c0.index_spec(target_id);
        let _ = canvas.set_computed_result(target_id, Some(value));
        let text = match display_text(value, kind, places) {
            Some(t) => t,
            None => {
                return;
            },
        };
        let ghost c1 = *canvas;
        proof {
            c1.lemma_found_pub(j);
        }
        let _ = canvas.update_cell_content(target_id, CellContent::Inline(text));
    }
}

} // verus!
