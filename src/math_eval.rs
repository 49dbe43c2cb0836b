use crate::canvas::{lookup_short, Canvas};
use crate::cell::{inline_text, Cell, CellContent, CellId, CellType};
use crate::markdown_links::{
    trim_end, trim_start, white_space, first_close, link_spans, link_spans_from, link_starts_at, parse_cell_links, trimmed,
};
use crate::flags::{count_free, lemma_mark};
use crate::text::{chars_of, string_from_chars};
use evalexpr::{ContextWithMutableVariables, FloatType, HashMapContext};
use vstd::prelude::*;

verus! {

#[verifier::external_type_specification]
#[verifier::external_body]
pub struct ExHashMapContext(evalexpr::HashMapContext);

/// The variables of an evaluation context: a float's IEEE-754 bits, or
/// `None` for a variable of another type.
pub uninterp spec fn context_vars(c: HashMapContext) -> Map<Seq<char>, Option<u64>>;

/// What the standard 64-bit float parser makes of a text (IEEE-754 bits), if it accepts it.
pub uninterp spec fn parsed_number(s: Seq<char>) -> Option<u64>;

/// What evaluating an expression gives under the given variables. Its kind
/// (number, not a number, failure) is always what evaluation gives; its
/// bits are only where the text has no `^` (whose power function may round
/// differently from one platform or call to another) and the number is not
/// a NaN (whose sign and payload are unspecified).
pub uninterp spec fn expression_outcome(expr: Seq<char>, vars: Map<Seq<char>, Option<u64>>) -> EvalOutcome;

/// Do the bits encode a NaN?
pub open spec fn is_nan_bits(v: u64) -> bool {
    (v >> 52u64) & 0x7ffu64 == 0x7ffu64 && v & 0xf_ffff_ffff_ffffu64 != 0
}

/// The outcomes are of the same kind.
pub open spec fn same_kind(a: EvalOutcome, b: EvalOutcome) -> bool {
    (a is Number && b is Number) || (a is NotANumber && b is NotANumber) || (a is Failed && b is Failed)
}

/// The outcome's bits are fixed: the text has no `^` and the value is no NaN.
pub open spec fn exact_outcome(expr: Seq<char>, o: EvalOutcome) -> bool {
    o matches EvalOutcome::Number(v) ==> !expr.contains('^') && !is_nan_bits(v)
}

/// The result of evaluating an arithmetic expression.
#[derive(Debug, Clone, Copy, PartialEq, Eq, Structural)]
pub enum EvalOutcome {
    /// A number (IEEE-754 bits of a 64-bit float).
    Number(u64),
    /// A value that is not a number (a boolean, a string, a tuple, nothing).
    NotANumber,
    /// The expression could not be parsed or evaluated.
    Failed,
}

/// Relies on HashMapContext::new: a context without variables.
#[verifier::external_body]
fn new_context() -> (r: HashMapContext)
    ensures
        context_vars(r).dom().len() == 0,
        context_vars(r).dom().finite(),
{
    HashMapContext::new()
}

/// Relies on HashMapContext::set_value: a float variable is added, or
/// replaces a float variable of that name; a variable of another type
/// refuses it.
#[verifier::external_body]
fn set_float(ctx: &mut HashMapContext, name: String, bits: u64) -> (r: bool)
    ensures
        r <==> !(context_vars(*old(ctx)).contains_key(name@) && context_vars(*old(ctx))[name@] is None),
        r ==> context_vars(*final(ctx)) == context_vars(*old(ctx)).insert(name@, Some(bits)),
        !r ==> context_vars(*final(ctx)) == context_vars(*old(ctx)),
{
    ctx.set_value(name, evalexpr::Value::Float(FloatType::from_bits(bits))).is_ok()
}

/// Relies on evalexpr::eval_with_context: evaluates the expression; a float
/// or integer result is a number, another value is not. Over a context of
/// float variables only, the kind of outcome depends on the text and those
/// values, and so do the bits of a number that comes without `^` and is no
/// NaN: the other operators are exact IEEE-754 or checked integer arithmetic.
/// Plain arithmetic reaches none of evalexpr's builtin functions (whose
/// string slicing and integer shifts can panic): its words are numbers and
/// variables, and its integer operators are checked.
#[verifier::external_body]
fn eval_in_context(expr: &str, ctx: &HashMapContext) -> (r: EvalOutcome)
    requires
        plain_arithmetic(expr@),
        forall|k: Seq<char>| #[trigger] context_vars(*ctx).contains_key(k) ==> context_vars(*ctx)[k] is Some,
    ensures
        same_kind(r, expression_outcome(expr@, context_vars(*ctx))),
        r is Number && exact_outcome(expr@, r) ==> r == expression_outcome(expr@, context_vars(*ctx)),
{
    match evalexpr::eval_with_context(expr, ctx) {
        Ok(evalexpr::Value::Float(f)) => EvalOutcome::Number(f.to_bits()),
        Ok(evalexpr::Value::Int(i)) => EvalOutcome::Number((i as FloatType).to_bits()),
        Ok(_) => EvalOutcome::NotANumber,
        Err(_) => EvalOutcome::Failed,
    }
}

/// A text parsed as a number (IEEE-754 bits), if it spells one.
pub fn parse_number_text(s: &str) -> (r: Option<u64>)
    ensures
        r == parsed_number(s@),
{
    parse_float(s)
}

/// Relies on `str::parse` for evalexpr's float type: the number a
/// text spells, if any.
#[verifier::external_body]
fn parse_float(s: &str) -> (r: Option<u64>)
    ensures
        r == parsed_number(s@),
{
    match s.parse::<FloatType>() {
        Ok(f) => Some(f.to_bits()),
        Err(_) => None,
    }
}

/// Why a formula could not be evaluated.
#[derive(Debug, Clone, PartialEq)]
pub enum FormulaError {
    /// No cell has this short id.
    CellNotFound(String),
    /// The referenced cell has no inline content.
    NoInlineContent(CellId),
    /// The referenced number cell's text is not a number.
    NotANumber(CellId),
    /// The referenced formula cell has no computed result yet.
    NotComputed(CellId),
    /// The referenced cell is neither a number nor a formula.
    NotNumericType(CellId),
    /// The evaluation context refused a variable.
    ContextRejected,
    /// The expression could not be parsed or evaluated.
    EvaluationFailed,
    /// The expression's value is not a number.
    NonNumericResult,
    /// The formula cell takes part in a reference cycle (the path of short ids).
    Cycle(Vec<String>),
}

/// A formula error as a value of the model.
pub enum FormulaFault {
    CellNotFound(Seq<char>),
    NoInlineContent(CellId),
    NotANumber(CellId),
    NotComputed(CellId),
    NotNumericType(CellId),
    ContextRejected,
    EvaluationFailed,
    NonNumericResult,
    Cycle(Seq<String>),
}

impl View for FormulaError {
    type V = FormulaFault;

    open spec fn view(&self) -> FormulaFault {
        match self {
            FormulaError::CellNotFound(s) => FormulaFault::CellNotFound(s@),
            FormulaError::NoInlineContent(id) => FormulaFault::NoInlineContent(*id),
            FormulaError::NotANumber(id) => FormulaFault::NotANumber(*id),
            FormulaError::NotComputed(id) => FormulaFault::NotComputed(*id),
            FormulaError::NotNumericType(id) => FormulaFault::NotNumericType(*id),
            FormulaError::ContextRejected => FormulaFault::ContextRejected,
            FormulaError::EvaluationFailed => FormulaFault::EvaluationFailed,
            FormulaError::NonNumericResult => FormulaFault::NonNumericResult,
            FormulaError::Cycle(p) => FormulaFault::Cycle(p@),
        }
    }
}

pub open spec fn result_view(r: Result<u64, FormulaError>) -> Result<u64, FormulaFault> {
    match r {
        Ok(v) => Ok(v),
        Err(e) => Err(e@),
    }
}

/// The short ids referenced by a formula, in order, duplicates kept.
pub open spec fn references_spec(text: Seq<char>) -> Seq<Seq<char>> {
    link_spans(text).map_values(|sp: (int, int)| trimmed(text.subrange(sp.0 + 2, sp.1 - 2)))
}

/// The variable standing for a referenced short id.
pub open spec fn var_name(r: Seq<char>) -> Seq<char> {
    seq!['c', 'e', 'l', 'l', '_'] + r
}

/// The numeric value of a referenced cell: its cached result, else the
/// number its text spells if it is a number cell.
pub open spec fn value_spec(cell: Cell) -> Result<u64, FormulaFault> {
    match cell.computed_result {
        Some(v) => Ok(v),
        None => if cell.cell_type.is_number() {
            match inline_text(cell.content) {
                Some(t) => match parsed_number(trimmed(t)) {
                    Some(v) => Ok(v),
                    None => Err(FormulaFault::NotANumber(cell.id)),
                },
                None => Err(FormulaFault::NoInlineContent(cell.id)),
            }
        } else if cell.cell_type is Math {
            Err(FormulaFault::NotComputed(cell.id))
        } else {
            Err(FormulaFault::NotNumericType(cell.id))
        },
    }
}

/// The value a reference resolves to.
pub open spec fn ref_value(c: Canvas, r: Seq<char>) -> Result<u64, FormulaFault> {
    match lookup_short(c.cells_spec(), r) {
        None => Err(FormulaFault::CellNotFound(r)),
        Some(id) => value_spec(c.cell_spec(id)),
    }
}

/// The variables for the references, resolved in order; the first failure
/// wins.
pub open spec fn context_spec(c: Canvas, refs: Seq<Seq<char>>) -> Result<Map<Seq<char>, Option<u64>>, FormulaFault>
    decreases refs.len(),
{
    if refs.len() == 0 {
        Ok(Map::empty())
    } else {
        match context_spec(c, refs.drop_last()) {
            Err(e) => Err(e),
            Ok(m) => match ref_value(c, refs.last()) {
                Err(e) => Err(e),
                Ok(v) => Ok(m.insert(var_name(refs.last()), Some(v))),
            },
        }
    }
}

/// `s` with every link from `spans` replaced by its variable, continuing
/// from position `last`.
pub open spec fn rewritten(s: Seq<char>, spans: Seq<(int, int)>, last: int) -> Seq<char>
    decreases spans.len(),
{
    if spans.len() == 0 {
        s.subrange(last, s.len() as int)
    } else {
        s.subrange(last, spans[0].0) + var_name(trimmed(s.subrange(spans[0].0 + 2, spans[0].1 - 2)))
            + rewritten(s, spans.drop_first(), spans[0].1)
    }
}

/// The formula as the evaluator reads it.
pub open spec fn prepared_spec(text: Seq<char>) -> Seq<char> {
    rewritten(text, link_spans(text), 0)
}

/// Why a formula over the canvas has no value, or `None` when it has one.
pub open spec fn formula_fault(c: Canvas, text: Seq<char>) -> Option<FormulaFault> {
    match context_spec(c, references_spec(text)) {
        Err(e) => Some(e),
        Ok(m) => if !plain_arithmetic(prepared_spec(text)) {
            Some(FormulaFault::EvaluationFailed)
        } else {
            match expression_outcome(prepared_spec(text), m) {
                EvalOutcome::Number(_) => None,
                EvalOutcome::NotANumber => Some(FormulaFault::NonNumericResult),
                EvalOutcome::Failed => Some(FormulaFault::EvaluationFailed),
            }
        },
    }
}

/// `v` is a value the formula may have: exactly the named outcome where
/// its bits are fixed (no `^` in the formula, no NaN).
pub open spec fn formula_value_fits(c: Canvas, text: Seq<char>, v: u64) -> bool {
    match context_spec(c, references_spec(text)) {
        Err(_) => false,
        Ok(m) => exact_outcome(prepared_spec(text), EvalOutcome::Number(v)) ==> expression_outcome(
            prepared_spec(text),
            m,
        ) == EvalOutcome::Number(v),
    }
}

/// Evaluating a formula never reports a cycle: that is the walk's business.
pub proof fn lemma_value_not_cycle(c: Canvas, text: Seq<char>)
    ensures
        !(formula_fault(c, text) matches Some(FormulaFault::Cycle(_))),
{
    lemma_context_not_cycle(c, references_spec(text));
}

proof fn lemma_context_not_cycle(c: Canvas, refs: Seq<Seq<char>>)
    ensures
        !(context_spec(c, refs) matches Err(FormulaFault::Cycle(_))),
    decreases refs.len(),
{
    if refs.len() > 0 {
        lemma_context_not_cycle(c, refs.drop_last());
    }
}

/// Operators, parentheses and whitespace of a formula.
pub open spec fn operator_char(c: char) -> bool {
    c == '+' || c == '-' || c == '*' || c == '/' || c == '%' || c == '^' || c == '(' || c == ')' || c == ' '
        || c == '\t' || c == '\n' || c == '\r'
}

/// Characters of numbers and variable names.
pub open spec fn word_char(c: char) -> bool {
    ('0' <= c && c <= '9') || ('a' <= c && c <= 'z') || ('A' <= c && c <= 'Z') || c == '_' || c == '.'
}

/// A word of the expression starts at `i`.
pub open spec fn word_starts(s: Seq<char>, i: int) -> bool {
    word_char(s[i]) && (i == 0 || !word_char(s[i - 1]))
}

/// A word may start at `i`: a number, or a variable `cell_...`.
pub open spec fn word_start_ok(s: Seq<char>, i: int) -> bool {
    ('0' <= s[i] && s[i] <= '9') || s[i] == '.' || crate::text::occurs_at(s, seq!['c', 'e', 'l', 'l', '_'], i)
}

/// Arithmetic over numbers and `cell_...` variables only: operators
/// `+ - * / % ^`, parentheses and whitespace between words, each word a
/// number or a variable. No function name, string or comparison can occur.
pub open spec fn plain_arithmetic(s: Seq<char>) -> bool {
    &&& forall|i: int| 0 <= i < s.len() ==> operator_char(#[trigger] s[i]) || word_char(s[i])
    &&& forall|i: int| 0 <= i < s.len() && #[trigger] word_starts(s, i) ==> word_start_ok(s, i)
}

fn is_word_char(c: char) -> (r: bool)
    ensures
        r == word_char(c),
{
    ('0' <= c && c <= '9') || ('a' <= c && c <= 'z') || ('A' <= c && c <= 'Z') || c == '_' || c == '.'
}

/// Is the expression plain arithmetic over numbers and `cell_...` variables?
pub fn is_plain_arithmetic(expr: &str) -> (r: bool)
    ensures
        r == plain_arithmetic(expr@),
{
    let s = chars_of(expr);
    let var: Vec<char> = vec!['c', 'e', 'l', 'l', '_'];
    proof {
        assert(var@ =~= seq!['c', 'e', 'l', 'l', '_']);
    }
    let mut i: usize = 0;
    while i < s.len()
        invariant
            s@ == expr@,
            var@ == seq!['c', 'e', 'l', 'l', '_'],
            i <= s@.len(),
            forall|k: int| 0 <= k < i ==> operator_char(#[trigger] s@[k]) || word_char(s@[k]),
            forall|k: int| 0 <= k < i && #[trigger] word_starts(s@, k) ==> word_start_ok(s@, k),
        decreases s@.len() - i,
    {
        let c = s[i];
        let op = c == '+' || c == '-' || c == '*' || c == '/' || c == '%' || c == '^' || c == '(' || c == ')'
            || c == ' ' || c == '\t' || c == '\n' || c == '\r';
        let w = is_word_char(c);
        if !op && !w {
            return false;
        }
        if w && (i == 0 || !is_word_char(s[i - 1])) {
            let ok = ('0' <= c && c <= '9') || c == '.' || crate::text::matches_at(&s, &var, i);
            if !ok {
                proof {
                    assert(word_starts(s@, i as int));
                }
                return false;
            }
        }
        proof {
            assert(word_starts(s@, i as int) ==> word_start_ok(s@, i as int));
        }
        i += 1;
    }
    true
}

/// Spans of links lie in order inside the text, each at least five long.
pub proof fn lemma_spans_ordered(s: Seq<char>, p: int)
    requires
        0 <= p,
    ensures
        forall|i: int|
            0 <= i < link_spans_from(s, p).len() ==> p <= #[trigger] link_spans_from(s, p)[i].0
                && link_spans_from(s, p)[i].0 + 5 <= link_spans_from(s, p)[i].1 <= s.len(),
        forall|i: int|
            0 <= i < link_spans_from(s, p).len() - 1 ==> #[trigger] link_spans_from(s, p)[i].1
                <= link_spans_from(s, p)[i + 1].0,
    decreases s.len() - p,
{
    if p < s.len() {
        if link_starts_at(s, p) {
            let e = first_close(s, p + 2) + 2;
            crate::markdown_links::lemma_first_close_bounds(s, p + 2);
            lemma_spans_ordered(s, e);
            let rest = link_spans_from(s, e);
            let all = link_spans_from(s, p);
            assert(all == seq![(p, e)] + rest);
            assert(all[0] == (p, e));
            assert(p + 5 <= e <= s.len());
            assert forall|i: int| 0 <= i < all.len() implies p <= #[trigger] all[i].0 && all[i].0 + 5 <= all[i].1 <= s.len() by {
                if i > 0 {
                    assert(all[i] == rest[i - 1]);
                }
            }
            assert forall|i: int| 0 <= i < all.len() - 1 implies #[trigger] all[i].1 <= all[i + 1].0 by {
                if i > 0 {
                    assert(all[i] == rest[i - 1] && all[i + 1] == rest[i]);
                } else if rest.len() > 0 {
                    assert(all[1] == rest[0]);
                }
            }
        } else {
            lemma_spans_ordered(s, p + 1);
            assert(link_spans_from(s, p) == link_spans_from(s, p + 1));
        }
    } else {
        assert(link_spans_from(s, p).len() == 0);
    }
}

/// The short ids referenced by `formula`, in order, duplicates kept.
pub fn parse_formula_references(formula: &str) -> (r: Vec<String>)
    ensures
        r@.len() == references_spec(formula@).len(),
        forall|i: int| 0 <= i < r@.len() ==> (#[trigger] r@[i])@ == references_spec(formula@)[i],
{
    let links = parse_cell_links(formula);
    let mut out: Vec<String> = Vec::new();
    let mut i: usize = 0;
    while i < links.len()
        invariant
            links@.len() == link_spans(formula@).len(),
            forall|k: int| 0 <= k < links@.len() ==> crate::markdown_links::link_matches(#[trigger] links@[k], formula@, link_spans(formula@)[k]),
            i <= links@.len(),
            out@.len() == i,
            forall|k: int| 0 <= k < i ==> (#[trigger] out@[k])@ == references_spec(formula@)[k],
        decreases links@.len() - i,
    {
        out.push(links[i].target_id.clone());
        i += 1;
    }
    out
}

/// The numeric value of a referenced cell.
pub fn resolve_cell_value(cell: &Cell, _canvas: &Canvas) -> (r: Result<u64, FormulaError>)
    ensures
        result_view(r) == value_spec(*cell),
{
    if let Some(v) = cell.computed_result {
        return Ok(v);
    }
    match cell.cell_type {
        CellType::NumberInt | CellType::NumberFloat | CellType::NumberCurrency => {
            match cell.content.as_str() {
                Some(text) => {
                    let t = crate::markdown_links::trim_text(text);
                    match parse_float(t.as_str()) {
                        Some(v) => Ok(v),
                        None => Err(FormulaError::NotANumber(cell.id)),
                    }
                },
                None => Err(FormulaError::NoInlineContent(cell.id)),
            }
        },
        CellType::Math => Err(FormulaError::NotComputed(cell.id)),
        _ => Err(FormulaError::NotNumericType(cell.id)),
    }
}

/// The variable name for a referenced short id.
fn variable_for(reference: &str) -> (r: String)
    ensures
        r@ == var_name(reference@),
{
    let mut cs: Vec<char> = Vec::new();
    cs.push('c');
    cs.push('e');
    cs.push('l');
    cs.push('l');
    cs.push('_');
    let mut rest = chars_of(reference);
    cs.append(&mut rest);
    proof {
        assert(cs@ =~= var_name(reference@));
    }
    string_from_chars(&cs)
}

/// An evaluation context holding, for each reference of the formula, its
/// cell's value.
pub fn build_eval_context(formula: &str, canvas: &Canvas) -> (r: Result<HashMapContext, FormulaError>)
    requires
        canvas.wf(),
    ensures
        match context_spec(*canvas, references_spec(formula@)) {
            Err(e) => r matches Err(x) && x@ == e,
            Ok(m) => r matches Ok(ctx) && context_vars(ctx) == m,
        },
        r matches Ok(ctx) ==> forall|k: Seq<char>| #[trigger] context_vars(ctx).contains_key(k) ==> context_vars(ctx)[k] is Some,
{
    let references = parse_formula_references(formula);
    let ghost refs = references_spec(formula@);
    proof {
        assert(references@.len() == refs.len());
    }
    let mut context = new_context();
    proof {
        context_vars(context).dom().lemma_len0_is_empty();
        assert(context_vars(context) =~= Map::<Seq<char>, Option<u64>>::empty());
        assert(refs.take(0).len() == 0);
    }
    let mut i: usize = 0;
    while i < references.len()
        invariant
            canvas.wf(),
            refs == references_spec(formula@),
            references@.len() == refs.len(),
            forall|k: int| 0 <= k < references@.len() ==> (#[trigger] references@[k])@ == refs[k],
            i <= references@.len(),
            context_spec(*canvas, refs.take(i as int)) == Ok::<Map<Seq<char>, Option<u64>>, FormulaFault>(context_vars(context)),
            forall|k: Seq<char>| context_vars(context).contains_key(k) ==> (#[trigger] context_vars(context)[k]) is Some,
        decreases references@.len() - i,
    {
        let ref_id = references[i].as_str();
        proof {
            assert(refs.take(i + 1).drop_last() =~= refs.take(i as int));
            assert(refs.take(i + 1).last() == refs[i as int]);
        }
        let cell_id = match canvas.get_cell_id_by_short_id(ref_id) {
            Some(id) => id,
            None => {
                proof {
                    lemma_context_error_persists(*canvas, refs, i as int + 1);
                }
                return Err(FormulaError::CellNotFound(references[i].clone()));
            },
        };
        proof {
            let k = choose|k: int| crate::canvas::first_short_at(canvas.cells_spec(), ref_id@, k);
            assert(canvas.has_cell(cell_id)) by {
                assert(canvas.cells_spec()[k].id == cell_id);
            }
        }
        let cell = canvas.get_cell(cell_id).unwrap();
        let value = match resolve_cell_value(cell, canvas) {
            Ok(v) => v,
            Err(e) => {
                proof {
                    lemma_context_error_persists(*canvas, refs, i as int + 1);
                }
                return Err(e);
            },
        };
        let name = variable_for(ref_id);
        let ok = set_float(&mut context, name, value);
        if !ok {
            return Err(FormulaError::ContextRejected);
        }
        i += 1;
    }
    proof {
        assert(refs.take(i as int) =~= refs);
    }
    Ok(context)
}

/// Once resolving a prefix of the references fails, resolving more of them
/// fails the same way.
proof fn lemma_context_error_persists(c: Canvas, refs: Seq<Seq<char>>, i: int)
    requires
        0 <= i <= refs.len(),
        context_spec(c, refs.take(i)) is Err,
    ensures
        context_spec(c, refs) == context_spec(c, refs.take(i)),
    decreases refs.len() - i,
{
    if i < refs.len() {
        assert(refs.take(i + 1).drop_last() =~= refs.take(i));
        lemma_context_error_persists(c, refs, i + 1);
    } else {
        assert(refs.take(i) =~= refs);
    }
}

#[verifier::rlimit(50)]
/// Replace every `[[id]]` of the formula by the variable `cell_id`, so that
/// ids that look like numbers are never read as number literals.
pub fn prepare_formula(formula: &str) -> (r: String)
    ensures
        r@ == prepared_spec(formula@),
{
    let links = parse_cell_links(formula);
    let s = chars_of(formula);
    let ghost spans = link_spans(formula@);
    proof {
        lemma_spans_ordered(formula@, 0);
    }
    let mut out: Vec<char> = Vec::new();
    let mut last: usize = 0;
    let mut k: usize = 0;
    proof {
        assert(spans.skip(0) =~= spans);
        assert(out@ + rewritten(s@, spans, 0) =~= rewritten(s@, spans, 0));
    }
    while k < links.len()
        invariant
            s@ == formula@,
            spans == link_spans(formula@),
            links@.len() == spans.len(),
            forall|j: int| 0 <= j < links@.len() ==> crate::markdown_links::link_matches(#[trigger] links@[j], formula@, spans[j]),
            forall|j: int| 0 <= j < spans.len() ==> 0 <= #[trigger] spans[j].0 && spans[j].0 + 5 <= spans[j].1 <= s@.len(),
            forall|j: int| 0 <= j < spans.len() - 1 ==> #[trigger] spans[j].1 <= spans[j + 1].0,
            k <= links@.len(),
            k < links@.len() ==> last <= spans[k as int].0,
            last <= s@.len(),
            out@ + rewritten(s@, spans.skip(k as int), last as int) == rewritten(s@, spans, 0),
        decreases links@.len() - k,
    {
        let start = links[k].start;
        let end = links[k].end;
        let ghost before = out@;
        let mut j = last;
        while j < start
            invariant
                last <= j <= start <= s@.len(),
                out@ == before + s@.subrange(last as int, j as int),
            decreases start - j,
        {
            out.push(s[j]);
            j += 1;
            assert(out@ =~= before + s@.subrange(last as int, j as int));
        }
        let var = variable_for(links[k].target_id.as_str());
        let mut vc = chars_of(var.as_str());
        out.append(&mut vc);
        proof {
            let rest = spans.skip(k as int);
            assert(rest[0] == spans[k as int]);
            assert(rest.drop_first() =~= spans.skip(k + 1));
            assert(rewritten(s@, rest, last as int) == s@.subrange(last as int, start as int) + var_name(trimmed(s@.subrange(start + 2, end - 2))) + rewritten(s@, spans.skip(k + 1), end as int));
            assert(out@ =~= before + s@.subrange(last as int, start as int) + var_name(trimmed(s@.subrange(start + 2, end - 2))));
            if k + 1 < links@.len() {
                assert(spans[k as int].1 <= spans[k + 1].0);
            }
        }
        last = end;
        k += 1;
    }
    let ghost before = out@;
    let mut j = last;
    while j < s.len()
        invariant
            last <= j <= s@.len(),
            out@ == before + s@.subrange(last as int, j as int),
        decreases s@.len() - j,
    {
        out.push(s[j]);
        j += 1;
        assert(out@ =~= before + s@.subrange(last as int, j as int));
    }
    proof {
        assert(spans.skip(k as int).len() == 0);
        assert(out@ =~= rewritten(s@, spans, 0));
    }
    string_from_chars(&out)
}

/// Evaluate a formula over the canvas: resolve its references, rewrite them
/// as variables and evaluate the arithmetic.
pub fn evaluate_expression(formula: &str, canvas: &Canvas) -> (r: Result<u64, FormulaError>)
    requires
        canvas.wf(),
    ensures
        match formula_fault(*canvas, formula@) {
            Some(e) => r matches Err(x) && x@ == e,
            None => r matches Ok(v) && formula_value_fits(*canvas, formula@, v),
        },
{
    let context = match build_eval_context(formula, canvas) {
        Ok(c) => c,
        Err(e) => {
            return Err(e);
        },
    };
    let prepared = prepare_formula(formula);
    if !is_plain_arithmetic(prepared.as_str()) {
        return Err(FormulaError::EvaluationFailed);
    }
    match eval_in_context(prepared.as_str(), &context) {
        EvalOutcome::Number(v) => Ok(v),
        EvalOutcome::NotANumber => Err(FormulaError::NonNumericResult),
        EvalOutcome::Failed => Err(FormulaError::EvaluationFailed),
    }
}

/// The references of a formula cell's inline text (none for external content).
pub open spec fn formula_refs(cell: Cell) -> Seq<Seq<char>> {
    match inline_text(cell.content) {
        Some(t) => references_spec(t),
        None => Seq::empty(),
    }
}

/// Some reference of `cell` resolves to `target`.
pub open spec fn refers_to(c: Canvas, cell: Cell, target: CellId) -> bool {
    exists|j: int| 0 <= j < formula_refs(cell).len() && lookup_short(c.cells_spec(), #[trigger] formula_refs(cell)[j]) == Some(target)
}

/// `a` is a formula cell one of whose references resolves to `b`.
pub open spec fn ref_edge(c: Canvas, a: CellId, b: CellId) -> bool {
    c.has_cell(a) && c.cell_spec(a).cell_type is Math && refers_to(c, c.cell_spec(a), b)
}

/// `id` is a cell whose position is marked.
pub open spec fn marked(c: Canvas, flags: Seq<bool>, id: CellId) -> bool {
    c.has_cell(id) && flags[c.index_spec(id)]
}

/// `p` follows reference edges and ends at a marked cell or at a cell it
/// already passed: a reference cycle.
pub open spec fn bad_walk(c: Canvas, p: Seq<CellId>, flags: Seq<bool>) -> bool {
    &&& p.len() >= 1
    &&& forall|k: int| 0 <= k < p.len() - 1 ==> #[trigger] ref_edge(c, p[k], p[k + 1])
    &&& (marked(c, flags, p.last()) || exists|k: int| 0 <= k < p.len() - 1 && p[k] == p.last())
}

/// Some walk along references from `start` comes back to a cell it passed.
pub open spec fn cycle_reachable(c: Canvas, start: CellId) -> bool {
    exists|p: Seq<CellId>|
        p.len() >= 2 && p[0] == start && (forall|k: int| 0 <= k < p.len() - 1 ==> #[trigger] ref_edge(c, p[k], p[k + 1]))
            && #[trigger] p.subrange(0, p.len() - 1).contains(p.last())
}

/// No reference walk from `start` closes a cycle or reaches a marked cell.
pub open spec fn no_bad_walk_from(c: Canvas, start: CellId, flags: Seq<bool>) -> bool {
    forall|p: Seq<CellId>| #[trigger] bad_walk(c, p, flags) ==> p[0] != start
}

/// A walk that goes on from `start` to `next` and then closes a cycle (or
/// reaches a marked cell) continues, from `next`, a walk that does so with
/// `start` marked too.
proof fn lemma_bad_walk_tail(c: Canvas, p: Seq<CellId>, flags0: Seq<bool>, flags1: Seq<bool>)
    requires
        c.wf(),
        bad_walk(c, p, flags0),
        p.len() >= 2,
        flags0.len() == c.cells_spec().len(),
        flags1.len() == flags0.len(),
        c.has_cell(p[0]),
        forall|i: int| 0 <= i < flags0.len() && #[trigger] flags0[i] ==> flags1[i],
        flags1[c.index_spec(p[0])],
    ensures
        bad_walk(c, p.drop_first(), flags1),
{
    let q = p.drop_first();
    assert forall|k: int| 0 <= k < q.len() - 1 implies #[trigger] ref_edge(c, q[k], q[k + 1]) by {
        assert(q[k] == p[k + 1] && q[k + 1] == p[k + 2]);
        assert(ref_edge(c, p[k + 1], p[k + 2]));
    }
    assert(q.last() == p.last());
    if marked(c, flags0, p.last()) {
        assert(flags1[c.index_spec(p.last())]);
    } else {
        let k = choose|k: int| 0 <= k < p.len() - 1 && p[k] == p.last();
        if k == 0 {
            assert(marked(c, flags1, q.last()));
        } else {
            assert(q[k - 1] == q.last());
        }
    }
}

/// Every marked position's short id occurs in the path.
pub open spec fn marks_on_path(c: Canvas, flags: Seq<bool>, path: Seq<String>) -> bool {
    forall|i: int|
        0 <= i < flags.len() && #[trigger] flags[i] ==> exists|k: int|
            0 <= k < path.len() && (#[trigger] path[k])@ == c.cells_spec()[i].short_id@
}

/// `p` reports the walk `ids` from `root` along reference edges, by the
/// cells' short ids, ending at a cell the walk already passed.
pub open spec fn reported_walk(c: Canvas, root: CellId, ids: Seq<CellId>, p: Seq<String>) -> bool {
    &&& ids.len() == p.len()
    &&& ids.len() >= 2
    &&& ids[0] == root
    &&& forall|k: int| 0 <= k < ids.len() - 1 ==> #[trigger] ref_edge(c, ids[k], ids[k + 1])
    &&& forall|k: int| 0 <= k < ids.len() ==> (#[trigger] p[k])@ == c.cell_spec(ids[k]).short_id@
    &&& exists|m: int| 0 <= m < ids.len() - 1 && ids[m] == ids.last()
}

/// The cycle report's last entry repeats an earlier one.
pub open spec fn closes_cycle(p: Seq<String>) -> bool {
    p.len() >= 2 && exists|k: int| 0 <= k < p.len() - 1 && (#[trigger] p[k])@ == p.last()@
}

fn visit(
    current_id: CellId,
    canvas: &Canvas,
    on_path: &mut Vec<bool>,
    path: &mut Vec<String>,
    root: Ghost<CellId>,
    stack: Ghost<Seq<CellId>>,
) -> (r: Result<(), Vec<String>>)
    requires
        canvas.wf(),
        old(on_path)@.len() == canvas.cells_spec().len(),
        marks_on_path(*canvas, old(on_path)@, old(path)@),
        old(path)@.len() == stack@.len(),
        forall|k: int| 0 <= k < stack@.len() ==> (#[trigger] old(path)@[k])@ == canvas.cell_spec(stack@[k]).short_id@,
        stack@.len() == 0 ==> current_id == root@,
        stack@.len() >= 1 ==> stack@[0] == root@ && ref_edge(*canvas, stack@.last(), current_id),
        forall|k: int| 0 <= k < stack@.len() - 1 ==> #[trigger] ref_edge(*canvas, stack@[k], stack@[k + 1]),
        forall|id: CellId| #[trigger] marked(*canvas, old(on_path)@, id) ==> stack@.contains(id),
    ensures
        r is Err ==> cycle_reachable(*canvas, root@),
        r is Ok ==> final(on_path)@ == old(on_path)@ && final(path)@ == old(path)@,
        r matches Err(p) ==> closes_cycle(p@),
        r is Err ==> exists|ids: Seq<CellId>| #[trigger] reported_walk(*canvas, root@, ids, r->Err_0@),
        canvas.has_cell(current_id) && old(on_path)@[canvas.index_spec(current_id)] ==> r is Err,
        ({
            let cell = canvas.cell_spec(current_id);
            canvas.has_cell(current_id) && cell.cell_type is Math && (refers_to(*canvas, cell, current_id)
                || exists|x: CellId| canvas.has_cell(x) && old(on_path)@[canvas.index_spec(x)] && refers_to(*canvas, cell, x))
        }) ==> r is Err,
        r is Ok ==> no_bad_walk_from(*canvas, current_id, old(on_path)@),
    decreases count_free(old(on_path)@),
{
    let idx = match canvas.position_of(current_id) {
        Some(i) => i,
        None => {
            proof {
                assert forall|p: Seq<CellId>| #[trigger] bad_walk(*canvas, p, on_path@) implies p[0] != current_id by {
                    if p.len() >= 2 {
                        assert(ref_edge(*canvas, p[0], p[1]));
                    } else {
                        assert(p.last() == p[0]);
                    }
                }
            }
            return Ok(());
        },
    };
    let cell = canvas.cell_at(idx);
    if on_path[idx] {
        path.push(cell.short_id.clone());
        proof {
            assert(marked(*canvas, old(on_path)@, current_id));
            let w = stack@.push(current_id);
            let k = choose|k: int| 0 <= k < stack@.len() && stack@[k] == current_id;
            assert(w.subrange(0, w.len() - 1)[k] == w.last());
            assert forall|m: int| 0 <= m < w.len() - 1 implies #[trigger] ref_edge(*canvas, w[m], w[m + 1]) by {
                if m < stack@.len() - 1 {
                    assert(w[m] == stack@[m] && w[m + 1] == stack@[m + 1]);
                } else {
                    assert(w[m] == stack@.last());
                }
            }
            assert(w[0] == root@);
            assert(w.subrange(0, w.len() - 1).contains(w.last()));
        }
        proof {
            let k = choose|k: int| 0 <= k < old(path)@.len() && (#[trigger] old(path)@[k])@ == canvas.cells_spec()[idx as int].short_id@;
            assert(path@[k] == old(path)@[k]);
            let w = stack@.push(current_id);
            assert forall|m: int| 0 <= m < w.len() implies (#[trigger] path@[m])@ == canvas.cell_spec(w[m]).short_id@ by {
                if m < stack@.len() {
                    assert(path@[m] == old(path)@[m]);
                }
            }
            let m0 = choose|m0: int| 0 <= m0 < stack@.len() && stack@[m0] == current_id;
            assert(w[m0] == w.last());
            assert(reported_walk(*canvas, root@, w, path@));
        }
        let out = path.clone();
        proof {
            let w = stack@.push(current_id);
            assert(out@ =~= path@);
            assert(reported_walk(*canvas, root@, w, out@));
            assert(exists|ids: Seq<CellId>| #[trigger] reported_walk(*canvas, root@, ids, out@));
        }
        let ghost pv = out@;
        let res: Result<(), Vec<String>> = Err(out);
        assert(res->Err_0@ == pv);
        assert(exists|ids: Seq<CellId>| #[trigger] reported_walk(*canvas, root@, ids, pv));
        return res;
    }
    if cell.cell_type != CellType::Math {
        proof {
            assert forall|p: Seq<CellId>| #[trigger] bad_walk(*canvas, p, on_path@) implies p[0] != current_id by {
                if p[0] == current_id {
                    if p.len() >= 2 {
                        assert(ref_edge(*canvas, p[0], p[1]));
                    } else {
                        assert(p.last() == p[0]);
                        assert(!on_path@[idx as int]);
                    }
                }
            }
        }
        return Ok(());
    }
    let ghost flags0 = on_path@;
    on_path.set(idx, true);
    path.push(cell.short_id.clone());
    proof {
        lemma_mark(flags0, idx as int);
        assert forall|i: int| 0 <= i < on_path@.len() && #[trigger] on_path@[i] implies exists|k: int|
            0 <= k < path@.len() && (#[trigger] path@[k])@ == canvas.cells_spec()[i].short_id@ by {
            if i == idx {
                assert(path@[path@.len() - 1]@ == canvas.cells_spec()[i].short_id@);
            } else {
                let k = choose|k: int| 0 <= k < old(path)@.len() && (#[trigger] old(path)@[k])@ == canvas.cells_spec()[i].short_id@;
                assert(path@[k] == old(path)@[k]);
            }
        }
    }
    let ghost flags1 = on_path@;
    let ghost path1 = path@;
    if let Some(formula) = cell.content.as_str() {
        let references = parse_formula_references(formula);
        let mut j: usize = 0;
        while j < references.len()
            invariant
                canvas.wf(),
                *cell == canvas.cells_spec()[idx as int],
                idx < canvas.cells_spec().len(),
                canvas.index_spec(current_id) == idx,
                canvas.cells_spec()[idx as int].id == current_id,
                canvas.has_cell(current_id),
                cell.cell_type is Math,
                inline_text(cell.content) == Some(formula@),
                stack@.len() == 0 ==> current_id == root@,
                stack@.len() >= 1 ==> stack@[0] == root@ && ref_edge(*canvas, stack@.last(), current_id),
                forall|k: int| 0 <= k < stack@.len() - 1 ==> #[trigger] ref_edge(*canvas, stack@[k], stack@[k + 1]),
                forall|id: CellId| #[trigger] marked(*canvas, flags0, id) ==> stack@.contains(id),
                on_path@ == flags1,
                path@ == path1,
                path1.len() == stack@.len() + 1,
                forall|k: int| 0 <= k < path1.len() ==> (#[trigger] path1[k])@ == canvas.cell_spec(stack@.push(current_id)[k]).short_id@,
                flags1 == flags0.update(idx as int, true),
                flags0 == old(on_path)@,
                count_free(flags1) < count_free(flags0),
                flags1.len() == canvas.cells_spec().len(),
                flags0.len() == canvas.cells_spec().len(),
                marks_on_path(*canvas, flags1, path1),
                references@.len() == references_spec(formula@).len(),
                forall|k: int| 0 <= k < references@.len() ==> (#[trigger] references@[k])@ == references_spec(formula@)[k],
                j <= references@.len(),
                forall|k: int| 0 <= k < j ==> match #[trigger] lookup_short(canvas.cells_spec(), references_spec(formula@)[k]) {
                    Some(x) => (canvas.has_cell(x) ==> !flags1[canvas.index_spec(x)]) && no_bad_walk_from(*canvas, x, flags1),
                    None => true,
                },
            decreases references@.len() - j,
        {
            if let Some(ref_cell_id) = canvas.get_cell_id_by_short_id(references[j].as_str()) {
                proof {
                    assert(formula_refs(*cell)[j as int] == references_spec(formula@)[j as int]);
                    assert(refers_to(*canvas, *cell, ref_cell_id));
                    assert(ref_edge(*canvas, current_id, ref_cell_id));
                    let w = stack@.push(current_id);
                    assert forall|m: int| 0 <= m < w.len() - 1 implies #[trigger] ref_edge(*canvas, w[m], w[m + 1]) by {
                        if m < stack@.len() - 1 {
                            assert(w[m] == stack@[m] && w[m + 1] == stack@[m + 1]);
                        } else {
                            assert(w[m] == stack@.last());
                        }
                    }
                    assert forall|id: CellId| #[trigger] marked(*canvas, on_path@, id) implies w.contains(id) by {
                        if id == current_id {
                            assert(w[w.len() - 1] == id);
                        } else {
                            let ix = canvas.index_spec(id);
                            assert(canvas.has_cell(id));
                            assert(0 <= ix < canvas.cells_spec().len() && canvas.cells_spec()[ix].id == id);
                            assert(flags0.len() == canvas.cells_spec().len());
                            assert(ix != idx);
                            assert(on_path@[ix]);
                            assert(flags1[ix] == flags0[ix]);
                            assert(marked(*canvas, flags0, id));
                            let q = choose|q: int| 0 <= q < stack@.len() && stack@[q] == id;
                            assert(w[q] == id);
                        }
                    }
                }
                let res = visit(ref_cell_id, canvas, on_path, path, root, Ghost(stack@.push(current_id)));
                if let Err(p) = res {
                    return Err(p);
                }
            }
            j += 1;
        }
        proof {
            assert forall|x: CellId| canvas.has_cell(x) && (x == current_id || flags0[canvas.index_spec(x)]) implies !refers_to(*canvas, *cell, x) by {
                if refers_to(*canvas, *cell, x) {
                    let jj = choose|jj: int| 0 <= jj < formula_refs(*cell).len() && lookup_short(canvas.cells_spec(), #[trigger] formula_refs(*cell)[jj]) == Some(x);
                    assert(flags1[canvas.index_spec(x)]);
                }
            }
            assert forall|p: Seq<CellId>| #[trigger] bad_walk(*canvas, p, flags0) implies p[0] != current_id by {
                if p[0] == current_id {
                    if p.len() == 1 {
                        assert(p.last() == p[0]);
                    } else {
                        assert(ref_edge(*canvas, p[0], p[1]));
                        let jj = choose|jj: int| 0 <= jj < formula_refs(*cell).len() && lookup_short(canvas.cells_spec(), #[trigger] formula_refs(*cell)[jj]) == Some(p[1]);
                        assert(no_bad_walk_from(*canvas, p[1], flags1));
                        lemma_bad_walk_tail(*canvas, p, flags0, flags1);
                        assert(p.drop_first()[0] == p[1]);
                    }
                }
            }
        }
    } else {
        proof {
            assert forall|p: Seq<CellId>| #[trigger] bad_walk(*canvas, p, flags0) implies p[0] != current_id by {
                if p[0] == current_id {
                    if p.len() == 1 {
                        assert(p.last() == p[0]);
                    } else {
                        assert(ref_edge(*canvas, p[0], p[1]));
                        assert(formula_refs(*cell).len() == 0);
                    }
                }
            }
        }
    }
    on_path.set(idx, false);
    path.pop();
    proof {
        assert(on_path@ =~= flags0);
        assert(path@ =~= old(path)@);
    }
    Ok(())
}

/// Walk the formula references from `cell_id`, following only formula
/// cells. A reference back to a cell on the current path is a cycle: the
/// path of short ids is returned, ending with the repeated one.
pub fn detect_circular_references(cell_id: CellId, canvas: &Canvas) -> (r: Result<(), Vec<String>>)
    requires
        canvas.wf(),
    ensures
        r matches Err(p) ==> closes_cycle(p@),
        r is Err ==> exists|ids: Seq<CellId>| #[trigger] reported_walk(*canvas, cell_id, ids, r->Err_0@),
        ({
            let cell = canvas.cell_spec(cell_id);
            canvas.has_cell(cell_id) && cell.cell_type is Math && refers_to(*canvas, cell, cell_id)
        }) ==> r is Err,
        r is Ok <==> !cycle_reachable(*canvas, cell_id),
{
    let mut on_path: Vec<bool> = Vec::new();
    let mut i: usize = 0;
    while i < canvas.cell_count()
        invariant
            i <= canvas.cells_spec().len(),
            on_path@.len() == i,
            forall|k: int| 0 <= k < i ==> !(#[trigger] on_path@[k]),
        decreases canvas.cells_spec().len() - i,
    {
        on_path.push(false);
        i += 1;
    }
    let mut path: Vec<String> = Vec::new();
    let ghost flags = on_path@;
    let r = visit(cell_id, canvas, &mut on_path, &mut path, Ghost(cell_id), Ghost(Seq::empty()));
    proof {
        if r is Ok && cycle_reachable(*canvas, cell_id) {
            let p = choose|p: Seq<CellId>|
                p.len() >= 2 && p[0] == cell_id && (forall|k: int| 0 <= k < p.len() - 1 ==> #[trigger] ref_edge(*canvas, p[k], p[k + 1]))
                    && #[trigger] p.subrange(0, p.len() - 1).contains(p.last());
            let k = choose|k: int| 0 <= k < p.len() - 1 && #[trigger] p.subrange(0, p.len() - 1)[k] == p.last();
            assert(p[k] == p.last());
            assert(bad_walk(*canvas, p, flags));
        }
    }
    r
}

/// Ids of the formula cells whose text references the short id of `cell_id`,
/// in store order.
pub fn get_dependent_math_cells(cell_id: CellId, canvas: &Canvas) -> (r: Vec<CellId>)
    requires
        canvas.wf(),
    ensures
        !canvas.has_cell(cell_id) ==> r@.len() == 0,
        canvas.has_cell(cell_id) ==> r@ == crate::canvas::cell_ids(canvas.cells_spec().filter(
            depends_on(canvas.cell_spec(cell_id).short_id@),
        )),
{
    let mut dependents: Vec<CellId> = Vec::new();
    let target = match canvas.get_cell(cell_id) {
        Some(c) => c,
        None => {
            return dependents;
        },
    };
    let ghost p = depends_on(target.short_id@);
    let mut i: usize = 0;
    while i < canvas.cell_count()
        invariant
            canvas.wf(),
            p == depends_on(target.short_id@),
            i <= canvas.cells_spec().len(),
            dependents@ == crate::canvas::cell_ids(canvas.cells_spec().take(i as int).filter(p)),
        decreases canvas.cells_spec().len() - i,
    {
        let other = canvas.cell_at(i);
        proof {
            crate::canvas::lemma_filter_push(canvas.cells_spec().take(i as int), *other, p);
            assert(canvas.cells_spec().take(i as int).push(*other) =~= canvas.cells_spec().take(i + 1));
        }
        let mut hit = false;
        if other.cell_type == CellType::Math {
            if let Some(formula) = other.content.as_str() {
                let references = parse_formula_references(formula);
                let mut j: usize = 0;
                while j < references.len()
                    invariant
                        references@.len() == references_spec(formula@).len(),
                        forall|k: int| 0 <= k < references@.len() ==> (#[trigger] references@[k])@ == references_spec(formula@)[k],
                        j <= references@.len(),
                        hit == exists|k: int| 0 <= k < j && references_spec(formula@)[k] == target.short_id@,
                    decreases references@.len() - j,
                {
                    if crate::text::same_text(references[j].as_str(), target.short_id.as_str()) {
                        hit = true;
                    }
                    j += 1;
                }
                proof {
                    if hit {
                        let k = choose|k: int| 0 <= k < j && references_spec(formula@)[k] == target.short_id@;
                        assert(formula_refs(*other).contains(target.short_id@)) by {
                            assert(formula_refs(*other)[k] == target.short_id@);
                        }
                    } else {
                        assert(!formula_refs(*other).contains(target.short_id@));
                    }
                }
            }
        }
        if hit {
            dependents.push(other.id);
            proof {
                let f = canvas.cells_spec().take(i as int).filter(p);
                assert(crate::canvas::cell_ids(f.push(*other)) =~= crate::canvas::cell_ids(f).push(other.id));
            }
        }
        i += 1;
    }
    assert(canvas.cells_spec().take(i as int) =~= canvas.cells_spec());
    dependents
}

/// Formula cells whose references include `short`.
pub open spec fn depends_on(short: Seq<char>) -> spec_fn(Cell) -> bool {
    |c: Cell| c.cell_type is Math && formula_refs(c).contains(short)
}

/// `s` can be a reference target as written: not empty, no `]`, no
/// whitespace.
pub open spec fn plain_target(s: Seq<char>) -> bool {
    s.len() > 0 && forall|k: int| 0 <= k < s.len() ==> #[trigger] s[k] != ']' && !white_space(s[k])
}

/// The formula text `[[s]]` followed by `rest`.
pub open spec fn single_reference_text(s: Seq<char>, rest: Seq<char>) -> Seq<char> {
    seq!['[', '['] + s + seq![']', ']'] + rest
}

proof fn lemma_first_close_at(t: Seq<char>, from: int, to: int)
    requires
        0 <= from <= to < t.len(),
        t[to] == ']',
        forall|k: int| from <= k < to ==> t[k] != ']',
    ensures
        first_close(t, from) == to,
    decreases to - from,
{
    if from < to {
        lemma_first_close_at(t, from + 1, to);
    }
}

proof fn lemma_no_links_from(t: Seq<char>, p: int)
    requires
        0 <= p,
        forall|k: int| p <= k < t.len() ==> t[k] != '[',
    ensures
        link_spans_from(t, p) == Seq::<(int, int)>::empty(),
    decreases t.len() - p,
{
    if p < t.len() {
        assert(!link_starts_at(t, p));
        lemma_no_links_from(t, p + 1);
    }
}

/// A formula made of one reference `[[s]]` to a plain target, followed by
/// text without `[`, references exactly `s`.
pub proof fn lemma_single_reference(s: Seq<char>, rest: Seq<char>)
    requires
        plain_target(s),
        forall|k: int| 0 <= k < rest.len() ==> rest[k] != '[',
    ensures
        references_spec(single_reference_text(s, rest)) == seq![s],
{
    let t = single_reference_text(s, rest);
    let to: int = 2 + s.len() as int;
    assert(t[0] == '[' && t[1] == '[');
    assert forall|k: int| 2 <= k < to implies t[k] != ']' by {
        assert(t[k] == s[k - 2]);
    }
    assert(t[to] == ']' && t[to + 1] == ']');
    lemma_first_close_at(t, 2, to);
    assert(link_starts_at(t, 0));
    assert forall|k: int| to + 2 <= k < t.len() implies t[k] != '[' by {
        assert(t[k] == rest[k - to - 2]);
    }
    lemma_no_links_from(t, to + 2);
    assert(link_spans(t) =~= seq![(0int, to + 2)]);
    let inner = t.subrange(2, to);
    assert(inner =~= s);
    assert(trim_start(s) == s);
    assert(trim_end(s) == s);
    assert(references_spec(t) =~= seq![s]);
}

/// The cell after position `k` of a ring, wrapping to the first.
pub open spec fn ring_next(ring: Seq<CellId>, k: int) -> CellId {
    if k + 1 < ring.len() {
        ring[k + 1]
    } else {
        ring[0]
    }
}

/// Formula cells that each reference the next one, the last referencing
/// the first, lie on a reference cycle: checking any of them reports it,
/// and none of them evaluates. A formula that references itself is the
/// ring of one cell.
pub proof fn lemma_reference_ring(c: Canvas, ring: Seq<CellId>)
    requires
        c.wf(),
        ring.len() >= 1,
        forall|k: int| 0 <= k < ring.len() ==> c.has_cell(#[trigger] ring[k]) && c.cell_spec(ring[k]).cell_type is Math,
        forall|k: int| 0 <= k < ring.len() ==> formula_refs(c.cell_spec(#[trigger] ring[k])) == seq![
            c.cell_spec(ring_next(ring, k)).short_id@,
        ],
        forall|k: int| 0 <= k < ring.len() ==> lookup_short(c.cells_spec(), c.cell_spec(#[trigger] ring[k]).short_id@) == Some(ring[k]),
    ensures
        cycle_reachable(c, ring[0]),
{
    let w = ring.push(ring[0]);
    assert forall|k: int| 0 <= k < w.len() - 1 implies #[trigger] ref_edge(c, w[k], w[k + 1]) by {
        let nx = ring_next(ring, k);
        assert(w[k] == ring[k]);
        assert(w[k + 1] == nx);
        let cell = c.cell_spec(ring[k]);
        assert(formula_refs(cell) == seq![c.cell_spec(nx).short_id@]);
        assert(formula_refs(cell)[0] == c.cell_spec(nx).short_id@);
        assert(exists|i: int| 0 <= i < ring.len() && ring[i] == nx) by {
            if k + 1 < ring.len() {
                assert(ring[k + 1] == nx);
            } else {
                assert(ring[0] == nx);
            }
        }
        let i = choose|i: int| 0 <= i < ring.len() && ring[i] == nx;
        assert(lookup_short(c.cells_spec(), c.cell_spec(ring[i]).short_id@) == Some(ring[i]));
        assert(refers_to(c, cell, nx));
    }
    assert(w.subrange(0, w.len() - 1)[0] == w.last());
    assert(w.subrange(0, w.len() - 1).contains(w.last()));
}

} // verus!
