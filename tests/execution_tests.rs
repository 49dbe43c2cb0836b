use graph_cell_editor::execution::{display_text, execute_math_cell, execute_number_cell, execute_text_cell};
use graph_cell_editor::{
    Canvas, Cell, CellContent, CellData, CellError, CellType, CodeEvaluator, ExecutionEngine,
    ExecutionError, ExecutionMode, ExecutionStatus, FormulaError, Rectangle,
};

fn bits(x: f64) -> u64 {
    x.to_bits()
}

/// Understands `set_output(<number>)` and `set_output(input_0 * <number>)`.
struct ScriptStub;

impl CodeEvaluator for ScriptStub {
    fn evaluate(&mut self, code: &str, inputs: &Vec<CellData>) -> Result<CellData, String> {
        let inner = code
            .strip_prefix("set_output(")
            .and_then(|rest| rest.strip_suffix(')'))
            .ok_or_else(|| format!("unsupported code: {}", code))?;
        if let Some(factor) = inner.strip_prefix("input_0 * ") {
            let factor: f64 = factor.parse().map_err(|_| "bad factor".to_string())?;
            match inputs.first() {
                Some(CellData::Number(n)) => Ok(CellData::Number((f64::from_bits(*n) * factor).to_bits())),
                _ => Err("input_0 is not a number".to_string()),
            }
        } else {
            let value: f64 = inner.parse().map_err(|_| "bad literal".to_string())?;
            Ok(CellData::Number(value.to_bits()))
        }
    }

    fn validate(&mut self, code: &str) -> Result<(), String> {
        if code.starts_with("set_output(") {
            Ok(())
        } else {
            Err("syntax".to_string())
        }
    }
}

fn cell(canvas: &mut Canvas, kind: CellType, x: i64, text: &str) -> u128 {
    canvas.create_cell(kind, Rectangle::new(x, 0, 100, 100), CellContent::inline(text))
}

#[test]
fn test_celldata_coerce_to_string() {
    assert_eq!(CellData::Empty.coerce_to_string(), "");
    assert_eq!(CellData::Text("hello".to_string()).coerce_to_string(), "hello");
    assert_eq!(CellData::Number(bits(42.0)).coerce_to_string(), "42");
    assert_eq!(CellData::Boolean(true).coerce_to_string(), "true");
}

#[test]
fn coerce_other_values() {
    assert_eq!(CellData::Boolean(false).coerce_to_string(), "false");
    assert_eq!(CellData::Number(bits(2.5)).coerce_to_string(), "2.5");
    assert_eq!(CellData::Binary(vec![1, 2, 3]).coerce_to_string(), "[Binary data: 3 bytes]");
    assert!(CellData::Empty.is_none());
    assert!(!CellData::Boolean(true).is_none());
}

#[test]
fn test_text_cell_execution() {
    let cell = Cell::new(CellType::Text, Rectangle::new(0, 0, 100, 100), CellContent::inline("Test"), "A1".to_string());
    let inputs = vec![CellData::Text("input data".to_string())];
    let output = execute_text_cell(&cell, &inputs);
    assert_eq!(output, CellData::Text("input data".to_string()));
    assert_eq!(execute_text_cell(&cell, &Vec::new()), CellData::Empty);
}

#[test]
fn test_execution_engine_simple() {
    let mut canvas = Canvas::with_root_cell(CellType::Python, Rectangle::new(0, 0, 100, 100), CellContent::inline("set_output(100)"));
    let root = canvas.root_cell().unwrap();
    canvas.set_start_point(root).unwrap();

    let mut engine = ExecutionEngine::new(ExecutionMode::Run);
    let report = engine.execute(&canvas, &mut ScriptStub).unwrap();

    assert_eq!(report.status, ExecutionStatus::Complete);
    assert_eq!(report.total_cells_executed, 1);
    assert_eq!(report.log[0].output, CellData::Number(bits(100.0)));
}

#[test]
fn test_execution_engine_with_relationship() {
    let mut canvas = Canvas::new();
    let cell1 = cell(&mut canvas, CellType::Python, 0, "set_output(10)");
    let cell2 = cell(&mut canvas, CellType::Python, 150, "set_output(input_0 * 2)");
    canvas.create_relationship(cell1, cell2).unwrap();
    canvas.set_start_point(cell1).unwrap();

    let mut engine = ExecutionEngine::new(ExecutionMode::Run);
    let report = engine.execute(&canvas, &mut ScriptStub).unwrap();

    assert_eq!(report.status, ExecutionStatus::Complete);
    assert_eq!(report.total_cells_executed, 2);
    assert_eq!(report.log[1].output, CellData::Number(bits(20.0)));
}

#[test]
fn test_dry_run_mode() {
    let mut canvas = Canvas::with_root_cell(CellType::Python, Rectangle::new(0, 0, 100, 100), CellContent::inline("set_output(42)"));
    let root = canvas.root_cell().unwrap();
    canvas.set_start_point(root).unwrap();

    let mut engine = ExecutionEngine::new(ExecutionMode::DryRun);
    let report = engine.execute(&canvas, &mut ScriptStub).unwrap();

    assert_eq!(report.status, ExecutionStatus::DryRunComplete);
    assert!(report.log[0].dry_run);
}

#[test]
fn number_and_formula_chain() {
    let mut canvas = Canvas::new();
    let root = cell(&mut canvas, CellType::NumberInt, 0, "10");
    let root_short = canvas.get_cell(root).unwrap().short_id.clone();
    let child = cell(&mut canvas, CellType::Math, 150, &format!("2*[[{}]]", root_short));
    canvas.create_relationship(root, child).unwrap();
    canvas.set_start_point(root).unwrap();

    let mut engine = ExecutionEngine::new(ExecutionMode::Run);
    let report = engine.execute(&canvas, &mut ScriptStub).unwrap();
    assert_eq!(report.log.len(), 2);
    assert_eq!(report.log[0].cell_id, root);
    assert_eq!(report.log[0].output, CellData::Number(bits(10.0)));
    assert_eq!(report.log[1].cell_id, child);
    assert_eq!(report.log[1].step, 2);
    assert_eq!(report.log[1].output, CellData::Number(bits(20.0)));
}

#[test]
fn dry_run_changes_nothing() {
    let mut canvas = Canvas::new();
    let root = cell(&mut canvas, CellType::NumberInt, 0, "10");
    let next = cell(&mut canvas, CellType::Text, 150, "note");
    canvas.create_relationship(root, next).unwrap();
    canvas.set_start_point(root).unwrap();
    let before = canvas.cells().clone();

    let mut engine = ExecutionEngine::new(ExecutionMode::DryRun);
    let report = engine.execute(&canvas, &mut ScriptStub).unwrap();
    assert_eq!(report.status, ExecutionStatus::DryRunComplete);
    assert_eq!(report.log.len(), 2);
    assert!(report.log.iter().all(|e| e.dry_run));
    assert_eq!(report.log[0].output, CellData::Text("(dry-run-number)".to_string()));
    assert_eq!(canvas.cells(), &before);
}

#[test]
fn two_producers_conflict_in_one_step() {
    let mut canvas = Canvas::new();
    let root = cell(&mut canvas, CellType::NumberInt, 0, "1");
    let a = cell(&mut canvas, CellType::NumberInt, 100, "2");
    let b = cell(&mut canvas, CellType::NumberInt, 200, "3");
    let target = cell(&mut canvas, CellType::Text, 300, "t");
    canvas.create_relationship(root, a).unwrap();
    canvas.create_relationship(root, b).unwrap();
    canvas.create_relationship(a, target).unwrap();
    canvas.create_relationship(b, target).unwrap();
    canvas.set_start_point(root).unwrap();

    let mut engine = ExecutionEngine::new(ExecutionMode::Run);
    let result = engine.execute(&canvas, &mut ScriptStub);
    assert_eq!(result.err(), Some(ExecutionError::Conflict { target, step: 2 }));
    assert!(matches!(engine.status(), ExecutionStatus::Error(_)));
    assert_eq!(engine.log().len(), 1);
}

#[test]
fn no_start_point_fails() {
    let mut canvas = Canvas::new();
    cell(&mut canvas, CellType::Text, 0, "x");
    let mut engine = ExecutionEngine::new(ExecutionMode::Run);
    assert_eq!(engine.execute(&canvas, &mut ScriptStub).err(), Some(ExecutionError::NoStartPoint));
    assert_eq!(engine.status(), &ExecutionStatus::NotStarted);
}

#[test]
fn step_mode_pauses_and_resumes() {
    let mut canvas = Canvas::new();
    let a = cell(&mut canvas, CellType::NumberInt, 0, "1");
    let b = cell(&mut canvas, CellType::NumberInt, 100, "2");
    let c = cell(&mut canvas, CellType::NumberInt, 200, "3");
    canvas.create_relationship(a, b).unwrap();
    canvas.create_relationship(a, c).unwrap();
    canvas.set_start_point(a).unwrap();

    let mut engine = ExecutionEngine::new(ExecutionMode::Step);
    let first = engine.execute(&canvas, &mut ScriptStub).unwrap();
    assert_eq!(first.status, ExecutionStatus::Paused);
    assert_eq!(first.step, 1);
    assert_eq!(first.log.len(), 1);
    let second = engine.continue_execution(&canvas, &mut ScriptStub).unwrap();
    assert_eq!(second.status, ExecutionStatus::Paused);
    assert_eq!(second.log.len(), 3);
    let (lo, hi) = if b < c { (b, c) } else { (c, b) };
    assert_eq!(second.log[1].cell_id, lo);
    assert_eq!(second.log[2].cell_id, hi);
    let third = engine.continue_execution(&canvas, &mut ScriptStub).unwrap();
    assert_eq!(third.status, ExecutionStatus::Complete);
    assert_eq!(third.log.len(), 3);
    assert_eq!(engine.continue_execution(&canvas, &mut ScriptStub).err(), Some(ExecutionError::NotPaused));
}

#[test]
fn evaluation_failure_aborts_run() {
    let mut canvas = Canvas::new();
    let a = cell(&mut canvas, CellType::NumberInt, 0, "1");
    let b = cell(&mut canvas, CellType::NumberInt, 100, "oops");
    canvas.create_relationship(a, b).unwrap();
    canvas.set_start_point(a).unwrap();
    let mut engine = ExecutionEngine::new(ExecutionMode::Run);
    let result = engine.execute(&canvas, &mut ScriptStub);
    assert_eq!(result.err(), Some(ExecutionError::Evaluation { cell: b, error: CellError::NotANumber }));
    assert_eq!(engine.log().len(), 1);
}

#[test]
fn self_referencing_formula_is_a_cycle() {
    let mut canvas = Canvas::new();
    let m = cell(&mut canvas, CellType::Math, 0, "");
    let s = canvas.get_cell(m).unwrap().short_id.clone();
    canvas.update_cell_content(m, CellContent::inline(&format!("[[{}]]+1", s))).unwrap();
    let result = execute_math_cell(&canvas, canvas.get_cell(m).unwrap());
    assert!(matches!(result, Err(CellError::Formula(FormulaError::Cycle(_)))));
}

#[test]
fn recalculation_updates_dependents_and_targets() {
    let mut canvas = Canvas::new();
    let a = cell(&mut canvas, CellType::NumberInt, 0, "7");
    let sa = canvas.get_cell(a).unwrap().short_id.clone();
    let f = cell(&mut canvas, CellType::Math, 100, &format!("[[{}]] / 2", sa));
    let shown = cell(&mut canvas, CellType::NumberFloat, 200, "");
    let int_shown = cell(&mut canvas, CellType::NumberInt, 300, "");
    let g = cell(&mut canvas, CellType::Math, 400, &format!("[[{}]] * 3", sa));
    let bad = cell(&mut canvas, CellType::Math, 500, &format!("[[{}]] + [[nope]]", sa));
    canvas.set_result_target(f, Some(shown)).unwrap();
    canvas.set_decimal_precision(shown, 3).unwrap();
    canvas.set_result_target(g, Some(int_shown)).unwrap();

    let mut engine = ExecutionEngine::new(ExecutionMode::Run);
    let results = engine.recalculate_dependents(a, &mut canvas);
    assert_eq!(results.len(), 3);
    assert_eq!(results[0], (f, Ok(bits(3.5))));
    assert_eq!(results[1], (g, Ok(bits(21.0))));
    assert_eq!(results[2].0, bad);
    assert!(results[2].1.is_err());
    assert_eq!(canvas.get_cell(f).unwrap().computed_result, Some(bits(3.5)));
    assert_eq!(canvas.get_cell(shown).unwrap().content.as_str(), Some("3.500"));
    assert_eq!(canvas.get_cell(int_shown).unwrap().content.as_str(), Some("21"));
}

#[test]
fn split_containers_do_not_run() {
    let mut canvas = Canvas::new();
    let a = cell(&mut canvas, CellType::NumberInt, 0, "1");
    let b = cell(&mut canvas, CellType::NumberInt, 100, "2");
    let c = cell(&mut canvas, CellType::NumberInt, 200, "3");
    canvas.create_relationship(a, b).unwrap();
    canvas.create_relationship(b, c).unwrap();
    canvas
        .split_cell(b, graph_cell_editor::SplitDirection::Vertical, graph_cell_editor::SplitRatio { numerator: 1, denominator: 2 })
        .unwrap();
    canvas.set_start_point(a).unwrap();
    assert_eq!(canvas.leaf_cells().len(), 4);
    assert!(!canvas.leaf_cells().contains(&b));

    let mut engine = ExecutionEngine::new(ExecutionMode::Run);
    let report = engine.execute(&canvas, &mut ScriptStub).unwrap();
    assert_eq!(report.status, ExecutionStatus::Complete);
    assert_eq!(report.log.len(), 1);
    assert_eq!(report.log[0].cell_id, a);
}

#[test]
fn number_display_and_parsing() {
    assert_eq!(display_text(bits(-7.9), CellType::NumberInt, 2), Some("-7".to_string()));
    assert_eq!(display_text(bits(2.0 / 3.0), CellType::NumberCurrency, 2), Some("0.67".to_string()));
    assert_eq!(display_text(bits(1.5), CellType::NumberFloat, 0), Some("2".to_string()));
    assert_eq!(display_text(bits(1.5), CellType::Text, 2), None);
    let good = Cell::new(CellType::NumberFloat, Rectangle::new(0, 0, 1, 1), CellContent::inline(" 1e3 "), "N1".to_string());
    assert_eq!(execute_number_cell(&good), Ok(CellData::Number(bits(1000.0))));
    let bad = Cell::new(CellType::NumberInt, Rectangle::new(0, 0, 1, 1), CellContent::inline("12abc"), "N2".to_string());
    assert_eq!(execute_number_cell(&bad), Err(CellError::NotANumber));
    let ext = Cell::new(CellType::NumberInt, Rectangle::new(0, 0, 1, 1), CellContent::external("/x".to_string(), "x", false), "N3".to_string());
    assert_eq!(execute_number_cell(&ext), Err(CellError::NoInlineContent));
}

#[test]
fn step_mode_first_call_runs_only_the_start() {
    let mut canvas = Canvas::new();
    let a = cell(&mut canvas, CellType::NumberInt, 0, "1");
    let b = cell(&mut canvas, CellType::NumberInt, 100, "2");
    canvas.create_relationship(a, b).unwrap();
    canvas.set_start_point(a).unwrap();
    let mut engine = ExecutionEngine::new(ExecutionMode::Step);
    let report = engine.execute(&canvas, &mut ScriptStub).unwrap();
    assert_eq!(report.status, ExecutionStatus::Paused);
    assert_eq!(report.step, 1);
    assert_eq!(report.log.len(), 1);
    assert_eq!(report.log[0].cell_id, a);
}

#[test]
fn recalculation_of_a_cycle_changes_nothing() {
    let mut canvas = Canvas::new();
    let a = cell(&mut canvas, CellType::NumberInt, 0, "7");
    let sa = canvas.get_cell(a).unwrap().short_id.clone();
    let f = cell(&mut canvas, CellType::Math, 100, "");
    let sf = canvas.get_cell(f).unwrap().short_id.clone();
    canvas.update_cell_content(f, CellContent::inline(&format!("[[{}]] + [[{}]]", sa, sf))).unwrap();
    let before = canvas.cells().clone();
    let mut engine = ExecutionEngine::new(ExecutionMode::Run);
    let results = engine.recalculate_dependents(a, &mut canvas);
    assert_eq!(results.len(), 1);
    assert!(matches!(results[0].1, Err(CellError::Formula(FormulaError::Cycle(_)))));
    assert_eq!(canvas.cells(), &before);
}
