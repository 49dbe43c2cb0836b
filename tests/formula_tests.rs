use graph_cell_editor::math_eval::{
    detect_circular_references, evaluate_expression, get_dependent_math_cells,
    parse_formula_references, prepare_formula, resolve_cell_value,
};
use graph_cell_editor::{Canvas, CellContent, CellId, CellType, FormulaError, Rectangle};

fn bits(x: f64) -> u64 {
    x.to_bits()
}

fn short(canvas: &Canvas, id: CellId) -> String {
    canvas.get_cell(id).unwrap().short_id.clone()
}

fn cell(canvas: &mut Canvas, kind: CellType, x: i64, text: &str) -> CellId {
    canvas.create_cell(kind, Rectangle::new(x, 0, 100, 100), CellContent::inline(text))
}

#[test]
fn test_parse_formula_references() {
    let formula = "[[A7]] + [[B2]] * 2";
    let refs = parse_formula_references(formula);
    assert_eq!(refs, vec!["A7", "B2"]);
}

#[test]
fn test_prepare_formula() {
    let formula = "[[A7]] + [[B2]] * 2";
    let prepared = prepare_formula(formula);
    assert_eq!(prepared, "cell_A7 + cell_B2 * 2");
}

#[test]
fn test_simple_evaluation() {
    let mut canvas = Canvas::new();
    let cell_a = cell(&mut canvas, CellType::NumberFloat, 0, "42");
    canvas.set_short_id(cell_a, "A7".to_string()).unwrap();

    let result = evaluate_expression("[[A7]] * 2", &canvas).unwrap();
    assert_eq!(result, bits(84.0));
}

#[test]
fn test_self_reference_detected() {
    let mut canvas = Canvas::new();
    let c = cell(&mut canvas, CellType::Math, 0, "");
    let cell_short = short(&canvas, c);
    let _ = canvas.update_cell_content(c, CellContent::inline(&format!("[[{}]]+1", cell_short)));

    let result = detect_circular_references(c, &canvas);
    assert!(result.is_err());
    let cycle = result.unwrap_err();
    assert!(!cycle.is_empty());
    assert!(cycle.contains(&cell_short));
}

#[test]
fn test_two_cell_cycle_detected() {
    let mut canvas = Canvas::new();
    let cell_a = cell(&mut canvas, CellType::Math, 0, "");
    let cell_b = cell(&mut canvas, CellType::Math, 150, "");
    let cell_a_short = short(&canvas, cell_a);
    let cell_b_short = short(&canvas, cell_b);

    canvas.update_cell_content(cell_a, CellContent::inline(&format!("[[{}]]", cell_b_short))).unwrap();
    canvas.update_cell_content(cell_b, CellContent::inline(&format!("[[{}]]", cell_a_short))).unwrap();

    let result = detect_circular_references(cell_a, &canvas);
    assert!(result.is_err());
    let cycle = result.unwrap_err();
    assert!(cycle.len() >= 2);
    assert!(cycle.contains(&cell_a_short));
    assert!(cycle.contains(&cell_b_short));
}

#[test]
fn test_three_cell_cycle_detected() {
    let mut canvas = Canvas::new();
    let cell_a = cell(&mut canvas, CellType::Math, 0, "");
    let cell_b = cell(&mut canvas, CellType::Math, 150, "");
    let cell_c = cell(&mut canvas, CellType::Math, 300, "");
    let cell_a_short = short(&canvas, cell_a);
    let cell_b_short = short(&canvas, cell_b);
    let cell_c_short = short(&canvas, cell_c);

    canvas.update_cell_content(cell_a, CellContent::inline(&format!("[[{}]]", cell_b_short))).unwrap();
    canvas.update_cell_content(cell_b, CellContent::inline(&format!("[[{}]]", cell_c_short))).unwrap();
    canvas.update_cell_content(cell_c, CellContent::inline(&format!("[[{}]]", cell_a_short))).unwrap();

    let result = detect_circular_references(cell_a, &canvas);
    assert!(result.is_err());
    let cycle = result.unwrap_err();
    assert!(cycle.len() >= 3);
    assert!(cycle.contains(&cell_a_short));
    assert!(cycle.contains(&cell_b_short));
    assert!(cycle.contains(&cell_c_short));
}

#[test]
fn test_four_cell_cycle_detected() {
    let mut canvas = Canvas::new();
    let cells: Vec<_> = (0..4).map(|i| cell(&mut canvas, CellType::Math, i * 150, "")).collect();
    let short_ids: Vec<_> = cells.iter().map(|&id| short(&canvas, id)).collect();

    for i in 0..4 {
        let next_idx = (i + 1) % 4;
        canvas.update_cell_content(cells[i], CellContent::inline(&format!("[[{}]]", short_ids[next_idx]))).unwrap();
    }

    let result = detect_circular_references(cells[0], &canvas);
    assert!(result.is_err());
    let cycle = result.unwrap_err();
    assert!(cycle.len() >= 4);
}

#[test]
fn test_cycle_with_unused_cells() {
    let mut canvas = Canvas::new();
    let cell_a = cell(&mut canvas, CellType::Math, 0, "");
    let cell_b = cell(&mut canvas, CellType::Math, 150, "");
    let _cell_c = cell(&mut canvas, CellType::Math, 300, "10 + 20");
    let cell_a_short = short(&canvas, cell_a);
    let cell_b_short = short(&canvas, cell_b);

    canvas.update_cell_content(cell_a, CellContent::inline(&format!("[[{}]]", cell_b_short))).unwrap();
    canvas.update_cell_content(cell_b, CellContent::inline(&format!("[[{}]]", cell_a_short))).unwrap();

    let result = detect_circular_references(cell_a, &canvas);
    assert!(result.is_err());
}

#[test]
fn test_no_cycle_linear_chain() {
    let mut canvas = Canvas::new();
    let cell_a = cell(&mut canvas, CellType::NumberInt, 0, "10");
    let cell_b = cell(&mut canvas, CellType::Math, 150, "");
    let cell_c = cell(&mut canvas, CellType::Math, 300, "");
    let cell_a_short = short(&canvas, cell_a);
    let cell_b_short = short(&canvas, cell_b);

    canvas.update_cell_content(cell_b, CellContent::inline(&format!("[[{}]]", cell_a_short))).unwrap();
    canvas.update_cell_content(cell_c, CellContent::inline(&format!("[[{}]]", cell_b_short))).unwrap();

    let result = detect_circular_references(cell_c, &canvas);
    assert!(result.is_ok());
}

#[test]
fn test_complex_formula_multiple_references() {
    let mut canvas = Canvas::new();
    let cell_a = cell(&mut canvas, CellType::NumberInt, 0, "10");
    let cell_b = cell(&mut canvas, CellType::NumberInt, 150, "20");
    let cell_c = cell(&mut canvas, CellType::NumberInt, 300, "5");
    let formula = format!("([[{}]] + [[{}]]) * [[{}]]", short(&canvas, cell_a), short(&canvas, cell_b), short(&canvas, cell_c));
    let result = evaluate_expression(&formula, &canvas).unwrap();
    assert_eq!(result, bits(150.0));
}

#[test]
fn test_division_by_zero_error() {
    let mut canvas = Canvas::new();
    let cell_a = cell(&mut canvas, CellType::NumberInt, 0, "10");
    let cell_b = cell(&mut canvas, CellType::NumberInt, 150, "0");
    let formula = format!("[[{}]] / [[{}]]", short(&canvas, cell_a), short(&canvas, cell_b));
    let result = evaluate_expression(&formula, &canvas);
    assert!(result.is_ok());
    assert_eq!(f64::from_bits(result.unwrap()), f64::INFINITY);
}

#[test]
fn test_missing_cell_reference_error() {
    let canvas = Canvas::new();
    let formula = "[[NONEXISTENT]] + 10";
    let result = evaluate_expression(formula, &canvas);
    assert!(result.is_err());
    assert_eq!(result, Err(FormulaError::CellNotFound("NONEXISTENT".to_string())));
}

#[test]
fn test_invalid_syntax_error() {
    let mut canvas = Canvas::new();
    let cell_a = cell(&mut canvas, CellType::NumberInt, 0, "10");
    let formula = format!("[[{}]] + + 10", short(&canvas, cell_a));
    let result = evaluate_expression(&formula, &canvas);
    assert!(result.is_err());
}

#[test]
fn test_evalexpr_power_function() {
    let mut canvas = Canvas::new();
    let cell_a = cell(&mut canvas, CellType::NumberInt, 0, "2");
    let cell_b = cell(&mut canvas, CellType::NumberInt, 150, "3");
    let formula = format!("[[{}]] ^ [[{}]]", short(&canvas, cell_a), short(&canvas, cell_b));
    let result = evaluate_expression(&formula, &canvas).unwrap();
    assert_eq!(result, bits(8.0));
}

#[test]
fn test_evalexpr_modulo_function() {
    let mut canvas = Canvas::new();
    let cell_a = cell(&mut canvas, CellType::NumberInt, 0, "10");
    let cell_b = cell(&mut canvas, CellType::NumberInt, 150, "3");
    let formula = format!("[[{}]] % [[{}]]", short(&canvas, cell_a), short(&canvas, cell_b));
    let result = evaluate_expression(&formula, &canvas).unwrap();
    assert_eq!(result, bits(1.0));
}

#[test]
fn test_empty_formula() {
    let canvas = Canvas::new();
    let result = evaluate_expression("", &canvas);
    assert!(result.is_err());
}

#[test]
fn test_whitespace_formula() {
    let canvas = Canvas::new();
    let result = evaluate_expression("   \n\t  ", &canvas);
    assert!(result.is_err());
}

#[test]
fn test_formula_with_constants_and_references() {
    let mut canvas = Canvas::new();
    let cell_a = cell(&mut canvas, CellType::NumberInt, 0, "10");
    let formula = format!("[[{}]] * 2 + 5", short(&canvas, cell_a));
    let result = evaluate_expression(&formula, &canvas).unwrap();
    assert_eq!(result, bits(25.0));
}

#[test]
fn sum_of_two_number_cells() {
    let mut canvas = Canvas::new();
    let a = cell(&mut canvas, CellType::NumberInt, 0, "10");
    let b = cell(&mut canvas, CellType::NumberInt, 150, "20");
    let formula = format!("[[{}]]+[[{}]]", short(&canvas, a), short(&canvas, b));
    assert_eq!(evaluate_expression(&formula, &canvas), Ok(bits(30.0)));
}

#[test]
fn numeric_looking_ids_are_not_literals() {
    let mut canvas = Canvas::new();
    let a = cell(&mut canvas, CellType::NumberFloat, 0, " 2.5 ");
    assert_eq!(short(&canvas, a), "00");
    assert_eq!(prepare_formula("[[00]]*4"), "cell_00*4");
    assert_eq!(evaluate_expression("[[00]]*4", &canvas), Ok(bits(10.0)));
}

#[test]
fn resolve_value_rules() {
    let mut canvas = Canvas::new();
    let n = cell(&mut canvas, CellType::NumberInt, 0, "x1");
    let m = cell(&mut canvas, CellType::Math, 100, "1+1");
    let t = cell(&mut canvas, CellType::Text, 200, "hello");
    assert_eq!(resolve_cell_value(canvas.get_cell(n).unwrap(), &canvas), Err(FormulaError::NotANumber(n)));
    assert_eq!(resolve_cell_value(canvas.get_cell(m).unwrap(), &canvas), Err(FormulaError::NotComputed(m)));
    assert_eq!(resolve_cell_value(canvas.get_cell(t).unwrap(), &canvas), Err(FormulaError::NotNumericType(t)));
    canvas.set_computed_result(m, Some(bits(7.0))).unwrap();
    assert_eq!(resolve_cell_value(canvas.get_cell(m).unwrap(), &canvas), Ok(bits(7.0)));
    let formula = format!("[[{}]] > 1", short(&canvas, m));
    assert_eq!(evaluate_expression(&formula, &canvas), Err(FormulaError::EvaluationFailed));
    assert_eq!(evaluate_expression("  ", &canvas), Err(FormulaError::NonNumericResult));
    assert_eq!(evaluate_expression("shl(1, 100)", &canvas), Err(FormulaError::EvaluationFailed));
    assert_eq!(evaluate_expression("str::substring(\"é\", 1)", &canvas), Err(FormulaError::EvaluationFailed));
    assert_eq!(evaluate_expression("(2 + .5) * 4 - 1e1", &canvas), Ok(bits(0.0)));
}

#[test]
fn dependents_are_one_hop() {
    let mut canvas = Canvas::new();
    let a = cell(&mut canvas, CellType::NumberInt, 0, "1");
    let sa = short(&canvas, a);
    let b = cell(&mut canvas, CellType::Math, 100, &format!("[[{}]]+1", sa));
    let sb = short(&canvas, b);
    let _c = cell(&mut canvas, CellType::Math, 200, &format!("[[{}]]*2", sb));
    let d = cell(&mut canvas, CellType::Math, 300, &format!("[[{}]]-[[{}]]", sa, sa));
    let _t = cell(&mut canvas, CellType::Text, 400, &format!("[[{}]]", sa));
    assert_eq!(get_dependent_math_cells(a, &canvas), vec![b, d]);
    assert!(get_dependent_math_cells(999, &canvas).is_empty());
}
