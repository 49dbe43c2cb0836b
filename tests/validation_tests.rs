use graph_cell_editor::{
    Canvas, CellContent, CellType, Rectangle, ValidatedCanvas, ValidationIssueType, ValidationSeverity, Validator,
};

fn cell(canvas: &mut Canvas, kind: CellType, x: i64, text: &str) -> u128 {
    canvas.create_cell(kind, Rectangle::new(x, 0, 100, 100), CellContent::inline(text))
}

#[test]
fn test_no_start_point_error() {
    let mut canvas = Canvas::new();
    cell(&mut canvas, CellType::Text, 0, "Test");
    let result = Validator::validate(&canvas);
    assert!(result.has_errors());
    assert_eq!(result.errors()[0].issue_type, ValidationIssueType::NoStartPoint);
}

#[test]
fn test_cycle_detection() {
    let mut canvas = Canvas::new();
    let cell1 = cell(&mut canvas, CellType::Python, 0, "pass");
    let cell2 = cell(&mut canvas, CellType::Python, 150, "pass");
    canvas.create_relationship(cell1, cell2).unwrap();
    canvas.create_relationship(cell2, cell1).unwrap();
    canvas.set_start_point(cell1).unwrap();

    let result = Validator::validate(&canvas);
    assert!(result.has_warnings());
    let warnings = result.warnings();
    assert!(warnings.iter().any(|w| w.issue_type == ValidationIssueType::Cycle));
}

#[test]
fn test_orphan_detection() {
    let mut canvas = Canvas::new();
    let cell1 = cell(&mut canvas, CellType::Python, 0, "pass");
    let _cell2 = cell(&mut canvas, CellType::Python, 150, "pass");
    canvas.set_start_point(cell1).unwrap();

    let result = Validator::validate(&canvas);
    assert!(result.has_warnings() || result.info().len() > 0);
    let info = result.info();
    assert!(info.iter().any(|i| i.issue_type == ValidationIssueType::OrphanCell));
}

#[test]
fn test_missing_cell_reference() {
    let mut canvas = Canvas::new();
    let c = cell(&mut canvas, CellType::Python, 0, "from cell:NonExistent import data");
    canvas.set_start_point(c).unwrap();

    let result = Validator::validate(&canvas);
    assert!(result.has_errors());
    let errors = result.errors();
    assert!(errors.iter().any(|e| e.issue_type == ValidationIssueType::MissingReference));
}

#[test]
fn test_valid_canvas() {
    let mut canvas = Canvas::with_root_cell(CellType::Python, Rectangle::new(0, 0, 100, 100), CellContent::inline("set_output(42)"));
    let root = canvas.root_cell().unwrap();
    canvas.set_start_point(root).unwrap();

    let result = Validator::validate(&canvas);
    assert!(result.is_valid());
    assert!(!result.has_errors());
}

#[test]
fn test_cells_with_issues() {
    let mut canvas = Canvas::new();
    let c = cell(&mut canvas, CellType::Python, 0, "from cell:Missing import data");
    canvas.set_start_point(c).unwrap();

    let result = canvas.validate();
    let cells_with_issues = canvas.cells_with_issues(&result);

    let found = cells_with_issues.iter().find(|(id, _)| *id == c);
    assert!(found.is_some());
    assert_eq!(found.unwrap().1, ValidationSeverity::Error);
}

#[test]
fn validation_details() {
    let mut canvas = Canvas::new();
    let a = cell(&mut canvas, CellType::Python, 0, "x = 1\nfrom cell:Helper import f\nimport cell:Gone\nuse cell:Helper");
    let helper = cell(&mut canvas, CellType::Python, 100, "pass");
    let b = cell(&mut canvas, CellType::Text, 200, "b");
    let c = cell(&mut canvas, CellType::Text, 300, "c");
    let lone = cell(&mut canvas, CellType::Text, 400, "lone");
    canvas.rename_cell(helper, Some("Helper".to_string())).unwrap();
    canvas.create_relationship(a, b).unwrap();
    canvas.create_relationship(b, c).unwrap();
    canvas.create_relationship(c, b).unwrap();
    canvas.create_relationship(a, helper).unwrap();
    canvas.set_start_point(a).unwrap();

    let result = canvas.validate();
    let cycle = result.issues.iter().find(|i| i.issue_type == ValidationIssueType::Cycle).unwrap();
    assert_eq!(cycle.severity, ValidationSeverity::Warning);
    let mut ids = cycle.affected_cells.clone();
    ids.sort();
    let mut expected = vec![b, c];
    expected.sort();
    assert_eq!(ids, expected);

    let orphan = result.issues.iter().find(|i| i.issue_type == ValidationIssueType::OrphanCell).unwrap();
    assert_eq!(orphan.affected_cells, vec![lone]);

    let missing = result.issues.iter().find(|i| i.issue_type == ValidationIssueType::MissingReference).unwrap();
    assert_eq!(missing.affected_cells, vec![a]);
    assert_eq!(missing.message, "Missing cell references: cell:Gone");
    assert!(!result.issues.iter().any(|i| i.issue_type == ValidationIssueType::NoStartPoint));

    let worst = canvas.cells_with_issues(&result);
    let sev = |id: u128| worst.iter().find(|(x, _)| *x == id).map(|(_, s)| *s);
    assert_eq!(sev(a), Some(ValidationSeverity::Error));
    assert_eq!(sev(b), Some(ValidationSeverity::Warning));
    assert_eq!(sev(lone), Some(ValidationSeverity::Info));
    assert_eq!(sev(helper), None);
    assert!(Validator::validate(&Canvas::new()).issues.is_empty());
}

#[test]
fn every_dangling_reference_is_reported_once() {
    let mut canvas = Canvas::new();
    let c = cell(&mut canvas, CellType::Python, 0, "use cell:Gone and cell:Lost; again cell:Gone\ncell:");
    canvas.set_start_point(c).unwrap();
    let result = Validator::validate(&canvas);
    let missing = result.issues.iter().find(|i| i.issue_type == ValidationIssueType::MissingReference).unwrap();
    assert_eq!(missing.message, "Missing cell references: cell:Gone, cell:Lost");
}
