use graph_cell_editor::{
    Canvas, CanvasError, CellContent, CellType, EventType, Rectangle, SplitDirection, SplitRatio,
};

fn half() -> SplitRatio {
    SplitRatio { numerator: 1, denominator: 2 }
}

#[test]
fn test_canvas_creation() {
    let canvas = Canvas::new();
    assert_eq!(canvas.cell_count(), 0);
    assert_eq!(canvas.relationship_count(), 0);
}

#[test]
fn test_canvas_with_root_cell() {
    let canvas = Canvas::with_root_cell(
        CellType::Text,
        Rectangle::new(0, 0, 100, 100),
        CellContent::inline("Root"),
    );
    assert_eq!(canvas.cell_count(), 1);
    assert!(canvas.root_cell().is_some());
}

#[test]
fn test_cell_crud() {
    let mut canvas = Canvas::new();
    let id = canvas.create_cell(CellType::Text, Rectangle::new(0, 0, 100, 100), CellContent::inline("Test"));
    assert_eq!(canvas.cell_count(), 1);

    let cell = canvas.get_cell(id).unwrap();
    assert_eq!(cell.content.as_str(), Some("Test"));

    canvas.update_cell_content(id, CellContent::inline("Updated")).unwrap();
    let cell = canvas.get_cell(id).unwrap();
    assert_eq!(cell.content.as_str(), Some("Updated"));

    canvas.update_cell_type(id, CellType::Python).unwrap();
    let cell = canvas.get_cell(id).unwrap();
    assert_eq!(cell.cell_type, CellType::Python);

    canvas.rename_cell(id, Some("TestCell".to_string())).unwrap();
    let cell = canvas.get_cell(id).unwrap();
    assert_eq!(cell.name, Some("TestCell".to_string()));

    canvas.delete_cell(id).unwrap();
    assert_eq!(canvas.cell_count(), 0);
}

#[test]
fn test_relationship_crud() {
    let mut canvas = Canvas::new();
    let id1 = canvas.create_cell(CellType::Text, Rectangle::new(0, 0, 100, 100), CellContent::inline("Cell 1"));
    let id2 = canvas.create_cell(CellType::Text, Rectangle::new(150, 0, 100, 100), CellContent::inline("Cell 2"));

    canvas.create_relationship(id1, id2).unwrap();
    assert_eq!(canvas.relationship_count(), 1);

    let rel = canvas.get_relationship(id1, id2).unwrap();
    assert_eq!(rel.from, id1);
    assert_eq!(rel.to, id2);

    canvas.delete_relationship(id1, id2).unwrap();
    assert_eq!(canvas.relationship_count(), 0);
}

#[test]
fn test_split_cell_horizontal() {
    let mut canvas = Canvas::new();
    let id = canvas.create_cell(CellType::Text, Rectangle::new(0, 0, 100, 100), CellContent::inline("Parent"));

    let (child1, child2) = canvas.split_cell(id, SplitDirection::Horizontal, half()).unwrap();

    let parent = canvas.get_cell(id).unwrap();
    assert_eq!(parent.children.len(), 2);

    let c1 = canvas.get_cell(child1).unwrap();
    assert_eq!(c1.content.as_str(), Some("Parent"));
    assert_eq!(c1.bounds.height, 50);
    assert_eq!(c1.parent, Some(id));

    let c2 = canvas.get_cell(child2).unwrap();
    assert_eq!(c2.content.as_str(), Some(""));
    assert_eq!(c2.bounds.height, 50);
    assert_eq!(c2.parent, Some(id));

    assert_eq!(canvas.cell_count(), 3);
}

#[test]
fn test_split_cell_vertical() {
    let mut canvas = Canvas::new();
    let id = canvas.create_cell(CellType::Text, Rectangle::new(0, 0, 100, 100), CellContent::inline("Parent"));

    let (child1, child2) = canvas.split_cell(id, SplitDirection::Vertical, half()).unwrap();

    let c1 = canvas.get_cell(child1).unwrap();
    let c2 = canvas.get_cell(child2).unwrap();
    assert_eq!(c1.bounds.width, 50);
    assert_eq!(c2.bounds.width, 50);
}

#[test]
fn test_merge_cells() {
    let mut canvas = Canvas::new();
    let id1 = canvas.create_cell(CellType::Text, Rectangle::new(0, 0, 100, 100), CellContent::inline("Cell 1"));
    let id2 = canvas.create_cell(CellType::Text, Rectangle::new(100, 0, 100, 100), CellContent::inline("Cell 2"));

    let merged_id = canvas
        .merge_cells(vec![id1, id2], CellType::Text, CellContent::inline("Merged"))
        .unwrap();

    assert!(canvas.get_cell(id1).is_none());
    assert!(canvas.get_cell(id2).is_none());

    let merged = canvas.get_cell(merged_id).unwrap();
    assert_eq!(merged.content.as_str(), Some("Merged"));
    assert_eq!(merged.bounds.width, 200);

    assert_eq!(canvas.cell_count(), 1);
}

#[test]
fn test_adjacency_detection() {
    let r1 = Rectangle::new(0, 0, 100, 100);
    let r2 = Rectangle::new(100, 0, 100, 100);
    assert!(r1.adjacent(&r2));

    let r3 = Rectangle::new(0, 100, 100, 100);
    assert!(r1.adjacent(&r3));

    let r4 = Rectangle::new(200, 200, 100, 100);
    assert!(!r1.adjacent(&r4));

    let r5 = Rectangle::new(50, 50, 100, 100);
    assert!(!r1.adjacent(&r5));
}

#[test]
fn test_find_adjacent_cells() {
    let mut canvas = Canvas::new();
    let center = canvas.create_cell(CellType::Text, Rectangle::new(100, 100, 100, 100), CellContent::inline("Center"));
    let left = canvas.create_cell(CellType::Text, Rectangle::new(0, 100, 100, 100), CellContent::inline("Left"));
    let right = canvas.create_cell(CellType::Text, Rectangle::new(200, 100, 100, 100), CellContent::inline("Right"));
    let top = canvas.create_cell(CellType::Text, Rectangle::new(100, 0, 100, 100), CellContent::inline("Top"));
    let bottom = canvas.create_cell(CellType::Text, Rectangle::new(100, 200, 100, 100), CellContent::inline("Bottom"));
    let far_away = canvas.create_cell(CellType::Text, Rectangle::new(500, 500, 100, 100), CellContent::inline("Far"));

    let adjacent = canvas.find_adjacent_cells(center).unwrap();
    assert_eq!(adjacent.len(), 4);
    assert!(adjacent.contains(&left));
    assert!(adjacent.contains(&right));
    assert!(adjacent.contains(&top));
    assert!(adjacent.contains(&bottom));
    assert!(!adjacent.contains(&far_away));
}

#[test]
fn test_start_point() {
    let mut canvas = Canvas::new();
    let id1 = canvas.create_cell(CellType::Text, Rectangle::new(0, 0, 100, 100), CellContent::inline("Cell 1"));
    let id2 = canvas.create_cell(CellType::Text, Rectangle::new(150, 0, 100, 100), CellContent::inline("Cell 2"));

    canvas.set_start_point(id1).unwrap();
    assert!(canvas.get_cell(id1).unwrap().is_start_point);
    assert!(!canvas.get_cell(id2).unwrap().is_start_point);

    canvas.set_start_point(id2).unwrap();
    assert!(!canvas.get_cell(id1).unwrap().is_start_point);
    assert!(canvas.get_cell(id2).unwrap().is_start_point);
}

#[test]
fn canvas_test_event_logging() {
    let mut canvas = Canvas::new();
    canvas.create_cell(CellType::Text, Rectangle::new(0, 0, 100, 100), CellContent::inline("Test"));

    assert_eq!(canvas.events().len(), 1);

    match &canvas.events()[0].event {
        EventType::CellCreated { cell_type, .. } => {
            assert_eq!(*cell_type, CellType::Text);
        }
        _ => panic!("Expected CellCreated event"),
    }
}

#[test]
fn split_children_partition_parent_bounds() {
    let mut canvas = Canvas::new();
    let id = canvas.create_cell(CellType::Text, Rectangle::new(10, 20, 90, 100), CellContent::inline("P"));
    let third = SplitRatio { numerator: 1, denominator: 3 };
    let (a, b) = canvas.split_cell(id, SplitDirection::Horizontal, third).unwrap();
    let ra = canvas.get_cell(a).unwrap().bounds;
    let rb = canvas.get_cell(b).unwrap().bounds;
    assert_eq!(ra, Rectangle::new(10, 20, 90, 33));
    assert_eq!(rb, Rectangle::new(10, 53, 90, 67));
    assert_eq!(ra.bottom(), rb.y);
    assert_eq!(rb.bottom(), 120);

    let (c, d) = canvas.split_cell(b, SplitDirection::Vertical, SplitRatio { numerator: 2, denominator: 3 }).unwrap();
    let rc = canvas.get_cell(c).unwrap().bounds;
    let rd = canvas.get_cell(d).unwrap().bounds;
    assert_eq!(rc, Rectangle::new(10, 53, 60, 67));
    assert_eq!(rd, Rectangle::new(70, 53, 30, 67));
}

#[test]
fn split_rejects_bad_ratio_and_missing_cell() {
    let mut canvas = Canvas::new();
    let id = canvas.create_cell(CellType::Text, Rectangle::new(0, 0, 100, 100), CellContent::inline("P"));
    let whole = SplitRatio { numerator: 1, denominator: 1 };
    assert_eq!(canvas.split_cell(id, SplitDirection::Vertical, whole), Err(CanvasError::InvalidSplitRatio));
    let zero = SplitRatio { numerator: 0, denominator: 5 };
    assert_eq!(canvas.split_cell(id, SplitDirection::Vertical, zero), Err(CanvasError::InvalidSplitRatio));
    assert_eq!(canvas.split_cell(7, SplitDirection::Vertical, half()), Err(CanvasError::CellNotFound(7)));
    assert_eq!(canvas.cell_count(), 1);
}

#[test]
fn split_moves_start_flag_to_first_child() {
    let mut canvas = Canvas::new();
    let id = canvas.create_cell(CellType::Text, Rectangle::new(0, 0, 100, 100), CellContent::inline("P"));
    canvas.set_start_point(id).unwrap();
    let (a, b) = canvas.split_cell(id, SplitDirection::Horizontal, half()).unwrap();
    assert!(canvas.get_cell(a).unwrap().is_start_point);
    assert!(!canvas.get_cell(b).unwrap().is_start_point);
    assert!(!canvas.get_cell(id).unwrap().is_start_point);
    assert_eq!(canvas.get_start_point().unwrap().id, a);
}

#[test]
fn delete_removes_touching_relationships() {
    let mut canvas = Canvas::new();
    let a = canvas.create_cell(CellType::Text, Rectangle::new(0, 0, 10, 10), CellContent::inline("a"));
    let b = canvas.create_cell(CellType::Text, Rectangle::new(10, 0, 10, 10), CellContent::inline("b"));
    let c = canvas.create_cell(CellType::Text, Rectangle::new(20, 0, 10, 10), CellContent::inline("c"));
    canvas.create_relationship(a, b).unwrap();
    canvas.create_relationship(b, c).unwrap();
    canvas.create_relationship(c, a).unwrap();
    canvas.create_relationship(a, c).unwrap();
    assert_eq!(canvas.relationship_count(), 4);
    canvas.delete_cell(b).unwrap();
    assert_eq!(canvas.relationship_count(), 2);
    assert!(canvas.relationships().iter().all(|r| r.from != b && r.to != b));
    assert_eq!(canvas.delete_cell(b), Err(CanvasError::CellNotFound(b)));
}

#[test]
fn merge_covers_inputs_and_requires_two() {
    let mut canvas = Canvas::new();
    let a = canvas.create_cell(CellType::Text, Rectangle::new(0, 0, 50, 40), CellContent::inline("a"));
    let b = canvas.create_cell(CellType::Text, Rectangle::new(70, 30, 30, 50), CellContent::inline("b"));
    let c = canvas.create_cell(CellType::Text, Rectangle::new(500, 500, 5, 5), CellContent::inline("c"));
    canvas.create_relationship(a, c).unwrap();
    assert_eq!(canvas.merge_cells(vec![a], CellType::Text, CellContent::inline("m")), Err(CanvasError::TooFewCells));
    assert_eq!(canvas.merge_cells(vec![a, 99], CellType::Text, CellContent::inline("m")), Err(CanvasError::CellNotFound(99)));
    assert_eq!(canvas.cell_count(), 3);
    let m = canvas.merge_cells(vec![a, b], CellType::Math, CellContent::inline("m")).unwrap();
    let cell = canvas.get_cell(m).unwrap();
    assert_eq!(cell.bounds, Rectangle::new(0, 0, 100, 80));
    assert_eq!(cell.cell_type, CellType::Math);
    assert!(canvas.get_cell(a).is_none());
    assert!(canvas.get_cell(b).is_none());
    assert_eq!(canvas.cell_count(), 2);
    assert_eq!(canvas.relationship_count(), 0);
}

#[test]
fn set_start_point_twice_keeps_one_start() {
    let mut canvas = Canvas::new();
    let a = canvas.create_cell(CellType::Text, Rectangle::new(0, 0, 10, 10), CellContent::inline("a"));
    let _b = canvas.create_cell(CellType::Text, Rectangle::new(10, 0, 10, 10), CellContent::inline("b"));
    canvas.set_start_point(a).unwrap();
    canvas.set_start_point(a).unwrap();
    assert_eq!(canvas.cells().iter().filter(|c| c.is_start_point).count(), 1);
    assert_eq!(canvas.get_start_point().unwrap().id, a);
    assert_eq!(canvas.set_start_point(12345), Err(CanvasError::CellNotFound(12345)));
    assert_eq!(canvas.get_start_point().unwrap().id, a);
}

#[test]
fn relationship_errors() {
    let mut canvas = Canvas::new();
    let a = canvas.create_cell(CellType::Text, Rectangle::new(0, 0, 10, 10), CellContent::inline("a"));
    assert_eq!(canvas.create_relationship(a, a), Err(CanvasError::SelfRelationship));
    assert_eq!(canvas.create_relationship(a, 5), Err(CanvasError::CellNotFound(5)));
    assert_eq!(canvas.create_relationship(5, a), Err(CanvasError::CellNotFound(5)));
    assert_eq!(canvas.delete_relationship(a, 5), Err(CanvasError::RelationshipNotFound { from: a, to: 5 }));
    let b = canvas.create_cell(CellType::Text, Rectangle::new(10, 0, 10, 10), CellContent::inline("b"));
    canvas.create_relationship(a, b).unwrap();
    canvas.create_relationship(a, b).unwrap();
    assert_eq!(canvas.relationship_count(), 1);
    assert_eq!(canvas.get_outgoing_relationships(a).len(), 1);
    assert_eq!(canvas.get_incoming_relationships(b).len(), 1);
    assert_eq!(canvas.are_cells_adjacent(a, b), Ok(true));
}

#[test]
fn parts_round_trip() {
    let mut canvas = Canvas::with_root_cell(CellType::Text, Rectangle::new(0, 0, 400, 300), CellContent::inline("Root"));
    let root = canvas.root_cell().unwrap();
    let (top, bottom) = canvas.split_cell(root, SplitDirection::Horizontal, SplitRatio { numerator: 1, denominator: 2 }).unwrap();
    canvas.rename_cell(top, Some("Top".to_string())).unwrap();
    canvas.create_relationship(top, bottom).unwrap();
    canvas.set_start_point(top).unwrap();

    let cells = canvas.cells().clone();
    let rels = canvas.relationships().clone();
    let loaded = Canvas::from_parts(cells.clone(), rels.clone(), canvas.root_cell()).unwrap();
    assert_eq!(loaded.cells(), &cells);
    assert_eq!(loaded.relationships(), &rels);
    assert_eq!(loaded.root_cell(), Some(root));
    assert_eq!(loaded.get_start_point().unwrap().id, top);
    assert_eq!(loaded.events().len(), 0);

    let mut dup = cells.clone();
    dup.push(cells[0].clone());
    assert_eq!(Canvas::from_parts(dup, rels, None).err(), Some(CanvasError::InvalidParts));
}

#[test]
fn short_ids_are_assigned_in_order() {
    let mut canvas = Canvas::new();
    let a = canvas.create_cell(CellType::Text, Rectangle::new(0, 0, 10, 10), CellContent::inline("a"));
    let b = canvas.create_cell(CellType::Text, Rectangle::new(10, 0, 10, 10), CellContent::inline("b"));
    assert_eq!(canvas.get_cell(a).unwrap().short_id, "00");
    assert_eq!(canvas.get_cell(b).unwrap().short_id, "01");
    assert_eq!(canvas.get_cell_id_by_short_id("01"), Some(b));
    assert_eq!(canvas.get_cell_id_by_short_id("ZZ"), None);
}
