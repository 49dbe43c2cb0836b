use graph_cell_editor::external::{range_fits, uses_mmap};
use graph_cell_editor::{Cell, CellContent, CellType, GraphEvent, EventType, Rectangle, Relationship, SplitDirection};

#[test]
fn test_cell_creation() {
    let cell = Cell::new(CellType::Text, Rectangle::new(0, 0, 100, 100), CellContent::inline("Hello"), "A1".to_string());

    assert_eq!(cell.cell_type, CellType::Text);
    assert_eq!(cell.bounds.x, 0);
    assert_eq!(cell.bounds.y, 0);
    assert_eq!(cell.bounds.width, 100);
    assert_eq!(cell.bounds.height, 100);
    assert_eq!(cell.content.as_str(), Some("Hello"));
    assert!(!cell.is_start_point);
    assert_eq!(cell.parent, None);
    assert!(cell.children.is_empty());
}

#[test]
fn test_rectangle_operations() {
    let rect1 = Rectangle::new(0, 0, 100, 100);
    let rect2 = Rectangle::new(50, 50, 100, 100);
    let rect3 = Rectangle::new(200, 200, 100, 100);

    assert!(rect1.intersects(&rect2));
    assert!(!rect1.intersects(&rect3));

    assert!(rect1.contains_point(50, 50));
    assert!(!rect1.contains_point(150, 150));

    assert_eq!(rect1.right(), 100);
    assert_eq!(rect1.bottom(), 100);
}

#[test]
fn test_cell_content() {
    let inline = CellContent::inline("test");
    assert_eq!(inline.as_str(), Some("test"));
    assert!(!inline.is_empty());

    let empty = CellContent::inline("");
    assert!(empty.is_empty());

    let external = CellContent::external("/path/to/file.txt".to_string(), "External file", false);
    assert_eq!(external.as_str(), None);
    assert!(!external.is_empty());
}

#[test]
fn test_cell_mutations() {
    let mut cell = Cell::new(CellType::Text, Rectangle::new(0, 0, 100, 100), CellContent::inline("Hello"), "A1".to_string());

    cell.set_name(Some("TestCell".to_string()));
    assert_eq!(cell.name, Some("TestCell".to_string()));

    cell.set_start_point(true);
    assert!(cell.is_start_point);

    cell.set_content(CellContent::inline("Updated"));
    assert_eq!(cell.content.as_str(), Some("Updated"));

    cell.set_type(CellType::Python);
    assert_eq!(cell.cell_type, CellType::Python);

    let new_bounds = Rectangle::new(10, 10, 200, 200);
    cell.set_bounds(new_bounds);
    assert_eq!(cell.bounds, new_bounds);

    let child_id = ulid::Ulid::new().0;
    cell.add_child(child_id);
    assert_eq!(cell.children.len(), 1);
    assert_eq!(cell.children[0], child_id);
    cell.add_child(child_id);
    assert_eq!(cell.children.len(), 1);

    let parent_id = ulid::Ulid::new().0;
    cell.set_parent(Some(parent_id));
    assert_eq!(cell.parent, Some(parent_id));
}

#[test]
fn test_event_creation() {
    let event = GraphEvent::new(EventType::CellCreated {
        id: ulid::Ulid::new().0,
        cell_type: CellType::Text,
        bounds: Rectangle::new(0, 0, 100, 100),
        name: Some("Test".to_string()),
    });

    assert!(event.timestamp <= chrono::Utc::now().timestamp_millis());
}

#[test]
fn test_split_direction() {
    let horizontal = SplitDirection::Horizontal;
    let vertical = SplitDirection::Vertical;

    assert_ne!(horizontal, vertical);
}

#[test]
fn test_relationship_creation() {
    let from_id = ulid::Ulid::new().0;
    let to_id = ulid::Ulid::new().0;
    let rel = Relationship::new(from_id, to_id);

    assert_eq!(rel.from, from_id);
    assert_eq!(rel.to, to_id);
}

#[test]
fn test_relationship_involves() {
    let from_id = ulid::Ulid::new().0;
    let to_id = ulid::Ulid::new().0;
    let other_id = ulid::Ulid::new().0;
    let rel = Relationship::new(from_id, to_id);

    assert!(rel.involves(from_id));
    assert!(rel.involves(to_id));
    assert!(!rel.involves(other_id));
}

#[test]
fn test_relationship_direction() {
    let from_id = ulid::Ulid::new().0;
    let to_id = ulid::Ulid::new().0;
    let rel = Relationship::new(from_id, to_id);

    assert!(rel.starts_from(from_id));
    assert!(!rel.starts_from(to_id));

    assert!(rel.ends_at(to_id));
    assert!(!rel.ends_at(from_id));
}

#[test]
fn test_relationship_reversed() {
    let from_id = ulid::Ulid::new().0;
    let to_id = ulid::Ulid::new().0;
    let rel = Relationship::new(from_id, to_id);
    let reversed = rel.reversed();

    assert_eq!(reversed.from, to_id);
    assert_eq!(reversed.to, from_id);
}

#[test]
fn external_file_rules() {
    assert!(!uses_mmap(10_000_000));
    assert!(uses_mmap(10_000_001));
    assert!(range_fits(0, 13, 13));
    assert!(!range_fits(1, 13, 13));
    assert!(!range_fits(usize::MAX, 2, u64::MAX));
}
