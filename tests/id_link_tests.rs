use graph_cell_editor::markdown_links::{get_link_at_position, parse_cell_links};
use graph_cell_editor::IdGenerator;

#[test]
fn test_basic_generation() {
    let mut gen = IdGenerator::new();
    assert_eq!(gen.next(), "00");
    assert_eq!(gen.next(), "01");
    assert_eq!(gen.next(), "02");
}

#[test]
fn test_expansion() {
    let mut gen = IdGenerator::with_length(1);
    for _ in 0..36 {
        let id = gen.next();
        assert_eq!(id.len(), 1);
    }
    let id = gen.next();
    assert_eq!(id.len(), 2);
    assert_eq!(id, "00");
}

#[test]
fn test_upgrade_id() {
    assert_eq!(IdGenerator::upgrade_id("A7"), "0A7");
    assert_eq!(IdGenerator::upgrade_id("2K"), "02K");
}

#[test]
fn test_from_existing() {
    let existing = vec!["A7".to_string(), "2K".to_string(), "ZZ".to_string()];

    let mut gen = IdGenerator::from_existing_ids(&existing);
    let next = gen.next();
    assert!(!existing.contains(&next));
}

#[test]
fn generator_continues_after_largest_id() {
    let existing = vec!["a7".to_string(), "B".to_string(), "1z".to_string()];
    let mut gen = IdGenerator::from_existing_ids(&existing);
    assert_eq!(gen.next(), "A8");
    let mut empty = IdGenerator::from_existing_ids(&Vec::new());
    assert_eq!(empty.next(), "00");
    let mut gen = IdGenerator::with_length(2);
    for _ in 0..11 {
        gen.next();
    }
    assert_eq!(gen.next(), "0B");
}

#[test]
fn test_parse_single_link() {
    let text = "Check out [[A7]] for more info";
    let links = parse_cell_links(text);
    assert_eq!(links.len(), 1);
    assert_eq!(links[0].target_id, "A7");
}

#[test]
fn test_parse_multiple_links() {
    let text = "See [[A7]] and [[B2]] for details";
    let links = parse_cell_links(text);
    assert_eq!(links.len(), 2);
    assert_eq!(links[0].target_id, "A7");
    assert_eq!(links[1].target_id, "B2");
}

#[test]
fn test_link_at_position() {
    let text = "Check out [[A7]] for more info";
    let link = get_link_at_position(text, 12);
    assert!(link.is_some());
    assert_eq!(link.unwrap().target_id, "A7");
}

#[test]
fn test_no_link_at_position() {
    let text = "Check out [[A7]] for more info";
    let link = get_link_at_position(text, 0);
    assert!(link.is_none());
}

#[test]
fn link_spans_and_edge_cases() {
    let links = parse_cell_links("x [[ B2 ]] [[]] [[a[b]] ]]");
    assert_eq!(links.len(), 2);
    assert_eq!(links[0].target_id, "B2");
    assert_eq!(links[0].start, 2);
    assert_eq!(links[0].end, 10);
    assert_eq!(links[0].full_text, "[[ B2 ]]");
    assert_eq!(links[1].target_id, "a[b");
    assert_eq!(links[1].full_text, "[[a[b]]");
    assert!(parse_cell_links("").is_empty());
    assert!(parse_cell_links("[[A7]").is_empty());
    assert!(get_link_at_position("[[A7]]", 6).is_none());
    assert!(get_link_at_position("[[A7]]", 5).is_some());
}

#[test]
fn link_targets_are_trimmed_of_unicode_space() {
    let links = parse_cell_links("[[\u{a0}A7\u{2003}\t]] and [[ B2]]");
    assert_eq!(links.len(), 2);
    assert_eq!(links[0].target_id, "A7");
    assert_eq!(links[1].target_id, "B2");
}
