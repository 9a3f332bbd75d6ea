use kreuzberg::pdf::{LayoutHintClass, SegmentData};
use kreuzberg::pdf_regions::{
    assign_segments_to_regions, detect_region_column_split, order_regions_reading_order, LayoutHint, LayoutRegion,
};

// Coordinates in hundredths of a point, confidences in thousandths.
fn make_segment(text: &str, x: i64, y: i64, width: i64, height: i64) -> SegmentData {
    SegmentData {
        text: text.to_string(),
        x,
        y,
        width,
        height,
        font_size: height,
        is_bold: false,
        is_italic: false,
        is_monospace: false,
        baseline_y: y,
    }
}

fn make_hint(class: LayoutHintClass, confidence: u32, left: i64, bottom: i64, right: i64, top: i64) -> LayoutHint {
    LayoutHint { class, confidence_millis: confidence, left, bottom, right, top }
}

const SAME_ROW: u32 = 20;

#[test]
fn test_assign_segments_single_region() {
    let segments = vec![make_segment("Hello", 1000, 70000, 4000, 1200), make_segment("world", 5500, 70000, 4000, 1200)];
    let hints = vec![make_hint(LayoutHintClass::Text, 900, 0, 69000, 20000, 72000)];
    let (regions, unassigned) = assign_segments_to_regions(&segments, &hints, 500);
    assert_eq!(regions.len(), 1);
    assert_eq!(regions[0].segment_indices.len(), 2);
    assert!(unassigned.is_empty());
}

#[test]
fn test_assign_segments_two_columns() {
    let segments = vec![make_segment("Left", 1000, 70000, 4000, 1200), make_segment("Right", 30000, 70000, 4000, 1200)];
    let hints = vec![
        make_hint(LayoutHintClass::Text, 900, 0, 69000, 20000, 72000),
        make_hint(LayoutHintClass::Text, 900, 25000, 69000, 50000, 72000),
    ];
    let (regions, unassigned) = assign_segments_to_regions(&segments, &hints, 500);
    assert_eq!(regions.len(), 2);
    assert_eq!(regions[0].segment_indices.len(), 1);
    assert_eq!(regions[1].segment_indices.len(), 1);
    assert!(unassigned.is_empty());
}

#[test]
fn test_assign_segments_unassigned() {
    let segments = vec![make_segment("Inside", 1000, 70000, 4000, 1200), make_segment("Outside", 50000, 10000, 4000, 1200)];
    let hints = vec![make_hint(LayoutHintClass::Text, 900, 0, 69000, 20000, 72000)];
    let (regions, unassigned) = assign_segments_to_regions(&segments, &hints, 500);
    assert_eq!(regions[0].segment_indices.len(), 1);
    assert_eq!(unassigned.len(), 1);
}

#[test]
fn test_assign_segments_smallest_area_wins() {
    let segments = vec![make_segment("text", 5000, 70000, 4000, 1200)];
    let hints = vec![
        make_hint(LayoutHintClass::Text, 900, 0, 0, 60000, 80000),      // large
        make_hint(LayoutHintClass::Code, 900, 3000, 69000, 20000, 72000), // small
    ];
    let (regions, _) = assign_segments_to_regions(&segments, &hints, 500);
    // Segment should be in the Code region (smaller area)
    assert!(regions[0].segment_indices.is_empty()); // Text (large)
    assert_eq!(regions[1].segment_indices.len(), 1); // Code (small)
}

#[test]
fn test_reading_order_two_columns() {
    let hints = vec![
        make_hint(LayoutHintClass::Text, 900, 30000, 40000, 55000, 70000), // right column
        make_hint(LayoutHintClass::Text, 900, 1000, 40000, 25000, 70000),  // left column
    ];
    let mut regions: Vec<LayoutRegion> = hints.iter().map(|h| LayoutRegion { hint: *h, segment_indices: Vec::new() }).collect();
    order_regions_reading_order(&mut regions, 80000, SAME_ROW);
    // Left column should come first (same y-band, smaller x)
    assert!(regions[0].hint.left < regions[1].hint.left);
}

#[test]
fn test_reading_order_vertical() {
    let hints = vec![
        make_hint(LayoutHintClass::Text, 900, 1000, 10000, 50000, 30000),  // bottom
        make_hint(LayoutHintClass::Title, 900, 1000, 60000, 50000, 75000), // top
    ];
    let mut regions: Vec<LayoutRegion> = hints.iter().map(|h| LayoutRegion { hint: *h, segment_indices: Vec::new() }).collect();
    order_regions_reading_order(&mut regions, 80000, SAME_ROW);
    // Title (top of page, higher Y) should come first
    assert_eq!(regions[0].hint.class, LayoutHintClass::Title);
}

#[test]
fn test_low_confidence_hints_ignored() {
    let segments = vec![make_segment("text", 1000, 70000, 4000, 1200)];
    let hints = vec![make_hint(LayoutHintClass::Code, 300, 0, 69000, 20000, 72000)];
    let (regions, unassigned) = assign_segments_to_regions(&segments, &hints, 500);
    assert!(regions.is_empty());
    assert_eq!(unassigned.len(), 1);
}

#[test]
fn test_table_regions_excluded_from_text() {
    // Segments within Table bboxes are dropped entirely (extracted separately).
    let segments = vec![make_segment("text", 1000, 70000, 4000, 1200)];
    let hints = vec![make_hint(LayoutHintClass::Table, 900, 0, 69000, 20000, 72000)];
    let (regions, unassigned) = assign_segments_to_regions(&segments, &hints, 500);
    assert!(regions.is_empty());
    assert_eq!(unassigned.len(), 0); // dropped, not unassigned
}

#[test]
fn test_picture_regions_excluded_from_regions_but_unassigned() {
    // Picture regions are excluded from region assignment but segments
    // go to unassigned (no separate text extraction for pictures).
    let segments = vec![make_segment("text", 1000, 70000, 4000, 1200)];
    let hints = vec![make_hint(LayoutHintClass::Picture, 900, 0, 69000, 20000, 72000)];
    let (regions, unassigned) = assign_segments_to_regions(&segments, &hints, 500);
    assert!(regions.is_empty());
    assert_eq!(unassigned.len(), 1); // still goes to fallback
}

#[test]
fn blank_segments_are_dropped_unless_nothing_takes_text() {
    let segments = vec![make_segment("   ", 1000, 70000, 4000, 1200), make_segment("x", 1000, 70000, 4000, 1200)];
    let hints = vec![make_hint(LayoutHintClass::Text, 900, 0, 69000, 20000, 72000)];
    let (regions, unassigned) = assign_segments_to_regions(&segments, &hints, 500);
    assert_eq!(regions[0].segment_indices, vec![1]);
    assert!(unassigned.is_empty());
    let (none, all) = assign_segments_to_regions(&segments, &vec![], 500);
    assert!(none.is_empty());
    assert_eq!(all, vec![0, 1]);
}

fn region(left: i64, bottom: i64, right: i64, top: i64) -> LayoutRegion {
    LayoutRegion { hint: make_hint(LayoutHintClass::Text, 900, left, bottom, right, top), segment_indices: Vec::new() }
}

#[test]
fn two_columns_are_read_one_after_the_other() {
    let mut regions = vec![
        region(30000, 40000, 55000, 50000), // right, bottom
        region(1000, 40000, 25000, 50000),  // left, bottom
        region(30000, 60000, 55000, 70000), // right, top
        region(1000, 60000, 25000, 70000),  // left, top
    ];
    assert_eq!(detect_region_column_split(&regions), Some(55000));
    order_regions_reading_order(&mut regions, 80000, SAME_ROW);
    let order: Vec<(i64, i64)> = regions.iter().map(|r| (r.hint.left, r.hint.top)).collect();
    assert_eq!(order, vec![(1000, 70000), (1000, 50000), (30000, 70000), (30000, 50000)]);
}

#[test]
fn no_columns_without_enough_regions_or_gap() {
    let three = vec![region(1000, 40000, 25000, 50000), region(30000, 40000, 55000, 50000), region(1000, 60000, 25000, 70000)];
    assert_eq!(detect_region_column_split(&three), None);
    let narrow_gap = vec![
        region(1000, 40000, 25000, 50000),
        region(25300, 40000, 55000, 50000),
        region(1000, 60000, 25000, 70000),
        region(25300, 60000, 55000, 70000),
    ];
    assert_eq!(detect_region_column_split(&narrow_gap), None);
}

#[test]
fn column_split_stays_clear_of_every_region() {
    let regions = vec![
        region(1000, 40000, 25000, 50000),
        region(31000, 40000, 55000, 50000),
        region(2000, 60000, 24000, 70000),
        region(30000, 60000, 54000, 70000),
        region(1500, 45000, 20000, 68000),
    ];
    let split = detect_region_column_split(&regions).unwrap();
    assert_eq!(split, 55000);
    for r in &regions {
        assert!(2 * r.hint.right as i128 <= split - 500 || 2 * r.hint.left as i128 >= split + 500);
    }
}
