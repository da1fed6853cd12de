use overlay_canvas::geometry::{circle_points, line_points};

#[test]
fn degenerate_line_is_single_point() {
    assert_eq!(line_points(5, 7, 5, 7), vec![(5, 7)]);
    assert_eq!(line_points(-3, 0, -3, 0), vec![(-3, 0)]);
}

#[test]
fn shallow_line_exact_points() {
    assert_eq!(line_points(0, 0, 3, 1), vec![(0, 0), (1, 0), (2, 1), (3, 1)]);
}

#[test]
fn line_length_is_major_axis_plus_one() {
    assert_eq!(line_points(0, 0, 4, 3).len(), 5);
    assert_eq!(line_points(0, 0, 0, 9).len(), 10);
    assert_eq!(line_points(2, 2, -5, 2).len(), 8);
    assert_eq!(line_points(0, 0, 6, -6).len(), 7);
}

#[test]
fn line_length_is_direction_symmetric() {
    let cases = [
        ((0, 0), (4, 3)),
        ((1, 9), (-7, 2)),
        ((0, 0), (0, 0)),
        ((100, 50), (3, 80)),
    ];
    for ((x1, y1), (x2, y2)) in cases {
        assert_eq!(
            line_points(x1, y1, x2, y2).len(),
            line_points(x2, y2, x1, y1).len()
        );
    }
}

#[test]
fn line_is_connected_and_hits_endpoints() {
    let pts = line_points(-4, 10, 9, -3);
    assert_eq!(*pts.first().unwrap(), (-4, 10));
    assert_eq!(*pts.last().unwrap(), (9, -3));
    for w in pts.windows(2) {
        let dx = (w[1].0 - w[0].0).abs();
        let dy = (w[1].1 - w[0].1).abs();
        assert!(dx <= 1 && dy <= 1);
        assert!(dx + dy >= 1);
    }
}

#[test]
fn footprint_size_one_is_center() {
    assert_eq!(circle_points(12, -7, 1), vec![(12, -7)]);
}

#[test]
fn footprint_nonempty_and_duplicate_free_for_all_sizes() {
    for size in 1..=10u32 {
        let pts = circle_points(0, 0, size);
        assert!(!pts.is_empty());
        let mut seen = pts.clone();
        seen.sort();
        seen.dedup();
        assert_eq!(seen.len(), pts.len());
        // every footprint contains its center
        assert!(pts.contains(&(0, 0)));
    }
}

#[test]
fn footprint_matches_disc_rule() {
    // size 3: radius 2, offsets with dx*dx + dy*dy < 6
    let pts = circle_points(0, 0, 3);
    for dx in -3i32..=3 {
        for dy in -3i32..=3 {
            let inside = dx * dx + dy * dy < 6;
            assert_eq!(pts.contains(&(dx, dy)), inside, "offset ({dx},{dy})");
        }
    }
}

#[test]
fn footprint_is_translated_by_center() {
    let at_origin = circle_points(0, 0, 4);
    let moved = circle_points(100, -40, 4);
    assert_eq!(at_origin.len(), moved.len());
    for (a, b) in at_origin.iter().zip(moved.iter()) {
        assert_eq!((a.0 + 100, a.1 - 40), *b);
    }
}

#[test]
fn steep_line_exact_points() {
    assert_eq!(
        line_points(0, 0, 4, 3),
        vec![(0, 0), (1, 1), (2, 1), (3, 2), (4, 3)]
    );
}

#[test]
fn footprint_size_two_exact_cells() {
    assert_eq!(
        circle_points(5, 5, 2),
        vec![(4, 5), (5, 4), (5, 5), (5, 6), (6, 5)]
    );
}
