use tinymvt::geometry::GeomError;
use tinymvt::geometry::GeometryDecoder;
use tinymvt::geometry::GeometryEncoder;
use tinymvt::geometry::GEOM_COMMAND_LINE_TO;
use tinymvt::geometry::GEOM_COMMAND_MOVE_TO_WITH_COUNT1;
use tinymvt::geometry::unzigzag;
use tinymvt::geometry::zigzag;

#[test]
fn test_zigzag() {
    assert_eq!(zigzag(0), 0);
    assert_eq!(zigzag(-1), 1);
    assert_eq!(zigzag(1), 2);
    assert_eq!(zigzag(-2), 3);
    assert_eq!(zigzag(2), 4);
    assert_eq!(zigzag(4096), 8192);
    assert_eq!(zigzag(-4096), 8191);
}

#[test]
fn test_linestring_with_two_vertices() {
    // Test that linestrings with exactly 2 vertices work correctly
    let mut encoder = GeometryEncoder::new();
    encoder.add_linestring(&[(0, 0), (10, 10)]);
    let geometry = encoder.into_vec();

    // Expected: MoveTo(1) + coords(2) + LineTo(1) + coords(2)
    assert_eq!(geometry.len(), 6);
    assert_eq!(geometry[0], GEOM_COMMAND_MOVE_TO_WITH_COUNT1); // MoveTo with count=1
    assert_eq!(geometry[1], zigzag(0)); // dx = 0
    assert_eq!(geometry[2], zigzag(0)); // dy = 0
    assert_eq!(geometry[3], GEOM_COMMAND_LINE_TO | (1 << 3)); // LineTo with count=1
    assert_eq!(geometry[4], zigzag(10)); // dx = 10
    assert_eq!(geometry[5], zigzag(10)); // dy = 10
}

#[test]
fn test_linestring_with_duplicate_points_filtered() {
    // Test that duplicate consecutive points are filtered out
    // This simulates what happens at low zoom levels
    let mut encoder = GeometryEncoder::new();
    encoder.add_linestring(&[(0, 0), (0, 0), (0, 0)]);
    let geometry = encoder.into_vec();

    // Expected: MoveTo(1) + coords(2) + LineTo(1) + coords(2) [zero-length segment]
    assert_eq!(geometry.len(), 6);
    assert_eq!(geometry[0], GEOM_COMMAND_MOVE_TO_WITH_COUNT1);
    assert_eq!(geometry[3], GEOM_COMMAND_LINE_TO | (1 << 3)); // LineTo with count=1
    assert_eq!(geometry[4], 0); // dx = 0 (repeated point)
    assert_eq!(geometry[5], 0); // dy = 0 (repeated point)
}

#[test]
fn test_unzigzag() {
    assert_eq!(unzigzag(0), 0);
    assert_eq!(unzigzag(1), -1);
    assert_eq!(unzigzag(2), 1);
    assert_eq!(unzigzag(3), -2);
    assert_eq!(unzigzag(4), 2);
    assert_eq!(unzigzag(8192), 4096);
    assert_eq!(unzigzag(8191), -4096);
}

#[test]
fn test_zigzag_roundtrip() {
    for v in [-4096, -100, -1, 0, 1, 100, 4096] {
        assert_eq!(unzigzag(zigzag(v)), v);
    }
}

#[test]
fn test_zigzag_roundtrip_extremes() {
    for v in [i32::MIN, i32::MIN + 1, -1, 0, 1, i32::MAX - 1, i32::MAX] {
        assert_eq!(unzigzag(zigzag(v)), v);
    }
    assert_eq!(zigzag(i32::MIN), u32::MAX);
    assert_eq!(zigzag(i32::MAX), u32::MAX - 1);
}

#[test]
fn test_decode_points() {
    // Encode points
    let mut encoder = GeometryEncoder::new();
    let points = vec![(10, 20), (30, 40), (50, 60)];
    encoder.add_points(&points);
    let geometry = encoder.into_vec();

    // Decode points
    let mut decoder = GeometryDecoder::new(&geometry);
    let decoded = decoder.decode_points().unwrap();

    assert_eq!(decoded, points);
}

#[test]
fn test_points_with_duplicates_roundtrip() {
    // A run of identical consecutive points collapses to one surviving
    // point on the wire; decoding yields the de-duplicated set.
    let mut encoder = GeometryEncoder::new();
    encoder.add_points(&[(10, 20), (10, 20), (30, 40), (30, 40), (30, 40), (50, 60)]);
    let geometry = encoder.into_vec();

    let mut decoder = GeometryDecoder::new(&geometry);
    let decoded = decoder.decode_points().unwrap();

    assert_eq!(decoded, vec![(10, 20), (30, 40), (50, 60)]);
}

#[test]
fn test_decode_single_linestring() {
    // Encode a linestring
    let mut encoder = GeometryEncoder::new();
    let linestring = vec![(0, 0), (10, 10), (20, 20)];
    encoder.add_linestring(&linestring);
    let geometry = encoder.into_vec();

    // Decode linestring
    let mut decoder = GeometryDecoder::new(&geometry);
    let decoded = decoder.decode_linestrings().unwrap();

    assert_eq!(decoded.len(), 1);
    assert_eq!(decoded[0], linestring);
}

#[test]
fn test_decode_multiple_linestrings() {
    // Encode multiple linestrings
    let mut encoder = GeometryEncoder::new();
    let ls1 = vec![(0, 0), (10, 10)];
    let ls2 = vec![(100, 100), (110, 110), (120, 120)];
    encoder.add_linestring(&ls1);
    encoder.add_linestring(&ls2);
    let geometry = encoder.into_vec();

    // Decode linestrings
    let mut decoder = GeometryDecoder::new(&geometry);
    let decoded = decoder.decode_linestrings().unwrap();

    assert_eq!(decoded.len(), 2);
    assert_eq!(decoded[0], ls1);
    assert_eq!(decoded[1], ls2);
}

#[test]
fn test_degenerate_linestring_roundtrip() {
    // A fully collapsed linestring still decodes to a line, with its
    // single surviving vertex repeated by the explicit zero delta.
    let mut encoder = GeometryEncoder::new();
    encoder.add_linestring(&[(7, 8), (7, 8), (7, 8)]);
    let geometry = encoder.into_vec();

    let mut decoder = GeometryDecoder::new(&geometry);
    let decoded = decoder.decode_linestrings().unwrap();

    assert_eq!(decoded, vec![vec![(7, 8), (7, 8)]]);
}

#[test]
fn test_decode_polygon_single_ring() {
    // Encode a simple polygon (exterior ring only)
    let mut encoder = GeometryEncoder::new();
    let ring = vec![(0, 0), (100, 0), (100, 100), (0, 100)];
    encoder.add_ring(&ring);
    let geometry = encoder.into_vec();

    // Decode polygon
    let mut decoder = GeometryDecoder::new(&geometry);
    let decoded = decoder.decode_polygons().unwrap();

    assert_eq!(decoded.len(), 1);
    assert_eq!(decoded[0].len(), 1);
    assert_eq!(decoded[0][0], ring);
}

#[test]
fn test_decode_polygon_with_holes() {
    // Encode a polygon with holes
    let mut encoder = GeometryEncoder::new();
    // Holes must be counter-clockwise (reverse order)
    let exterior = vec![(0, 0), (100, 0), (100, 100), (0, 100)]; // clockwise
    let hole1 = vec![(10, 10), (10, 20), (20, 20), (20, 10)]; // counter-clockwise
    let hole2 = vec![(30, 30), (30, 40), (40, 40), (40, 30)]; // counter-clockwise
    encoder.add_ring(&exterior);
    encoder.add_ring(&hole1);
    encoder.add_ring(&hole2);
    let geometry = encoder.into_vec();

    // Decode polygon
    let mut decoder = GeometryDecoder::new(&geometry);
    let decoded = decoder.decode_polygons().unwrap();

    assert_eq!(decoded.len(), 1);
    assert_eq!(decoded[0].len(), 3);
    assert_eq!(decoded[0][0], exterior);
    assert_eq!(decoded[0][1], hole1);
    assert_eq!(decoded[0][2], hole2);
}

#[test]
fn test_decode_multiple_polygons() {
    // Encode multiple polygons
    let mut encoder = GeometryEncoder::new();

    // First polygon with hole
    let poly1_ring1 = vec![(0, 0), (50, 0), (50, 50), (0, 50)]; // clockwise exterior
    let poly1_ring2 = vec![(10, 10), (10, 20), (20, 20), (20, 10)]; // counter-clockwise hole
    encoder.add_ring(&poly1_ring1);
    encoder.add_ring(&poly1_ring2);

    // Second polygon (simple)
    let poly2_ring1 = vec![(100, 100), (150, 100), (150, 150), (100, 150)]; // clockwise exterior
    encoder.add_ring(&poly2_ring1);

    let geometry = encoder.into_vec();

    // Decode polygons
    let mut decoder = GeometryDecoder::new(&geometry);
    let decoded = decoder.decode_polygons().unwrap();

    // With proper signed area detection, we should get 2 separate polygons
    // poly1_ring1 is clockwise (exterior), poly1_ring2 is counter-clockwise (hole), poly2_ring1 is clockwise (exterior)
    assert_eq!(decoded.len(), 2);
    assert_eq!(decoded[0].len(), 2); // First polygon with 1 exterior + 1 hole
    assert_eq!(decoded[0][0], poly1_ring1);
    assert_eq!(decoded[0][1], poly1_ring2);
    assert_eq!(decoded[1].len(), 1); // Second polygon with just 1 exterior
    assert_eq!(decoded[1][0], poly2_ring1);
}

#[test]
fn test_small_ring_appended_to_open_polygon() {
    // A ring with fewer than 3 vertices has its area forced to 0, so it
    // classifies as interior and never starts a new polygon.
    let mut encoder = GeometryEncoder::new();
    let exterior = vec![(0, 0), (100, 0), (100, 100), (0, 100)];
    let tiny = vec![(5, 5), (6, 6)];
    encoder.add_ring(&exterior);
    encoder.add_ring(&tiny);
    let geometry = encoder.into_vec();

    let mut decoder = GeometryDecoder::new(&geometry);
    let decoded = decoder.decode_polygons().unwrap();

    assert_eq!(decoded.len(), 1);
    assert_eq!(decoded[0].len(), 2);
    assert_eq!(decoded[0][0], exterior);
    assert_eq!(decoded[0][1], tiny);
}

#[test]
fn test_points_rejects_other_commands() {
    // A geometry whose first command is LineTo is not a point geometry.
    let buf = [GEOM_COMMAND_LINE_TO | (1 << 3), 0, 0];
    let mut decoder = GeometryDecoder::new(&buf);
    assert_eq!(decoder.decode_points(), Err(GeomError::UnexpectedCommand(2)));
}

#[test]
fn test_linestring_rejects_leading_lineto() {
    let buf = [GEOM_COMMAND_LINE_TO | (1 << 3), 0, 0];
    let mut decoder = GeometryDecoder::new(&buf);
    assert_eq!(decoder.decode_linestrings(), Err(GeomError::ExpectedMoveTo(2)));
}

#[test]
fn test_linestring_rejects_moveto_count_two() {
    // MoveTo with count 2 is invalid in a linestring context.
    let buf = [
        (2 << 3) | 1, // MoveTo, count 2
        0,
        0,
        2,
        2,
    ];
    let mut decoder = GeometryDecoder::new(&buf);
    assert_eq!(decoder.decode_linestrings(), Err(GeomError::MoveToCountNotOne(2)));
}

#[test]
fn test_linestring_rejects_missing_lineto() {
    // MoveTo, its coordinate, then a ClosePath where LineTo is required.
    let buf = [GEOM_COMMAND_MOVE_TO_WITH_COUNT1, 0, 0, 15];
    let mut decoder = GeometryDecoder::new(&buf);
    assert_eq!(decoder.decode_linestrings(), Err(GeomError::ExpectedLineTo(7)));
}

#[test]
fn test_linestring_truncated_after_moveto() {
    let buf = [GEOM_COMMAND_MOVE_TO_WITH_COUNT1, 0, 0];
    let mut decoder = GeometryDecoder::new(&buf);
    assert_eq!(decoder.decode_linestrings(), Err(GeomError::EndAfterMoveTo));
}

#[test]
fn test_truncated_coordinates() {
    // MoveTo announces one coordinate pair but only one word follows.
    let buf = [GEOM_COMMAND_MOVE_TO_WITH_COUNT1, 0];
    let mut decoder = GeometryDecoder::new(&buf);
    assert_eq!(decoder.decode_points(), Err(GeomError::EndOfCoordinates));
}

#[test]
fn test_polygon_rejects_missing_closepath() {
    // A full linestring encoding is not a valid polygon ring: after the
    // LineTo run a ClosePath must follow.
    let mut encoder = GeometryEncoder::new();
    encoder.add_linestring(&[(0, 0), (10, 0), (10, 10)]);
    let geometry = encoder.into_vec();
    let mut decoder = GeometryDecoder::new(&geometry);
    assert_eq!(decoder.decode_polygons(), Err(GeomError::EndAfterLineTo));
}

#[test]
fn test_polygon_rejects_wrong_trailer() {
    // MoveTo + LineTo run followed by another MoveTo instead of ClosePath.
    let buf = [
        GEOM_COMMAND_MOVE_TO_WITH_COUNT1,
        0,
        0,
        GEOM_COMMAND_LINE_TO | (1 << 3),
        2,
        2,
        GEOM_COMMAND_MOVE_TO_WITH_COUNT1,
    ];
    let mut decoder = GeometryDecoder::new(&buf);
    assert_eq!(decoder.decode_polygons(), Err(GeomError::ExpectedClosePath(1)));
}

#[test]
fn test_cursor_persists_across_geometries() {
    // The cursor carries over between add calls on one encoder: the
    // second linestring starts with a delta from the first one's end.
    let mut encoder = GeometryEncoder::new();
    encoder.add_linestring(&[(0, 0), (10, 10)]);
    encoder.add_linestring(&[(11, 11), (20, 20)]);
    let geometry = encoder.into_vec();
    // second MoveTo delta is (1, 1) relative to (10, 10)
    assert_eq!(geometry[6], GEOM_COMMAND_MOVE_TO_WITH_COUNT1);
    assert_eq!(geometry[7], zigzag(1));
    assert_eq!(geometry[8], zigzag(1));
}
