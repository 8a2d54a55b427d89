use tinymvt::tileid::hilbert::hilbert_to_zxy;
use tinymvt::tileid::hilbert::zxy_to_hilbert;

#[test]
fn roundtrip() {
    let fixture: Vec<((u8, u32, u32), u64)> = vec![
        // ((x, y, z), expected_tile_id)
        //
        // z = 0
        ((0, 0, 0), 0),
        // z = 1
        ((1, 0, 0), 1),
        ((1, 0, 1), 2),
        ((1, 1, 1), 3),
        ((1, 1, 0), 4),
        // z = 2
        ((2, 0, 1), 8),
        ((2, 1, 1), 7),
        ((2, 2, 0), 19),
        ((2, 3, 3), 15),
        ((2, 3, 2), 16),
        // z= 3
        ((3, 0, 0), 21),
        ((3, 7, 0), 84),
        // z = 4
        ((4, 0, 0), 85),
        ((4, 15, 0), 340),
        // z = 18 (tileId exceeds u32)
        ((18, 1, 1), 22906492247),
        // z = 31
        ((31, 100, 100), 1537228672809139573),
    ];

    for ((x, y, z), expected_tile_id) in fixture {
        let tile_id = zxy_to_hilbert(x, y, z);
        assert_eq!(tile_id, expected_tile_id);
        assert_eq!(hilbert_to_zxy(tile_id), (x, y, z));
    }
}

#[test]
fn zoom_level_boundaries() {
    // The first and last ids of the lowest zoom levels.
    assert_eq!(hilbert_to_zxy(0), (0, 0, 0));
    assert_eq!(hilbert_to_zxy(1).0, 1);
    assert_eq!(hilbert_to_zxy(4).0, 1);
    assert_eq!(hilbert_to_zxy(5).0, 2);
    assert_eq!(hilbert_to_zxy(20).0, 2);
    assert_eq!(hilbert_to_zxy(21).0, 3);
}
