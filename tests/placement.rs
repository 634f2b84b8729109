use board_picking::board::NUM_PIECES;
use board_picking::placement::{
    camera_pose, piece_label, piece_placement, placements, point_light, Point3,
    BOARD_HEIGHT, BOARD_ORIGIN_I, BOARD_ORIGIN_J, BOARD_SLOT_FACTOR, PIECE_1_SCALE,
    PIECE_ROTATION_Y_DEGREES,
};

#[test]
fn first_slot_stands_at_origin() {
    let p = piece_placement(0);
    assert_eq!(p.slot, 0);
    assert_eq!(p.translation, Point3 { x: -172, y: 145, z: 13 });
    assert_eq!(p.rotation_y_degrees, -90);
    assert_eq!(p.scale, 9);
    assert_eq!(p.label, "Piece 0");
}

#[test]
fn last_slot_is_nine_steps_along() {
    let p = piece_placement(9);
    assert_eq!(p.translation, Point3 { x: 8, y: 145, z: 13 });
    assert_eq!(p.label, "Piece 9");
}

#[test]
fn every_placement_follows_the_slot_formula() {
    let all = placements();
    assert_eq!(all.len(), NUM_PIECES);
    for (i, p) in all.iter().enumerate() {
        assert_eq!(p.slot, i);
        assert_eq!(p.translation.x, BOARD_ORIGIN_I + i as i64 * BOARD_SLOT_FACTOR);
        assert_eq!(p.translation.y, BOARD_HEIGHT);
        assert_eq!(p.translation.z, BOARD_ORIGIN_J);
        assert_eq!(p.rotation_y_degrees, PIECE_ROTATION_Y_DEGREES);
        assert_eq!(p.scale, PIECE_1_SCALE);
        assert_eq!(p.label, format!("Piece {}", i));
    }
}

#[test]
fn labels_have_all_decimal_digits() {
    assert_eq!(piece_label(0), "Piece 0");
    assert_eq!(piece_label(10), "Piece 10");
    assert_eq!(piece_label(12345), "Piece 12345");
    assert_eq!(piece_label(usize::MAX), format!("Piece {}", usize::MAX));
}

#[test]
fn camera_and_light_poses() {
    let cam = camera_pose();
    assert_eq!(cam.position, Point3 { x: -80, y: 250, z: 150 });
    assert_eq!(cam.focus, Point3 { x: -95, y: 80, z: -50 });
    let light = point_light();
    assert_eq!(light.position, Point3 { x: 400, y: 1000, z: 400 });
    assert_eq!(light.intensity, 3500);
    assert_eq!(light.range, 3000);
    assert!(light.shadows_enabled);
}
