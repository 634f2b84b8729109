use vstd::prelude::*;
use vstd::string::StringExecFns;
use crate::board::NUM_PIECES;

verus! {

// Lengths are in hundredths of a world unit, so that the board's
// coordinates are exact integers.

/// Horizontal coordinate of the first board slot.
pub const BOARD_ORIGIN_I: i64 = -172;

/// Depth coordinate of the first board row.
pub const BOARD_ORIGIN_J: i64 = 13;

/// Height of the board's surface.
pub const BOARD_HEIGHT: i64 = 145;

/// Distance between two neighbouring slots.
pub const BOARD_SLOT_FACTOR: i64 = 20;

/// Uniform scale of a piece model.
pub const PIECE_1_SCALE: i64 = 9;

/// Rotation of every piece about the vertical axis, in degrees.
pub const PIECE_ROTATION_Y_DEGREES: i64 = -90;

/// A point in world space.
#[derive(Clone, Copy, Debug, PartialEq, Eq, Structural)]
pub struct Point3 {
    pub x: i64,
    pub y: i64,
    pub z: i64,
}

/// Where and how the piece of one slot is spawned.
#[derive(Debug)]
pub struct PiecePlacement {
    pub slot: usize,
    pub translation: Point3,
    pub rotation_y_degrees: i64,
    pub scale: i64,
    pub label: String,
}

/// The character of the decimal digit `d`.
pub open spec fn digit_char(d: int) -> char {
    seq!['0', '1', '2', '3', '4', '5', '6', '7', '8', '9'][d]
}

/// The decimal digits of `n`, most significant first.
pub open spec fn decimal(n: nat) -> Seq<char>
    decreases n,
{
    if n < 10 {
        seq![digit_char(n as int)]
    } else {
        decimal(n / 10) + seq![digit_char((n % 10) as int)]
    }
}

/// The label of the piece in slot `i`: "Piece " followed by `i` in decimal.
pub open spec fn label_of(i: nat) -> Seq<char> {
    seq!['P', 'i', 'e', 'c', 'e', ' '] + decimal(i)
}

/// Where the piece of slot `i` stands: its row is the first one.
pub open spec fn slot_translation(i: int) -> Point3 {
    Point3 {
        x: (BOARD_ORIGIN_I + i * BOARD_SLOT_FACTOR) as i64,
        y: BOARD_HEIGHT,
        z: (BOARD_ORIGIN_J + 0 * BOARD_SLOT_FACTOR) as i64,
    }
}

/// The one-character string of the digit `d`.
fn digit_str(d: usize) -> (r: &'static str)
    requires
        d < 10,
    ensures
        r@ == seq![digit_char(d as int)],
{
    let digits: &'static str = "0123456789";
    proof {
        reveal_strlit("0123456789");
        assert(digits@ =~= seq!['0', '1', '2', '3', '4', '5', '6', '7', '8', '9']);
    }
    let r = digits.substring_ascii(d, d + 1);
    assert(r@ =~= seq![digit_char(d as int)]);
    r
}

/// Appends the decimal digits of `n` to `s`.
fn push_decimal(s: &mut String, n: usize)
    ensures
        final(s)@ == old(s)@ + decimal(n as nat),
    decreases n,
{
    if n >= 10 {
        push_decimal(s, n / 10);
    }
    s.append(digit_str(n % 10));
    assert(final(s)@ =~= old(s)@ + decimal(n as nat)) by {
        if n < 10 {
            assert(n % 10 == n);
        }
    };
}

/// The label "Piece {i}" of the piece in slot `i`.
pub fn piece_label(i: usize) -> (r: String)
    ensures
        r@ == label_of(i as nat),
{
    let mut s = String::from_str("Piece ");
    proof {
        reveal_strlit("Piece ");
    }
    push_decimal(&mut s, i);
    assert(s@ =~= label_of(i as nat));
    s
}

/// The placement of the piece in slot `i`.
pub fn piece_placement(i: usize) -> (r: PiecePlacement)
    requires
        i < NUM_PIECES,
    ensures
        r.slot == i,
        r.translation == slot_translation(i as int),
        r.rotation_y_degrees == PIECE_ROTATION_Y_DEGREES,
        r.scale == PIECE_1_SCALE,
        r.label@ == label_of(i as nat),
{
    let x = BOARD_ORIGIN_I + (i as i64) * BOARD_SLOT_FACTOR;
    let z = BOARD_ORIGIN_J + 0 * BOARD_SLOT_FACTOR;
    PiecePlacement {
        slot: i,
        translation: Point3 { x, y: BOARD_HEIGHT, z },
        rotation_y_degrees: PIECE_ROTATION_Y_DEGREES,
        scale: PIECE_1_SCALE,
        label: piece_label(i),
    }
}

/// The placements of all pieces, slot `i` at index `i`.
pub fn placements() -> (r: Vec<PiecePlacement>)
    ensures
        r@.len() == NUM_PIECES,
        forall|i: int|
            0 <= i < NUM_PIECES ==> {
                &&& (#[trigger] r@[i]).slot == i
                &&& r@[i].translation == slot_translation(i)
                &&& r@[i].rotation_y_degrees == PIECE_ROTATION_Y_DEGREES
                &&& r@[i].scale == PIECE_1_SCALE
                &&& r@[i].label@ == label_of(i as nat)
            },
{
    let mut r: Vec<PiecePlacement> = Vec::new();
    let mut i: usize = 0;
    while i < NUM_PIECES
        invariant
            i <= NUM_PIECES,
            r@.len() == i,
            forall|k: int|
                0 <= k < i ==> {
                    &&& (#[trigger] r@[k]).slot == k
                    &&& r@[k].translation == slot_translation(k)
                    &&& r@[k].rotation_y_degrees == PIECE_ROTATION_Y_DEGREES
                    &&& r@[k].scale == PIECE_1_SCALE
                    &&& r@[k].label@ == label_of(k as nat)
                },
        decreases NUM_PIECES - i,
    {
        r.push(piece_placement(i));
        i = i + 1;
    }
    r
}

/// The camera's pose: where it stands and the point it looks at, with the
/// vertical axis up.
#[derive(Clone, Copy, Debug, PartialEq, Eq, Structural)]
pub struct CameraPose {
    pub position: Point3,
    pub focus: Point3,
}

/// The single point light of the scene.
#[derive(Clone, Copy, Debug, PartialEq, Eq, Structural)]
pub struct PointLightSetup {
    pub position: Point3,
    pub intensity: u32,
    pub range: i64,
    pub shadows_enabled: bool,
}

/// The pose the camera starts in.
pub fn camera_pose() -> (r: CameraPose)
    ensures
        r.position == (Point3 { x: -80i64, y: 250, z: 150 }),
        r.focus == (Point3 { x: -95i64, y: 80, z: -50i64 }),
{
    CameraPose {
        position: Point3 { x: -80, y: 250, z: 150 },
        focus: Point3 { x: -95, y: 80, z: -50 },
    }
}

/// The point light spawned with the pieces: it casts shadows.
pub fn point_light() -> (r: PointLightSetup)
    ensures
        r.position == (Point3 { x: 400, y: 1000, z: 400 }),
        r.intensity == 3500,
        r.range == 3000,
        r.shadows_enabled,
{
    PointLightSetup {
        position: Point3 { x: 400, y: 1000, z: 400 },
        intensity: 3500,
        range: 3000,
        shadows_enabled: true,
    }
}

} // verus!
