use vstd::prelude::*;

verus! {

/// Number of pieces placed on the board at the start of a game.
pub const NUM_PIECES: usize = 10;

/// Number of slots along the horizontal axis of the board.
pub const BOARD_SIZE_I: usize = 10;

/// Number of slots along the vertical axis of the board.
pub const BOARD_SIZE_J: usize = 3;

/// Total number of slots of a board.
pub const BOARD_SLOTS: usize = BOARD_SIZE_I * BOARD_SIZE_J;

/// A placed piece: the handle (entity bits) of the scene object spawned for it.
#[derive(Clone, Copy, Debug, PartialEq, Eq, Structural)]
pub struct Piece {
    pub entity: u64,
}

/// A fixed-size grid of optional pieces, addressed row by row
/// (`i + j * BOARD_SIZE_I`).
#[derive(Debug)]
pub struct Board {
    pub tiles: Vec<Option<Piece>>,
}

/// The game state: one board.
#[derive(Debug)]
pub struct Game {
    pub board: Board,
}

/// Whether a tile holds the piece spawned as `entity`.
pub open spec fn holds(tile: Option<Piece>, entity: u64) -> bool {
    match tile {
        Some(p) => p.entity == entity,
        None => false,
    }
}

/// Whether some tile holds the piece spawned as `entity`.
pub open spec fn has_piece(tiles: Seq<Option<Piece>>, entity: u64) -> bool {
    exists|j: int| 0 <= j < tiles.len() && #[trigger] holds(tiles[j], entity)
}

/// The slots holding `entity`, in increasing order.
pub open spec fn slots_holding(tiles: Seq<Option<Piece>>, entity: u64) -> Seq<usize>
    decreases tiles.len(),
{
    if tiles.len() == 0 {
        seq![]
    } else {
        let rest = slots_holding(tiles.drop_last(), entity);
        if holds(tiles.last(), entity) {
            rest.push((tiles.len() - 1) as usize)
        } else {
            rest
        }
    }
}

/// The tiles of a freshly made board: every slot empty.
pub open spec fn empty_tiles() -> Seq<Option<Piece>> {
    Seq::new(BOARD_SLOTS as nat, |i: int| None)
}

/// The tiles after recording `spawned[i]` in slot `i` for every `i < spawned.len()`.
pub open spec fn placed(tiles: Seq<Option<Piece>>, spawned: Seq<u64>) -> Seq<Option<Piece>> {
    Seq::new(
        tiles.len(),
        |i: int|
            if i < spawned.len() {
                Some(Piece { entity: spawned[i] })
            } else {
                tiles[i]
            },
    )
}

impl Board {
    /// A board keeps its number of slots.
    pub open spec fn wf(&self) -> bool {
        self.tiles@.len() == BOARD_SLOTS
    }

    /// An empty board.
    pub fn new() -> (r: Board)
        ensures
            r.wf(),
            r.tiles@ == empty_tiles(),
    {
        let mut tiles: Vec<Option<Piece>> = Vec::new();
        let mut k: usize = 0;
        while k < BOARD_SLOTS
            invariant
                k <= BOARD_SLOTS,
                tiles@ == Seq::new(k as nat, |i: int| None::<Piece>),
            decreases BOARD_SLOTS - k,
        {
            tiles.push(None);
            k = k + 1;
            assert(tiles@ =~= Seq::new(k as nat, |i: int| None::<Piece>));
        }
        assert(tiles@ =~= empty_tiles());
        Board { tiles }
    }

    /// Stores `piece` in slot `slot`.
    pub fn place(&mut self, slot: usize, piece: Piece)
        requires
            slot < old(self).tiles@.len(),
        ensures
            final(self).tiles@ == old(self).tiles@.update(slot as int, Some(piece)),
    {
        self.tiles.set(slot, Some(piece));
    }

    /// The first slot whose piece was spawned as `entity`, if any.
    pub fn find_by_object(&self, entity: u64) -> (r: Option<usize>)
        ensures
            r.is_some() == has_piece(self.tiles@, entity),
            r matches Some(i) ==> i < self.tiles@.len() && holds(self.tiles@[i as int], entity)
                && forall|j: int| 0 <= j < i ==> !holds(#[trigger] self.tiles@[j], entity),
    {
        let mut k: usize = 0;
        while k < self.tiles.len()
            invariant
                k <= self.tiles@.len(),
                forall|j: int| 0 <= j < k ==> !holds(#[trigger] self.tiles@[j], entity),
            decreases self.tiles@.len() - k,
        {
            let tile = self.tiles[k];
            if let Some(p) = tile {
                if p.entity == entity {
                    assert(holds(self.tiles@[k as int], entity));
                    return Some(k);
                }
            }
            k = k + 1;
        }
        None
    }

    /// Every slot whose piece was spawned as `entity`, scanning the whole board.
    pub fn click_matches(&self, entity: u64) -> (r: Vec<usize>)
        ensures
            r@ == slots_holding(self.tiles@, entity),
    {
        let mut r: Vec<usize> = Vec::new();
        let mut k: usize = 0;
        while k < self.tiles.len()
            invariant
                k <= self.tiles@.len(),
                r@ == slots_holding(self.tiles@.subrange(0, k as int), entity),
            decreases self.tiles@.len() - k,
        {
            let ghost before = self.tiles@.subrange(0, k as int);
            let tile = self.tiles[k];
            if let Some(p) = tile {
                if p.entity == entity {
                    r.push(k);
                }
            }
            k = k + 1;
            assert(self.tiles@.subrange(0, k as int).drop_last() =~= before);
        }
        assert(self.tiles@.subrange(0, k as int) =~= self.tiles@);
        r
    }
}

impl Default for Board {
    fn default() -> (r: Board)
        ensures
            r.wf(),
            r.tiles@ == empty_tiles(),
    {
        Board::new()
    }
}

impl Default for Game {
    fn default() -> (r: Game)
        ensures
            r.board.wf(),
            r.board.tiles@ == empty_tiles(),
    {
        Game::new()
    }
}

impl Game {
    /// A game with an empty board.
    pub fn new() -> (r: Game)
        ensures
            r.board.wf(),
            r.board.tiles@ == empty_tiles(),
    {
        Game { board: Board::new() }
    }

    /// Records the scene objects spawned for the pieces: slot `i` gets the
    /// piece spawned as `spawned[i]`.
    pub fn setup(&mut self, spawned: &Vec<u64>)
        requires
            old(self).board.wf(),
            spawned@.len() == NUM_PIECES,
        ensures
            final(self).board.wf(),
            final(self).board.tiles@ == placed(old(self).board.tiles@, spawned@),
    {
        let mut i: usize = 0;
        while i < NUM_PIECES
            invariant
                i <= NUM_PIECES,
                spawned@.len() == NUM_PIECES,
                self.board.wf(),
                self.board.tiles@ == placed(
                    old(self).board.tiles@,
                    spawned@.subrange(0, i as int),
                ),
            decreases NUM_PIECES - i,
        {
            self.board.place(i, Piece { entity: spawned[i] });
            i = i + 1;
            assert(self.board.tiles@ =~= placed(
                old(self).board.tiles@,
                spawned@.subrange(0, i as int),
            ));
        }
        assert(spawned@.subrange(0, NUM_PIECES as int) =~= spawned@);
    }
}

/// A click scan reports a match exactly when some tile holds the clicked piece.
pub proof fn lemma_click_matches_found(tiles: Seq<Option<Piece>>, entity: u64)
    ensures
        (slots_holding(tiles, entity).len() > 0) == has_piece(tiles, entity),
    decreases tiles.len(),
{
    if tiles.len() > 0 {
        let rest = tiles.drop_last();
        lemma_click_matches_found(rest, entity);
        if holds(tiles.last(), entity) {
            assert(holds(tiles[tiles.len() - 1], entity));
        } else {
            if has_piece(tiles, entity) {
                let j = choose|j: int| 0 <= j < tiles.len() && #[trigger] holds(tiles[j], entity);
                assert(holds(rest[j], entity));
            }
            if has_piece(rest, entity) {
                let j = choose|j: int| 0 <= j < rest.len() && #[trigger] holds(rest[j], entity);
                assert(holds(tiles[j], entity));
            }
        }
    }
}

/// Whether a clicked piece is found on the board does not depend on the
/// direction in which the board is scanned: a scan from the last slot down
/// finds a match exactly when a scan from the first slot up does, and the
/// click scan reports one exactly then.
pub proof fn lemma_click_match_order_independent(tiles: Seq<Option<Piece>>, entity: u64)
    ensures
        has_piece(tiles, entity) == has_piece(tiles.reverse(), entity),
        (slots_holding(tiles, entity).len() > 0) == has_piece(tiles.reverse(), entity),
{
    let rev = tiles.reverse();
    if has_piece(tiles, entity) {
        let j = choose|j: int| 0 <= j < tiles.len() && #[trigger] holds(tiles[j], entity);
        assert(holds(rev[tiles.len() - 1 - j], entity));
    }
    if has_piece(rev, entity) {
        let j = choose|j: int| 0 <= j < rev.len() && #[trigger] holds(rev[j], entity);
        assert(holds(tiles[tiles.len() - 1 - j], entity));
    }
    lemma_click_matches_found(tiles, entity);
}

/// After the pieces are recorded on an empty board, a piece is found for a
/// handle exactly when that handle was one of the recorded ones: every
/// recorded handle is found and no other is.
pub proof fn lemma_placed_pieces_found(spawned: Seq<u64>, entity: u64)
    requires
        spawned.len() == NUM_PIECES,
    ensures
        has_piece(placed(empty_tiles(), spawned), entity) == spawned.contains(entity),
{
    let t = placed(empty_tiles(), spawned);
    if spawned.contains(entity) {
        let j = choose|j: int| 0 <= j < spawned.len() && spawned[j] == entity;
        assert(holds(t[j], entity));
    }
    if has_piece(t, entity) {
        let j = choose|j: int| 0 <= j < t.len() && #[trigger] holds(t[j], entity);
        assert(spawned[j] == entity);
    }
}

} // verus!
