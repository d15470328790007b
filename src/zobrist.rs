use vstd::prelude::*;

use crate::board::{CastleRights, Color, File, Piece, Square};
use crate::rng::{start_state, xorshift, Rng};

verus! {

/// Keys in all: 2 x 6 x 64 piece keys, 2 x 4 castle keys, 2 x 8 en-passant
/// keys and the side-to-move key.
pub const NUM_KEYS: usize = 793;

/// Offset of the castle keys.
pub const CASTLE_BASE: usize = 768;

/// Offset of the en-passant keys.
pub const EP_BASE: usize = 776;

/// Offset of the side-to-move key.
pub const SIDE_SLOT: usize = 792;

/// The largest number of values drawn while generating a table.
pub const MAX_DRAWS: u32 = 100_000;

pub open spec fn piece_slot(piece: Piece, square: int, color: Color) -> int {
    color.index() * 384 + piece.index() * 64 + square
}

pub open spec fn castle_slot(rights: CastleRights, color: Color) -> int {
    CASTLE_BASE + color.index() * 4 + rights.index()
}

pub open spec fn ep_slot(file: int, color: Color) -> int {
    EP_BASE + color.index() * 8 + file
}

pub open spec fn all_distinct(s: Seq<u64>) -> bool {
    forall|i: int, j: int| 0 <= i < s.len() && 0 <= j < s.len() && i != j ==> s[i] != s[j]
}

/// The generation walk: from generator state `state` with `keys` drawn so
/// far, draw values in turn, keep each one not drawn before, and stop once
/// every key is drawn; `None` when `budget` draws do not suffice.
pub open spec fn draw_keys(state: u64, keys: Seq<u64>, budget: nat) -> Option<Seq<u64>>
    decreases budget,
{
    if keys.len() >= NUM_KEYS {
        Some(keys)
    } else if budget == 0 {
        None
    } else {
        let x = xorshift(state);
        draw_keys(x, if keys.contains(x) { keys } else { keys.push(x) }, (budget - 1) as nat)
    }
}

/// The table of a seed.
pub open spec fn keys_of_seed(seed: u64) -> Option<Seq<u64>> {
    draw_keys(start_state(seed), Seq::empty(), MAX_DRAWS as nat)
}

/// Zobrist keys: every piece on every square for each color, each castle
/// state and en-passant file for each color, and the side to move. All keys
/// are pairwise distinct.
pub struct Zobrist {
    pub keys: Vec<u64>,
}

fn contains(keys: &Vec<u64>, x: u64) -> (r: bool)
    ensures
        r == keys@.contains(x),
{
    let mut i: usize = 0;
    while i < keys.len()
        invariant
            i <= keys.len(),
            forall|j: int| 0 <= j < i ==> keys[j] != x,
        decreases keys.len() - i,
    {
        if keys[i] == x {
            assert(keys@[i as int] == x);
            return true;
        }
        i = i + 1;
    }
    false
}

impl Zobrist {
    pub open spec fn wf(&self) -> bool {
        self.keys.len() == NUM_KEYS && all_distinct(self.keys@)
    }

    /// Draws the keys from a generator seeded with `seed`, redrawing any
    /// value drawn before. The result depends on the seed alone.
    pub fn generate(seed: u64) -> (r: Option<Zobrist>)
        ensures
            match r {
                Some(z) => z.wf() && keys_of_seed(seed) == Some(z.keys@),
                None => keys_of_seed(seed) is None,
            },
    {
        let mut rng = Rng::new(seed);
        let mut keys: Vec<u64> = Vec::new();
        let mut budget: u32 = MAX_DRAWS;
        while keys.len() < NUM_KEYS
            invariant
                keys.len() <= NUM_KEYS,
                all_distinct(keys@),
                draw_keys(rng.state, keys@, budget as nat) == keys_of_seed(seed),
            decreases budget,
        {
            if budget == 0 {
                return None;
            }
            let x = rng.next_u64();
            if !contains(&keys, x) {
                keys.push(x);
            }
            budget = budget - 1;
        }
        Some(Zobrist { keys })
    }

    /// The key of `piece` of `color` standing on `square`.
    pub fn piece(&self, piece: Piece, square: Square, color: Color) -> (r: u64)
        requires
            self.wf(),
            square.0 < 64,
        ensures
            r == self.keys[piece_slot(piece, square.0 as int, color)],
    {
        self.keys[color.to_index() * 384 + piece.to_index() * 64 + square.to_index()]
    }

    /// The key of `color` holding `castle_rights`.
    pub fn castles(&self, castle_rights: CastleRights, color: Color) -> (r: u64)
        requires
            self.wf(),
        ensures
            r == self.keys[castle_slot(castle_rights, color)],
    {
        self.keys[CASTLE_BASE + color.to_index() * 4 + castle_rights.to_index()]
    }

    /// The key of an en-passant capture on `file` for `color`.
    pub fn en_passant(&self, file: File, color: Color) -> (r: u64)
        requires
            self.wf(),
            file.0 < 8,
        ensures
            r == self.keys[ep_slot(file.0 as int, color)],
    {
        self.keys[EP_BASE + color.to_index() * 8 + file.to_index()]
    }

    /// The side-to-move key.
    pub fn color(&self) -> (r: u64)
        requires
            self.wf(),
        ensures
            r == self.keys[SIDE_SLOT as int],
    {
        self.keys[SIDE_SLOT]
    }
}

/// Distinct features read distinct keys: piece keys of different
/// (piece, square, color) differ, as do castle keys of different
/// (rights, color) and en-passant keys of different (file, color), and no key
/// of one kind equals a key of another kind or the side-to-move key.
pub proof fn lemma_feature_keys_distinct(
    z: &Zobrist,
    p1: Piece,
    s1: int,
    c1: Color,
    p2: Piece,
    s2: int,
    c2: Color,
    r1: CastleRights,
    d1: Color,
    r2: CastleRights,
    d2: Color,
    f1: int,
    e1: Color,
    f2: int,
    e2: Color,
)
    requires
        z.wf(),
        0 <= s1 < 64,
        0 <= s2 < 64,
        0 <= f1 < 8,
        0 <= f2 < 8,
    ensures
        (p1, s1, c1) != (p2, s2, c2) ==> z.keys[piece_slot(p1, s1, c1)] != z.keys[piece_slot(
            p2,
            s2,
            c2,
        )],
        (r1, d1) != (r2, d2) ==> z.keys[castle_slot(r1, d1)] != z.keys[castle_slot(r2, d2)],
        (f1, e1) != (f2, e2) ==> z.keys[ep_slot(f1, e1)] != z.keys[ep_slot(f2, e2)],
        z.keys[piece_slot(p1, s1, c1)] != z.keys[castle_slot(r1, d1)],
        z.keys[piece_slot(p1, s1, c1)] != z.keys[ep_slot(f1, e1)],
        z.keys[castle_slot(r1, d1)] != z.keys[ep_slot(f1, e1)],
        z.keys[piece_slot(p1, s1, c1)] != z.keys[SIDE_SLOT as int],
        z.keys[castle_slot(r1, d1)] != z.keys[SIDE_SLOT as int],
        z.keys[ep_slot(f1, e1)] != z.keys[SIDE_SLOT as int],
{
    if (p1, s1, c1) != (p2, s2, c2) {
        assert(piece_slot(p1, s1, c1) != piece_slot(p2, s2, c2));
    }
    if (r1, d1) != (r2, d2) {
        assert(castle_slot(r1, d1) != castle_slot(r2, d2));
    }
    if (f1, e1) != (f2, e2) {
        assert(ep_slot(f1, e1) != ep_slot(f2, e2));
    }
}

/// Applying a key twice restores the hash: XOR is its own inverse.
pub proof fn lemma_toggle_twice(hash: u64, key: u64)
    ensures
        (hash ^ key) ^ key == hash,
{
    assert((hash ^ key) ^ key == hash) by (bit_vector);
}

} // verus!
