use chess::board::{CastleRights, Color, File, Piece, Square};
use chess::zobrist::{Zobrist, NUM_KEYS};
use std::collections::HashSet;

#[test]
fn keys_are_pairwise_distinct() {
    let z = Zobrist::generate(42).expect("table");
    assert_eq!(z.keys.len(), NUM_KEYS);
    let set: HashSet<u64> = z.keys.iter().copied().collect();
    assert_eq!(set.len(), NUM_KEYS);
}

#[test]
fn generation_is_deterministic() {
    let a = Zobrist::generate(42).expect("table");
    let b = Zobrist::generate(42).expect("table");
    assert_eq!(a.keys, b.keys);
    let c = Zobrist::generate(43).expect("table");
    assert_ne!(a.keys, c.keys);
}

#[test]
fn accessors_read_their_slots() {
    let z = Zobrist::generate(9).expect("table");
    assert_eq!(z.piece(Piece::Pawn, Square(0), Color::White), z.keys[0]);
    assert_eq!(z.piece(Piece::King, Square(63), Color::Black), z.keys[767]);
    assert_eq!(z.castles(CastleRights::NoRights, Color::White), z.keys[768]);
    assert_eq!(z.castles(CastleRights::Both, Color::Black), z.keys[775]);
    assert_eq!(z.en_passant(File(0), Color::White), z.keys[776]);
    assert_eq!(z.en_passant(File(7), Color::Black), z.keys[791]);
    assert_eq!(z.color(), z.keys[792]);
    assert_ne!(z.piece(Piece::Knight, Square(10), Color::White), z.piece(Piece::Knight, Square(10), Color::Black));
}

#[test]
fn xor_twice_restores_hash() {
    let z = Zobrist::generate(11).expect("table");
    let start: u64 = 0x1234_5678_9abc_def0;
    let keys = [
        z.piece(Piece::Queen, Square(27), Color::White),
        z.castles(CastleRights::KingSide, Color::Black),
        z.en_passant(File(4), Color::White),
        z.color(),
    ];
    for k in keys {
        let h = start ^ k;
        assert_ne!(h, start);
        assert_eq!(h ^ k, start);
    }
}

#[test]
fn enumerations_index_densely() {
    assert_eq!(Color::White.to_index(), 0);
    assert_eq!(Color::Black.to_index(), 1);
    assert_eq!(Piece::King.to_index(), 5);
    assert_eq!(CastleRights::QueenSide.to_index(), 2);
    assert_eq!(Square(17).to_index(), 17);
    assert_eq!(File(3).to_index(), 3);
}

#[test]
fn every_feature_reads_a_distinct_key() {
    let z = Zobrist::generate(5).expect("table");
    let mut seen: HashSet<u64> = HashSet::new();
    let pieces = [Piece::Pawn, Piece::Knight, Piece::Bishop, Piece::Rook, Piece::Queen, Piece::King];
    let rights = [CastleRights::NoRights, CastleRights::KingSide, CastleRights::QueenSide, CastleRights::Both];
    for c in [Color::White, Color::Black] {
        for p in pieces {
            for s in 0..64u8 {
                assert!(seen.insert(z.piece(p, Square(s), c)));
            }
        }
        for r in rights {
            assert!(seen.insert(z.castles(r, c)));
        }
        for f in 0..8u8 {
            assert!(seen.insert(z.en_passant(File(f), c)));
        }
    }
    assert!(seen.insert(z.color()));
    assert_eq!(seen.len(), NUM_KEYS);
}

#[test]
fn zero_seed_still_generates() {
    let z = Zobrist::generate(0).expect("table");
    assert_eq!(z.keys.len(), NUM_KEYS);
}
