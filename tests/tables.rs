use chess::attacks::{attacks, mask_for, Slider};
use chess::magic::{check_magic, find_magic, population, subsets, AttackTables};
use chess::rng::Rng;
use std::collections::HashMap;

const TRIES: u32 = 10_000_000;

fn occupancy_samples() -> Vec<u64> {
    let mut rng = Rng::new(7);
    let mut v = vec![0u64, u64::MAX];
    for _ in 0..64 {
        v.push(rng.next_u64());
        v.push(rng.next_u64() & rng.next_u64());
    }
    v
}

#[test]
fn rook_corner_mask() {
    // File a without a1 and a8, rank 1 without a1 and h1.
    assert_eq!(mask_for(Slider::Rook, 0), 0x0001_0101_0101_017e);
}

#[test]
fn rook_corner_open_board_attacks() {
    assert_eq!(attacks(Slider::Rook, 0, 0), 0x0101_0101_0101_01fe);
}

#[test]
fn rook_corner_blocker_on_rank() {
    let blocker = 1u64 << 3;
    let expected = 0x0101_0101_0101_010eu64;
    assert_eq!(attacks(Slider::Rook, 0, blocker), expected);
    let mut rng = Rng::new(1);
    let e = find_magic(Slider::Rook, 0, &mut rng, TRIES).expect("magic for a1");
    assert_eq!(e.slider_attacks(blocker), expected);
    assert_eq!(e.slider_attacks(0), 0x0101_0101_0101_01fe);
}

#[test]
fn bishop_center_mask_and_attacks() {
    assert_eq!(mask_for(Slider::Bishop, 27), 0x0040_2214_0014_2200);
    assert_eq!(attacks(Slider::Bishop, 27, 0), 0x8041_2214_0014_2241);
}

#[test]
fn rook_center_blocked_everywhere() {
    // Rook on d4 with every square occupied attacks its four neighbours.
    let expected = (1u64 << 19) | (1u64 << 35) | (1u64 << 26) | (1u64 << 28);
    assert_eq!(attacks(Slider::Rook, 27, u64::MAX), expected);
}

#[test]
fn masks_exclude_own_square_and_outside_occupancy() {
    for kind in [Slider::Rook, Slider::Bishop] {
        for sq in 0..64u8 {
            let m = mask_for(kind, sq);
            assert_eq!(m & (1u64 << sq), 0);
            assert_eq!(m & attacks(kind, sq, 0), m);
            for occ in occupancy_samples() {
                assert_eq!(attacks(kind, sq, occ), attacks(kind, sq, occ & m));
            }
        }
    }
}

#[test]
fn subsets_are_all_distinct_subsets() {
    let m = mask_for(Slider::Rook, 0);
    let v = subsets(m);
    assert_eq!(v.len(), 1usize << population(m));
    for w in v.windows(2) {
        assert!(w[0] < w[1]);
    }
    for s in &v {
        assert_eq!(s & m, *s);
    }
    assert_eq!(subsets(0), vec![0]);
    assert_eq!(subsets(0b101), vec![0, 1, 4, 5]);
}

#[test]
fn population_counts_bits() {
    assert_eq!(population(0), 0);
    assert_eq!(population(0xf0f0), 8);
    assert_eq!(population(u64::MAX), 64);
}

#[test]
fn check_magic_rejects_collision() {
    let occs = vec![0u64, 1];
    assert!(check_magic(&occs, &vec![5, 6], 0, 63).is_none());
    let t = check_magic(&occs, &vec![5, 5], 0, 63).expect("equal attacks share a slot");
    assert_eq!(t.len(), 2);
    assert_eq!(t[0], 5);
}

#[test]
fn magic_lookup_matches_naive_exhaustively() {
    let tables = AttackTables::generate(1, TRIES).expect("tables");
    for kind in [Slider::Rook, Slider::Bishop] {
        for sq in 0..64u8 {
            let m = mask_for(kind, sq);
            for o in subsets(m) {
                assert_eq!(tables.slider_attacks(kind, sq, o), attacks(kind, sq, o));
            }
            for occ in occupancy_samples() {
                assert_eq!(tables.slider_attacks(kind, sq, occ), attacks(kind, sq, occ));
            }
        }
    }
}

#[test]
fn magic_has_no_false_collisions() {
    let mut rng = Rng::new(3);
    for (kind, sq) in [(Slider::Rook, 0u8), (Slider::Rook, 27), (Slider::Bishop, 27), (Slider::Bishop, 63)] {
        let e = find_magic(kind, sq, &mut rng, TRIES).expect("magic");
        assert_eq!(e.shift as u32, 64 - population(e.mask));
        let mut seen: HashMap<u64, u64> = HashMap::new();
        for o in subsets(e.mask) {
            let idx = o.wrapping_mul(e.magic) >> e.shift;
            let a = attacks(kind, sq, o);
            if let Some(prev) = seen.insert(idx, a) {
                assert_eq!(prev, a);
            }
        }
    }
}

#[test]
fn find_magic_gives_up_without_tries() {
    let mut rng = Rng::new(5);
    assert!(find_magic(Slider::Rook, 0, &mut rng, 0).is_none());
}

#[test]
fn rng_steps_exactly() {
    let mut rng = Rng::new(1);
    assert_eq!(rng.next_u64(), 0x4082_2041);
    assert_eq!(rng.state, 0x4082_2041);
    assert_ne!(Rng::new(0).state, 0);
}

fn on_line(kind: Slider, sq: i32, t: i32) -> bool {
    let (r, f, tr, tf) = (sq / 8, sq % 8, t / 8, t % 8);
    t != sq
        && match kind {
            Slider::Rook => tr == r || tf == f,
            Slider::Bishop => tr - r == tf - f || tr - r == f - tf,
        }
}

fn in_mask(kind: Slider, sq: i32, t: i32) -> bool {
    let (r, f, tr, tf) = (sq / 8, sq % 8, t / 8, t % 8);
    on_line(kind, sq, t)
        && match kind {
            Slider::Rook => (tr != r || (1..=6).contains(&tf)) && (tf != f || (1..=6).contains(&tr)),
            Slider::Bishop => (1..=6).contains(&tr) && (1..=6).contains(&tf),
        }
}

#[test]
fn open_board_attacks_and_masks_follow_the_lines() {
    for kind in [Slider::Rook, Slider::Bishop] {
        for sq in 0..64i32 {
            let a = attacks(kind, sq as u8, 0);
            let m = mask_for(kind, sq as u8);
            for t in 0..64i32 {
                assert_eq!((a >> t) & 1 == 1, on_line(kind, sq, t));
                assert_eq!((m >> t) & 1 == 1, in_mask(kind, sq, t));
            }
        }
    }
    assert_eq!(population(mask_for(Slider::Rook, 0)), 12);
    assert_eq!(population(mask_for(Slider::Bishop, 0)), 6);
}

#[test]
fn magic_search_is_deterministic() {
    for (kind, sq) in [(Slider::Rook, 9u8), (Slider::Bishop, 18)] {
        let mut ra = Rng::new(21);
        let mut rb = Rng::new(21);
        let a = find_magic(kind, sq, &mut ra, TRIES).expect("magic");
        let b = find_magic(kind, sq, &mut rb, TRIES).expect("magic");
        assert_eq!(ra.state, rb.state);
        assert_ne!(ra.state, Rng::new(21).state);
        assert_eq!(a.magic, b.magic);
        assert_eq!(a.shift, b.shift);
        assert_eq!(a.mask, b.mask);
        assert_eq!(a.table, b.table);
    }
}
