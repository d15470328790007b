use vstd::prelude::*;

use crate::bitboard::has;

verus! {

/// A sliding piece: its attacks run along rays until blocked.
#[derive(Clone, Copy, Debug, PartialEq, Eq, Structural)]
pub enum Slider {
    Rook,
    Bishop,
}

pub open spec fn on_board(r: int, f: int) -> bool {
    0 <= r < 8 && 0 <= f < 8
}

/// The bitboard holding the square at rank `r` and file `f`.
pub open spec fn sq_bit(r: int, f: int) -> u64 {
    1u64 << ((r * 8 + f) as u64)
}

/// Row step of direction `j` (0..4) for `kind`.
pub open spec fn dir_r(kind: Slider, j: int) -> int {
    match kind {
        Slider::Rook => if j == 0 { 1 } else if j == 1 { -1 } else { 0 },
        Slider::Bishop => if j == 0 || j == 1 { 1 } else { -1 },
    }
}

/// File step of direction `j` (0..4) for `kind`.
pub open spec fn dir_f(kind: Slider, j: int) -> int {
    match kind {
        Slider::Rook => if j == 2 { 1 } else if j == 3 { -1 } else { 0 },
        Slider::Bishop => if j == 0 || j == 2 { 1 } else { -1 },
    }
}

/// The squares attacked along one ray from (r, f): each square walked is
/// included, the walk stops on the first occupied square (included) or at
/// the board edge. At most `steps` squares are walked.
pub open spec fn ray_spec(r: int, f: int, dr: int, df: int, occ: u64, steps: nat) -> u64
    decreases steps,
{
    if steps == 0 {
        0
    } else if !on_board(r + dr, f + df) {
        0
    } else if has(occ, (r + dr) * 8 + (f + df)) {
        sq_bit(r + dr, f + df)
    } else {
        sq_bit(r + dr, f + df) | ray_spec(r + dr, f + df, dr, df, occ, (steps - 1) as nat)
    }
}

/// The squares of one ray from (r, f) whose occupancy can change the ray:
/// those strictly between the origin and the last square before the edge.
pub open spec fn mask_ray_spec(r: int, f: int, dr: int, df: int, steps: nat) -> u64
    decreases steps,
{
    if steps == 0 {
        0
    } else if !on_board(r + dr, f + df) || !on_board(r + 2 * dr, f + 2 * df) {
        0
    } else {
        sq_bit(r + dr, f + df) | mask_ray_spec(r + dr, f + df, dr, df, (steps - 1) as nat)
    }
}

/// A ray on an 8x8 board has at most seven squares.
pub open spec fn ray_of(kind: Slider, sq: int, j: int, occ: u64) -> u64 {
    ray_spec(sq / 8, sq % 8, dir_r(kind, j), dir_f(kind, j), occ, 7)
}

pub open spec fn mask_ray_of(kind: Slider, sq: int, j: int) -> u64 {
    mask_ray_spec(sq / 8, sq % 8, dir_r(kind, j), dir_f(kind, j), 7)
}

/// The squares attacked by `kind` from `sq` when the squares of `occ` are occupied.
pub open spec fn attacks_spec(kind: Slider, sq: int, occ: u64) -> u64 {
    ray_of(kind, sq, 0, occ) | ray_of(kind, sq, 1, occ) | ray_of(kind, sq, 2, occ) | ray_of(
        kind,
        sq,
        3,
        occ,
    )
}

/// The blocker mask of `kind` on `sq`.
pub open spec fn mask_spec(kind: Slider, sq: int) -> u64 {
    mask_ray_of(kind, sq, 0) | mask_ray_of(kind, sq, 1) | mask_ray_of(kind, sq, 2) | mask_ray_of(
        kind,
        sq,
        3,
    )
}

fn direction(kind: Slider, j: u8) -> (r: (i8, i8))
    requires
        j < 4,
    ensures
        r.0 as int == dir_r(kind, j as int),
        r.1 as int == dir_f(kind, j as int),
{
    match kind {
        Slider::Rook => if j == 0 {
            (1, 0)
        } else if j == 1 {
            (-1, 0)
        } else if j == 2 {
            (0, 1)
        } else {
            (0, -1)
        },
        Slider::Bishop => if j == 0 {
            (1, 1)
        } else if j == 1 {
            (1, -1)
        } else if j == 2 {
            (-1, 1)
        } else {
            (-1, -1)
        },
    }
}

fn ray(r: i8, f: i8, dr: i8, df: i8, occ: u64, steps: u8) -> (res: u64)
    requires
        on_board(r as int, f as int),
        -1 <= dr <= 1,
        -1 <= df <= 1,
    ensures
        res == ray_spec(r as int, f as int, dr as int, df as int, occ, steps as nat),
    decreases steps,
{
    if steps == 0 {
        return 0;
    }
    let nr = r + dr;
    let nf = f + df;
    if nr < 0 || nr >= 8 || nf < 0 || nf >= 8 {
        return 0;
    }
    let i: u64 = (nr * 8 + nf) as u64;
    let b: u64 = 1u64 << i;
    if (occ >> i) & 1 == 1 {
        b
    } else {
        b | ray(nr, nf, dr, df, occ, steps - 1)
    }
}

fn mask_ray(r: i8, f: i8, dr: i8, df: i8, steps: u8) -> (res: u64)
    requires
        on_board(r as int, f as int),
        -1 <= dr <= 1,
        -1 <= df <= 1,
    ensures
        res == mask_ray_spec(r as int, f as int, dr as int, df as int, steps as nat),
    decreases steps,
{
    if steps == 0 {
        return 0;
    }
    let nr = r + dr;
    let nf = f + df;
    if nr < 0 || nr >= 8 || nf < 0 || nf >= 8 {
        return 0;
    }
    let fr = nr + dr;
    let ff = nf + df;
    if fr < 0 || fr >= 8 || ff < 0 || ff >= 8 {
        return 0;
    }
    let i: u64 = (nr * 8 + nf) as u64;
    (1u64 << i) | mask_ray(nr, nf, dr, df, steps - 1)
}

/// The naive attack set: each ray walked square by square.
pub fn attacks(kind: Slider, sq: u8, occ: u64) -> (r: u64)
    requires
        sq < 64,
    ensures
        r == attacks_spec(kind, sq as int, occ),
{
    let rank = (sq / 8) as i8;
    let file = (sq % 8) as i8;
    let mut acc: u64 = 0;
    let mut j: u8 = 0;
    while j < 4
        invariant
            j <= 4,
            sq < 64,
            rank as int == sq as int / 8,
            file as int == sq as int % 8,
            j == 0 ==> acc == 0,
            j == 1 ==> acc == ray_of(kind, sq as int, 0, occ),
            j == 2 ==> acc == ray_of(kind, sq as int, 0, occ) | ray_of(kind, sq as int, 1, occ),
            j == 3 ==> acc == ray_of(kind, sq as int, 0, occ) | ray_of(kind, sq as int, 1, occ)
                | ray_of(kind, sq as int, 2, occ),
            j == 4 ==> acc == attacks_spec(kind, sq as int, occ),
        decreases 4 - j,
    {
        let (dr, df) = direction(kind, j);
        let x = ray(rank, file, dr, df, occ, 7);
        proof {
            if j == 0 {
                assert(0u64 | x == x) by (bit_vector);
            }
        }
        acc = acc | x;
        j = j + 1;
    }
    acc
}

/// The blocker mask: the squares whose occupancy can change the attacks of
/// `kind` from `sq`.
pub fn mask_for(kind: Slider, sq: u8) -> (r: u64)
    requires
        sq < 64,
    ensures
        r == mask_spec(kind, sq as int),
{
    let rank = (sq / 8) as i8;
    let file = (sq % 8) as i8;
    let mut acc: u64 = 0;
    let mut j: u8 = 0;
    while j < 4
        invariant
            j <= 4,
            sq < 64,
            rank as int == sq as int / 8,
            file as int == sq as int % 8,
            j == 0 ==> acc == 0,
            j == 1 ==> acc == mask_ray_of(kind, sq as int, 0),
            j == 2 ==> acc == mask_ray_of(kind, sq as int, 0) | mask_ray_of(kind, sq as int, 1),
            j == 3 ==> acc == mask_ray_of(kind, sq as int, 0) | mask_ray_of(kind, sq as int, 1)
                | mask_ray_of(kind, sq as int, 2),
            j == 4 ==> acc == mask_spec(kind, sq as int),
        decreases 4 - j,
    {
        let (dr, df) = direction(kind, j);
        let x = mask_ray(rank, file, dr, df, 7);
        proof {
            if j == 0 {
                assert(0u64 | x == x) by (bit_vector);
            }
        }
        acc = acc | x;
        j = j + 1;
    }
    acc
}

proof fn lemma_bits_of_union(a: u64, b: u64, m: u64)
    requires
        (a | b) & m == a | b,
    ensures
        a & m == a,
        b & m == b,
{
    assert(a & m == a && b & m == b) by (bit_vector)
        requires
            (a | b) & m == a | b,
    ;
}

proof fn lemma_ray_masked(r: int, f: int, dr: int, df: int, occ: u64, m: u64, steps: nat)
    requires
        on_board(r, f),
        -1 <= dr <= 1,
        -1 <= df <= 1,
        mask_ray_spec(r, f, dr, df, steps) & m == mask_ray_spec(r, f, dr, df, steps),
    ensures
        ray_spec(r, f, dr, df, occ, steps) == ray_spec(r, f, dr, df, occ & m, steps),
    decreases steps,
{
    if steps > 0 && on_board(r + dr, f + df) {
        let nr = r + dr;
        let nf = f + df;
        let i: u64 = (nr * 8 + nf) as u64;
        let b = sq_bit(nr, nf);
        if on_board(r + 2 * dr, f + 2 * df) {
            let rest = mask_ray_spec(nr, nf, dr, df, (steps - 1) as nat);
            lemma_bits_of_union(b, rest, m);
            assert(((occ & m) >> i) & 1 == (occ >> i) & 1) by (bit_vector)
                requires
                    i < 64,
                    (1u64 << i) & m == 1u64 << i,
            ;
            lemma_ray_masked(nr, nf, dr, df, occ, m, (steps - 1) as nat);
        } else {
            assert(ray_spec(nr, nf, dr, df, occ, (steps - 1) as nat) == 0);
            assert(ray_spec(nr, nf, dr, df, occ & m, (steps - 1) as nat) == 0);
            assert(b | 0u64 == b) by (bit_vector);
        }
    }
}

/// Occupancy outside the blocker mask never changes the attack set: the
/// attacks over any occupancy equal those over its part inside the mask.
pub proof fn lemma_attacks_masked(kind: Slider, sq: int, occ: u64)
    requires
        0 <= sq < 64,
    ensures
        attacks_spec(kind, sq, occ) == attacks_spec(kind, sq, occ & mask_spec(kind, sq)),
{
    let m = mask_spec(kind, sq);
    let m0 = mask_ray_of(kind, sq, 0);
    let m1 = mask_ray_of(kind, sq, 1);
    let m2 = mask_ray_of(kind, sq, 2);
    let m3 = mask_ray_of(kind, sq, 3);
    assert(m0 & (m0 | m1 | m2 | m3) == m0 && m1 & (m0 | m1 | m2 | m3) == m1 && m2 & (m0 | m1 | m2
        | m3) == m2 && m3 & (m0 | m1 | m2 | m3) == m3) by (bit_vector);
    lemma_ray_masked(sq / 8, sq % 8, dir_r(kind, 0), dir_f(kind, 0), occ, m, 7);
    lemma_ray_masked(sq / 8, sq % 8, dir_r(kind, 1), dir_f(kind, 1), occ, m, 7);
    lemma_ray_masked(sq / 8, sq % 8, dir_r(kind, 2), dir_f(kind, 2), occ, m, 7);
    lemma_ray_masked(sq / 8, sq % 8, dir_r(kind, 3), dir_f(kind, 3), occ, m, 7);
}

proof fn lemma_has_or(a: u64, b: u64, t: int)
    requires
        0 <= t < 64,
    ensures
        has(a | b, t) == (has(a, t) || has(b, t)),
{
    let u = t as u64;
    assert((((a | b) >> u) & 1 == 1) == (((a >> u) & 1 == 1) || ((b >> u) & 1 == 1))) by (bit_vector)
        requires
            u < 64,
    ;
}

proof fn lemma_has_bit(r: int, f: int, t: int)
    requires
        on_board(r, f),
        0 <= t < 64,
    ensures
        has(sq_bit(r, f), t) == (t == r * 8 + f),
{
    let i = (r * 8 + f) as u64;
    let u = t as u64;
    assert((((1u64 << i) >> u) & 1 == 1) == (u == i)) by (bit_vector)
        requires
            u < 64,
            i < 64,
    ;
}

proof fn lemma_has_zero(t: int)
    requires
        0 <= t < 64,
    ensures
        has(0, t) == false,
{
    let u = t as u64;
    assert((0u64 >> u) & 1 == 0) by (bit_vector);
}

/// `t` is the square `k` steps from (r, f) along (dr, df).
pub open spec fn at_step(r: int, f: int, dr: int, df: int, k: int, t: int) -> bool {
    on_board(r + k * dr, f + k * df) && t == (r + k * dr) * 8 + (f + k * df)
}

proof fn lemma_open_ray(r: int, f: int, dr: int, df: int, steps: nat, t: int)
    requires
        on_board(r, f),
        -1 <= dr <= 1,
        -1 <= df <= 1,
        0 <= t < 64,
    ensures
        has(ray_spec(r, f, dr, df, 0, steps), t) == exists|k: int|
            1 <= k <= steps && #[trigger] at_step(r, f, dr, df, k, t),
    decreases steps,
{
    let x = ray_spec(r, f, dr, df, 0, steps);
    if steps == 0 {
        lemma_has_zero(t);
    } else if !on_board(r + dr, f + df) {
        lemma_has_zero(t);
        if exists|k: int| 1 <= k <= steps && #[trigger] at_step(r, f, dr, df, k, t) {
            let k = choose|k: int| 1 <= k <= steps && #[trigger] at_step(r, f, dr, df, k, t);
            assert(on_board(r + dr, f + df)) by (nonlinear_arith)
                requires
                    on_board(r, f),
                    on_board(r + k * dr, f + k * df),
                    1 <= k,
                    -1 <= dr <= 1,
                    -1 <= df <= 1,
            ;
        }
    } else {
        let nr = r + dr;
        let nf = f + df;
        lemma_has_zero(nr * 8 + nf);
        let rest = ray_spec(nr, nf, dr, df, 0, (steps - 1) as nat);
        lemma_has_or(sq_bit(nr, nf), rest, t);
        lemma_has_bit(nr, nf, t);
        lemma_open_ray(nr, nf, dr, df, (steps - 1) as nat, t);
        if has(x, t) {
            if t == nr * 8 + nf {
                assert(at_step(r, f, dr, df, 1, t));
            } else {
                let k = choose|k: int| 1 <= k <= steps - 1 && #[trigger] at_step(nr, nf, dr, df, k, t);
                assert((nr + k * dr) == r + (k + 1) * dr && (nf + k * df) == f + (k + 1) * df)
                    by (nonlinear_arith)
                    requires
                        nr == r + dr,
                        nf == f + df,
                ;
                assert(at_step(r, f, dr, df, k + 1, t));
            }
        }
        if exists|k: int| 1 <= k <= steps && #[trigger] at_step(r, f, dr, df, k, t) {
            let k = choose|k: int| 1 <= k <= steps && #[trigger] at_step(r, f, dr, df, k, t);
            if k > 1 {
                assert((nr + (k - 1) * dr) == r + k * dr && (nf + (k - 1) * df) == f + k * df)
                    by (nonlinear_arith)
                    requires
                        nr == r + dr,
                        nf == f + df,
                ;
                assert(at_step(nr, nf, dr, df, k - 1, t));
            }
        }
    }
}

/// `t` is the square `k` steps from (r, f) along (dr, df), and one more step
/// stays on the board.
pub open spec fn inner_step(r: int, f: int, dr: int, df: int, k: int, t: int) -> bool {
    at_step(r, f, dr, df, k, t) && on_board(r + (k + 1) * dr, f + (k + 1) * df)
}

proof fn lemma_mask_ray(r: int, f: int, dr: int, df: int, steps: nat, t: int)
    requires
        on_board(r, f),
        -1 <= dr <= 1,
        -1 <= df <= 1,
        0 <= t < 64,
    ensures
        has(mask_ray_spec(r, f, dr, df, steps), t) == exists|k: int|
            1 <= k <= steps && #[trigger] inner_step(r, f, dr, df, k, t),
    decreases steps,
{
    let x = mask_ray_spec(r, f, dr, df, steps);
    if steps == 0 {
        lemma_has_zero(t);
    } else if !on_board(r + dr, f + df) || !on_board(r + 2 * dr, f + 2 * df) {
        lemma_has_zero(t);
        if exists|k: int| 1 <= k <= steps && #[trigger] inner_step(r, f, dr, df, k, t) {
            let k = choose|k: int| 1 <= k <= steps && #[trigger] inner_step(r, f, dr, df, k, t);
            assert(on_board(r + dr, f + df) && on_board(r + 2 * dr, f + 2 * df)) by (nonlinear_arith)
                requires
                    on_board(r, f),
                    on_board(r + (k + 1) * dr, f + (k + 1) * df),
                    1 <= k,
                    -1 <= dr <= 1,
                    -1 <= df <= 1,
            ;
        }
    } else {
        let nr = r + dr;
        let nf = f + df;
        let rest = mask_ray_spec(nr, nf, dr, df, (steps - 1) as nat);
        lemma_has_or(sq_bit(nr, nf), rest, t);
        lemma_has_bit(nr, nf, t);
        lemma_mask_ray(nr, nf, dr, df, (steps - 1) as nat, t);
        if has(x, t) {
            if t == nr * 8 + nf {
                assert(inner_step(r, f, dr, df, 1, t));
            } else {
                let k = choose|k: int|
                    1 <= k <= steps - 1 && #[trigger] inner_step(nr, nf, dr, df, k, t);
                assert((nr + k * dr) == r + (k + 1) * dr && (nf + k * df) == f + (k + 1) * df && (nr
                    + (k + 1) * dr) == r + (k + 2) * dr && (nf + (k + 1) * df) == f + (k + 2) * df)
                    by (nonlinear_arith)
                    requires
                        nr == r + dr,
                        nf == f + df,
                ;
                assert(inner_step(r, f, dr, df, k + 1, t));
            }
        }
        if exists|k: int| 1 <= k <= steps && #[trigger] inner_step(r, f, dr, df, k, t) {
            let k = choose|k: int| 1 <= k <= steps && #[trigger] inner_step(r, f, dr, df, k, t);
            if k > 1 {
                assert((nr + (k - 1) * dr) == r + k * dr && (nf + (k - 1) * df) == f + k * df && (nr
                    + k * dr) == r + (k + 1) * dr && (nf + k * df) == f + (k + 1) * df)
                    by (nonlinear_arith)
                    requires
                        nr == r + dr,
                        nf == f + df,
                ;
                assert(inner_step(nr, nf, dr, df, k - 1, t));
            }
        }
    }
}

/// `t` lies on a line of `kind` through `sq` and is not `sq` itself: the
/// same rank or file for a rook, the same diagonal for a bishop.
pub open spec fn on_line(kind: Slider, sq: int, t: int) -> bool {
    let (r, f, tr, tf) = (sq / 8, sq % 8, t / 8, t % 8);
    t != sq && match kind {
        Slider::Rook => tr == r || tf == f,
        Slider::Bishop => tr - r == tf - f || tr - r == f - tf,
    }
}

/// `t` lies on a line of `kind` through `sq`, is not `sq`, and is not the
/// last square of its ray before the board edge.
pub open spec fn in_mask(kind: Slider, sq: int, t: int) -> bool {
    let (r, f, tr, tf) = (sq / 8, sq % 8, t / 8, t % 8);
    on_line(kind, sq, t) && match kind {
        Slider::Rook => (tr == r ==> 1 <= tf <= 6) && (tf == f ==> 1 <= tr <= 6),
        Slider::Bishop => 1 <= tr <= 6 && 1 <= tf <= 6,
    }
}

proof fn lemma_step_coords(r: int, f: int, dr: int, df: int, k: int, t: int)
    requires
        0 <= t < 64,
    ensures
        at_step(r, f, dr, df, k, t) == (t / 8 == r + k * dr && t % 8 == f + k * df),
{
    let a = r + k * dr;
    let b = f + k * df;
    if at_step(r, f, dr, df, k, t) {
        assert(t / 8 == a && t % 8 == b) by (nonlinear_arith)
            requires
                t == a * 8 + b,
                0 <= b < 8,
        ;
    }
    if t / 8 == a && t % 8 == b {
        assert(on_board(a, b) && t == a * 8 + b) by (nonlinear_arith)
            requires
                t / 8 == a,
                t % 8 == b,
                0 <= t < 64,
        ;
    }
}

proof fn lemma_steps_of_kind(kind: Slider, sq: int, t: int)
    requires
        0 <= sq < 64,
        0 <= t < 64,
    ensures
        forall|j: int, k: int|
            #![trigger at_step(sq / 8, sq % 8, dir_r(kind, j), dir_f(kind, j), k, t)]
            0 <= j < 4 ==> (at_step(sq / 8, sq % 8, dir_r(kind, j), dir_f(kind, j), k, t) == (t / 8
                == sq / 8 + k * dir_r(kind, j) && t % 8 == sq % 8 + k * dir_f(kind, j))),
{
    assert forall|j: int, k: int| 0 <= j < 4 implies #[trigger] at_step(
        sq / 8,
        sq % 8,
        dir_r(kind, j),
        dir_f(kind, j),
        k,
        t,
    ) == (t / 8 == sq / 8 + k * dir_r(kind, j) && t % 8 == sq % 8 + k * dir_f(kind, j)) by {
        lemma_step_coords(sq / 8, sq % 8, dir_r(kind, j), dir_f(kind, j), k, t);
    }
}

/// On an empty board the attack set of `kind` from `sq` is every square on
/// its lines through `sq`, and only those.
pub proof fn lemma_open_board_attacks(kind: Slider, sq: int, t: int)
    requires
        0 <= sq < 64,
        0 <= t < 64,
    ensures
        has(attacks_spec(kind, sq, 0), t) == on_line(kind, sq, t),
{
    let r = sq / 8;
    let f = sq % 8;
    let x0 = ray_of(kind, sq, 0, 0);
    let x1 = ray_of(kind, sq, 1, 0);
    let x2 = ray_of(kind, sq, 2, 0);
    let x3 = ray_of(kind, sq, 3, 0);
    lemma_has_or(x0 | x1 | x2, x3, t);
    lemma_has_or(x0 | x1, x2, t);
    lemma_has_or(x0, x1, t);
    lemma_open_ray(r, f, dir_r(kind, 0), dir_f(kind, 0), 7, t);
    lemma_open_ray(r, f, dir_r(kind, 1), dir_f(kind, 1), 7, t);
    lemma_open_ray(r, f, dir_r(kind, 2), dir_f(kind, 2), 7, t);
    lemma_open_ray(r, f, dir_r(kind, 3), dir_f(kind, 3), 7, t);
    lemma_steps_of_kind(kind, sq, t);
    let tr = t / 8;
    let tf = t % 8;
    if on_line(kind, sq, t) {
        match kind {
            Slider::Rook => {
                if tf == f && tr > r {
                    assert(at_step(r, f, dir_r(kind, 0), dir_f(kind, 0), tr - r, t));
                } else if tf == f && tr < r {
                    assert(at_step(r, f, dir_r(kind, 1), dir_f(kind, 1), r - tr, t));
                } else if tf > f {
                    assert(at_step(r, f, dir_r(kind, 2), dir_f(kind, 2), tf - f, t));
                } else {
                    assert(at_step(r, f, dir_r(kind, 3), dir_f(kind, 3), f - tf, t));
                }
            },
            Slider::Bishop => {
                if tr > r && tf > f {
                    assert(at_step(r, f, dir_r(kind, 0), dir_f(kind, 0), tr - r, t));
                } else if tr > r {
                    assert(at_step(r, f, dir_r(kind, 1), dir_f(kind, 1), tr - r, t));
                } else if tf > f {
                    assert(at_step(r, f, dir_r(kind, 2), dir_f(kind, 2), r - tr, t));
                } else {
                    assert(at_step(r, f, dir_r(kind, 3), dir_f(kind, 3), r - tr, t));
                }
            },
        }
    }
}

/// The blocker mask of `kind` on `sq` holds exactly the squares on its lines
/// through `sq` other than `sq` and the last square before each edge: the
/// own square and edge squares whose occupancy cannot matter are left out.
pub proof fn lemma_mask_squares(kind: Slider, sq: int, t: int)
    requires
        0 <= sq < 64,
        0 <= t < 64,
    ensures
        has(mask_spec(kind, sq), t) == in_mask(kind, sq, t),
{
    let r = sq / 8;
    let f = sq % 8;
    let x0 = mask_ray_of(kind, sq, 0);
    let x1 = mask_ray_of(kind, sq, 1);
    let x2 = mask_ray_of(kind, sq, 2);
    let x3 = mask_ray_of(kind, sq, 3);
    lemma_has_or(x0 | x1 | x2, x3, t);
    lemma_has_or(x0 | x1, x2, t);
    lemma_has_or(x0, x1, t);
    lemma_mask_ray(r, f, dir_r(kind, 0), dir_f(kind, 0), 7, t);
    lemma_mask_ray(r, f, dir_r(kind, 1), dir_f(kind, 1), 7, t);
    lemma_mask_ray(r, f, dir_r(kind, 2), dir_f(kind, 2), 7, t);
    lemma_mask_ray(r, f, dir_r(kind, 3), dir_f(kind, 3), 7, t);
    lemma_steps_of_kind(kind, sq, t);
    let tr = t / 8;
    let tf = t % 8;
    if in_mask(kind, sq, t) {
        match kind {
            Slider::Rook => {
                if tf == f && tr > r {
                    assert(inner_step(r, f, dir_r(kind, 0), dir_f(kind, 0), tr - r, t));
                } else if tf == f && tr < r {
                    assert(inner_step(r, f, dir_r(kind, 1), dir_f(kind, 1), r - tr, t));
                } else if tf > f {
                    assert(inner_step(r, f, dir_r(kind, 2), dir_f(kind, 2), tf - f, t));
                } else {
                    assert(inner_step(r, f, dir_r(kind, 3), dir_f(kind, 3), f - tf, t));
                }
            },
            Slider::Bishop => {
                if tr > r && tf > f {
                    assert(inner_step(r, f, dir_r(kind, 0), dir_f(kind, 0), tr - r, t));
                } else if tr > r {
                    assert(inner_step(r, f, dir_r(kind, 1), dir_f(kind, 1), tr - r, t));
                } else if tf > f {
                    assert(inner_step(r, f, dir_r(kind, 2), dir_f(kind, 2), r - tr, t));
                } else {
                    assert(inner_step(r, f, dir_r(kind, 3), dir_f(kind, 3), r - tr, t));
                }
            },
        }
    }
}

} // verus!
