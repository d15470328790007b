use vstd::prelude::*;

use crate::attacks::{attacks, attacks_spec, lemma_attacks_masked, mask_for, mask_spec, Slider};
use crate::rng::{start_state, xorshift, Rng};

verus! {

/// `o` holds only squares of `m`.
pub open spec fn is_subset(o: u64, m: u64) -> bool {
    o & m == o
}

/// The subset of `m` that follows `s` in increasing order (carry-ripple step).
pub open spec fn next_subset(s: u64, m: u64) -> u64 {
    (s.wrapping_sub(m)) & m
}

proof fn lemma_next_subset(s: u64, t: u64, m: u64)
    requires
        s & m == s,
        t & m == t,
        s < t,
    ensures
        s < next_subset(s, m),
        next_subset(s, m) <= t,
{
    let d = s.wrapping_sub(m);
    assert(s >= m ==> d == ((s - m) as u64));
    assert(s < m ==> d == ((s + (0xffff_ffff_ffff_ffffu64 - m) + 1) as u64));
    assert(s < d & m && d & m <= t) by (bit_vector)
        requires
            s >= m ==> d == ((s - m) as u64),
            s < m ==> d == ((s + (0xffff_ffff_ffff_ffffu64 - m) + 1) as u64),
            s & m == s,
            t & m == t,
            s < t,
    ;
}

/// Every subset of `m`, in increasing order.
pub fn subsets(m: u64) -> (r: Vec<u64>)
    ensures
        forall|i: int| 0 <= i < r.len() ==> is_subset(#[trigger] r[i], m),
        forall|i: int, j: int| 0 <= i < j < r.len() ==> r[i] < r[j],
        forall|t: u64| is_subset(t, m) ==> exists|i: int| 0 <= i < r.len() && r[i] == t,
{
    let mut v: Vec<u64> = Vec::new();
    let mut s: u64 = 0;
    assert(0u64 & m == 0u64) by (bit_vector);
    loop
        invariant_except_break
            forall|i: int| 0 <= i < v.len() ==> #[trigger] v[i] < s,
            forall|t: u64| is_subset(t, m) && t < s ==> exists|i: int| 0 <= i < v.len() && v[i] == t,
        invariant
            is_subset(s, m),
            forall|i: int| 0 <= i < v.len() ==> is_subset(#[trigger] v[i], m),
            forall|i: int, j: int| 0 <= i < j < v.len() ==> v[i] < v[j],
        ensures
            forall|t: u64| is_subset(t, m) ==> exists|i: int| 0 <= i < v.len() && v[i] == t,
        decreases m - s,
    {
        assert(s & m == s ==> s <= m) by (bit_vector);
        let ghost old_v = v@;
        v.push(s);
        assert(forall|i: int| 0 <= i < old_v.len() ==> v[i] == old_v[i]);
        assert(forall|t: u64| is_subset(t, m) && t <= s ==> exists|i: int| 0 <= i < v.len() && v[i] == t) by {
            assert forall|t: u64| is_subset(t, m) && t <= s implies exists|i: int| 0 <= i < v.len() && v[i] == t by {
                if t < s {
                    let i = choose|i: int| 0 <= i < old_v.len() && old_v[i] == t;
                    assert(v[i] == t);
                } else {
                    assert(v[v.len() - 1] == t);
                }
            }
        }
        if s == m {
            assert forall|t: u64| is_subset(t, m) implies exists|i: int| 0 <= i < v.len() && v[i] == t by {
                assert(t & m == t ==> t <= m) by (bit_vector);
            }
            break;
        }
        assert(m & m == m) by (bit_vector);
        proof {
            lemma_next_subset(s, m, m);
        }
        let n = s.wrapping_sub(m) & m;
        assert(n & m == n) by (bit_vector)
            requires
                n == s.wrapping_sub(m) & m,
        ;
        assert forall|t: u64| is_subset(t, m) && t < n implies exists|i: int| 0 <= i < v.len() && v[i] == t by {
            if t > s {
                lemma_next_subset(s, t, m);
            }
        }
        s = n;
    }
    v
}

/// The number of set bits among the lowest `n` bits of `x`.
pub open spec fn count_low(x: u64, n: nat) -> nat
    decreases n,
{
    if n == 0 {
        0
    } else {
        count_low(x, (n - 1) as nat) + ((x >> ((n - 1) as u64)) & 1) as nat
    }
}

pub open spec fn popcount(x: u64) -> nat {
    count_low(x, 64)
}

/// The number of squares of `x`.
pub fn population(x: u64) -> (r: u32)
    ensures
        r as nat == popcount(x),
        r <= 64,
{
    let mut c: u32 = 0;
    let mut i: u64 = 0;
    while i < 64
        invariant
            i <= 64,
            c as nat == count_low(x, i as nat),
            c <= i,
        decreases 64 - i,
    {
        let b = (x >> i) & 1;
        assert(b <= 1) by (bit_vector)
            requires b == (x >> i) & 1;
        c = c + b as u32;
        i = i + 1;
    }
    c
}

/// The table slot of occupancy `o` under multiplier `magic` and shift `shift`.
pub open spec fn magic_index(o: u64, magic: u64, shift: u64) -> int {
    (o.wrapping_mul(magic) >> shift) as int
}

proof fn lemma_index_bound(x: u64, shift: u64)
    requires
        52 <= shift <= 63,
    ensures
        (x >> shift) < (1u64 << (64 - shift) as u64),
        (1u64 << (64 - shift) as u64) <= 4096,
{
    let k: u64 = (64 - shift) as u64;
    assert((x >> shift) < (1u64 << k) && (1u64 << k) <= 4096) by (bit_vector)
        requires
            52 <= shift <= 63,
            k == 64 - shift,
    ;
}

/// Tests a candidate multiplier over the pairs of occupancies and attack
/// sets. It succeeds with the filled table exactly when no two occupancies
/// with different attack sets share a slot.
pub fn check_magic(occs: &Vec<u64>, atts: &Vec<u64>, magic: u64, shift: u64) -> (r: Option<Vec<u64>>)
    requires
        occs.len() == atts.len(),
        52 <= shift <= 63,
    ensures
        match r {
            Some(t) => t.len() == (1u64 << (64 - shift) as u64) && (forall|i: int|
                0 <= i < occs.len() ==> #[trigger] t[magic_index(occs[i], magic, shift)] == atts[i])
                && forall|s: int|
                0 <= s < t.len() && (forall|i: int|
                    0 <= i < occs.len() ==> magic_index(occs[i], magic, shift) != s) ==> #[trigger] t[s]
                    == 0,
            None => exists|i: int, j: int|
                0 <= i < occs.len() && 0 <= j < occs.len() && magic_index(occs[i], magic, shift)
                    == magic_index(occs[j], magic, shift) && atts[i] != atts[j],
        },
{
    proof {
        lemma_index_bound(0, shift);
    }
    let size: usize = (1u64 << (64 - shift)) as usize;
    let mut table: Vec<u64> = Vec::new();
    let mut used: Vec<bool> = Vec::new();
    while table.len() < size
        invariant
            table.len() == used.len(),
            table.len() <= size,
            forall|s: int| 0 <= s < used.len() ==> !used[s] && table[s] == 0,
        decreases size - table.len(),
    {
        table.push(0);
        used.push(false);
    }
    assert forall|o: u64| 0 <= #[trigger] magic_index(o, magic, shift) < size by {
        lemma_index_bound(o.wrapping_mul(magic), shift);
    }
    let mut i: usize = 0;
    while i < occs.len()
        invariant
            forall|o: u64| 0 <= #[trigger] magic_index(o, magic, shift) < size,
            occs.len() == atts.len(),
            52 <= shift <= 63,
            size == (1u64 << (64 - shift) as u64),
            table.len() == size,
            used.len() == size,
            i <= occs.len(),
            forall|j: int|
                0 <= j < i ==> used[magic_index(#[trigger] occs[j], magic, shift)]
                    && table[magic_index(occs[j], magic, shift)] == atts[j],
            forall|s: int|
                0 <= s < size && #[trigger] used[s] ==> exists|j: int|
                    0 <= j < i && magic_index(occs[j], magic, shift) == s && table[s] == atts[j],
            forall|s: int| 0 <= s < size && !used[s] ==> #[trigger] table[s] == 0,
        decreases occs.len() - i,
    {
        let x = occs[i].wrapping_mul(magic) >> shift;
        proof {
            lemma_index_bound(occs[i as int].wrapping_mul(magic), shift);
        }
        let slot = x as usize;
        let ghost old_used = used@;
        assert(magic_index(occs[i as int], magic, shift) == slot);
        if used[slot] {
            if table[slot] != atts[i] {
                proof {
                    let j = choose|j: int|
                        0 <= j < i && magic_index(occs[j], magic, shift) == slot && table[slot as int]
                            == atts[j];
                    assert(atts[j] != atts[i as int]);
                }
                return None;
            }
        } else {
            assert forall|j: int| 0 <= j < i implies magic_index(occs[j], magic, shift) != slot by {
                assert(old_used[magic_index(occs[j], magic, shift)]);
            }
            table.set(slot, atts[i]);
            used.set(slot, true);
            assert forall|s: int|
                0 <= s < size && #[trigger] used[s] implies exists|j: int|
                    0 <= j < i + 1 && magic_index(occs[j], magic, shift) == s && table[s] == atts[j] by {
                if s != slot {
                    assert(old_used[s]);
                }
            }
        }
        i = i + 1;
    }
    assert forall|s: int|
        0 <= s < table.len() && (forall|i: int|
            0 <= i < occs.len() ==> magic_index(occs[i], magic, shift) != s) implies #[trigger] table[s]
        == 0 by {
        if used[s] {
            let j = choose|j: int|
                0 <= j < occs.len() && magic_index(occs[j], magic, shift) == s && table[s] == atts[j];
        }
    }
    Some(table)
}

/// The attack table that multiplier `magic` and shift `shift` give `kind` on
/// `sq`: each slot holds the attack set of a subset of the mask that lands
/// there, or zero where none does.
pub open spec fn table_of(kind: Slider, sq: int, magic: u64, shift: u64) -> Seq<u64> {
    let m = mask_spec(kind, sq);
    Seq::new(
        (1u64 << (64 - shift) as u64) as nat,
        |s: int|
            if exists|o: u64| is_subset(o, m) && magic_index(o, magic, shift) == s {
                attacks_spec(
                    kind,
                    sq,
                    choose|o: u64| is_subset(o, m) && magic_index(o, magic, shift) == s,
                )
            } else {
                0
            },
    )
}

/// Two subsets of the mask that share a slot have the same attack set.
pub open spec fn no_false_collision(kind: Slider, sq: int, magic: u64, shift: u64) -> bool {
    let m = mask_spec(kind, sq);
    forall|o1: u64, o2: u64|
        is_subset(o1, m) && is_subset(o2, m) && #[trigger] magic_index(o1, magic, shift)
            == #[trigger] magic_index(o2, magic, shift) ==> attacks_spec(kind, sq, o1)
            == attacks_spec(kind, sq, o2)
}

/// The bits of the high byte.
pub const HIGH_BYTE: u64 = 0xff00_0000_0000_0000;

/// The high byte of a candidate's product with the mask must hold at least
/// this many bits for the candidate to be tried.
pub const MIN_HIGH_BITS: u32 = 6;

/// A candidate is accepted when it passes the high-byte filter and has no
/// false collision.
pub open spec fn accepted(kind: Slider, sq: int, c: u64) -> bool {
    let m = mask_spec(kind, sq);
    &&& popcount(m.wrapping_mul(c) & HIGH_BYTE) >= MIN_HIGH_BITS
    &&& no_false_collision(kind, sq, c, (64 - popcount(m)) as u64)
}

/// The candidate drawn from generator state `state`: the AND of the next
/// three values.
pub open spec fn candidate_of(state: u64) -> u64 {
    let s1 = xorshift(state);
    let s2 = xorshift(s1);
    let s3 = xorshift(s2);
    s1 & s2 & s3
}

/// The generator state after one candidate is drawn.
pub open spec fn after_candidate(state: u64) -> u64 {
    xorshift(xorshift(xorshift(state)))
}

/// The first accepted candidate among at most `left` drawn from `state`, and
/// the generator state after the last one drawn.
pub open spec fn search_from(kind: Slider, sq: int, state: u64, left: nat) -> (Option<u64>, u64)
    decreases left,
{
    if left == 0 {
        (None, state)
    } else if accepted(kind, sq, candidate_of(state)) {
        (Some(candidate_of(state)), after_candidate(state))
    } else {
        search_from(kind, sq, after_candidate(state), (left - 1) as nat)
    }
}

/// The outcome of the magic search for `kind` on `sq` from generator state
/// `state` with `tries` candidates: nothing is drawn when the mask is empty or
/// has more than twelve squares.
pub open spec fn magic_search(kind: Slider, sq: int, state: u64, tries: nat) -> (Option<u64>, u64) {
    let k = popcount(mask_spec(kind, sq));
    if k == 0 || k > 12 {
        (None, state)
    } else {
        search_from(kind, sq, state, tries)
    }
}

/// A found magic multiplier for one slider on one square, with its dense
/// attack table.
pub struct Magic {
    pub kind: Slider,
    pub square: u8,
    pub mask: u64,
    pub magic: u64,
    pub shift: u8,
    pub table: Vec<u64>,
}

impl Magic {
    /// The table answers every subset of the mask with the naive attack set.
    pub open spec fn wf(&self) -> bool {
        &&& self.square < 64
        &&& self.mask == mask_spec(self.kind, self.square as int)
        &&& self.shift as nat + popcount(self.mask) == 64
        &&& 52 <= self.shift <= 63
        &&& self.table.len() == (1u64 << (64 - self.shift) as u64)
        &&& self.table@ == table_of(self.kind, self.square as int, self.magic, self.shift as u64)
        &&& forall|o: u64|
            is_subset(o, self.mask) ==> #[trigger] self.table[magic_index(
                o,
                self.magic,
                self.shift as u64,
            )] == attacks_spec(self.kind, self.square as int, o)
    }

    /// The attacks over a full-board occupancy, by one table lookup.
    pub fn slider_attacks(&self, occupancy: u64) -> (r: u64)
        requires
            self.wf(),
        ensures
            r == attacks_spec(self.kind, self.square as int, occupancy),
    {
        let relevant = occupancy & self.mask;
        let m = self.mask;
        assert(relevant & m == relevant) by (bit_vector)
            requires
                relevant == occupancy & m,
        ;
        proof {
            lemma_index_bound(relevant.wrapping_mul(self.magic), self.shift as u64);
            lemma_attacks_masked(self.kind, self.square as int, occupancy);
        }
        let slot = (relevant.wrapping_mul(self.magic) >> self.shift) as usize;
        assert(slot == magic_index(relevant, self.magic, self.shift as u64));
        self.table[slot]
    }
}

/// No false collisions: two subsets of the mask that share a slot have the
/// same attack set.
pub proof fn lemma_no_false_collision(e: &Magic, o1: u64, o2: u64)
    requires
        e.wf(),
        is_subset(o1, e.mask),
        is_subset(o2, e.mask),
        magic_index(o1, e.magic, e.shift as u64) == magic_index(o2, e.magic, e.shift as u64),
    ensures
        attacks_spec(e.kind, e.square as int, o1) == attacks_spec(e.kind, e.square as int, o2),
{
    assert(e.table[magic_index(o1, e.magic, e.shift as u64)] == attacks_spec(
        e.kind,
        e.square as int,
        o1,
    ));
    assert(e.table[magic_index(o2, e.magic, e.shift as u64)] == attacks_spec(
        e.kind,
        e.square as int,
        o2,
    ));
}

/// Searches for a magic multiplier for `kind` on `sq`, drawing at most
/// `tries` candidates from `rng`, and returns the first accepted one with its
/// table. Fails when none of them is accepted, and when the mask is empty or
/// has more than twelve squares.
pub fn find_magic(kind: Slider, sq: u8, rng: &mut Rng, tries: u32) -> (r: Option<Magic>)
    requires
        sq < 64,
    ensures
        final(rng).state == magic_search(kind, sq as int, old(rng).state, tries as nat).1,
        match r {
            Some(e) => e.wf() && e.kind == kind && e.square == sq && magic_search(
                kind,
                sq as int,
                old(rng).state,
                tries as nat,
            ).0 == Some(e.magic),
            None => magic_search(kind, sq as int, old(rng).state, tries as nat).0 is None,
        },
{
    let ghost start = rng.state;
    let mask = mask_for(kind, sq);
    let k = population(mask);
    if k == 0 || k > 12 {
        return None;
    }
    let shift: u8 = (64 - k) as u8;
    let occs = subsets(mask);
    let mut atts: Vec<u64> = Vec::new();
    let mut i: usize = 0;
    while i < occs.len()
        invariant
            sq < 64,
            i <= occs.len(),
            atts.len() == i,
            forall|j: int| 0 <= j < i ==> #[trigger] atts[j] == attacks_spec(kind, sq as int, occs[j]),
        decreases occs.len() - i,
    {
        atts.push(attacks(kind, sq, occs[i]));
        i = i + 1;
    }
    let mut t: u32 = 0;
    while t < tries
        invariant
            sq < 64,
            52 <= shift <= 63,
            shift as nat + popcount(mask) == 64,
            mask == mask_spec(kind, sq as int),
            occs.len() == atts.len(),
            forall|j: int| 0 <= j < atts.len() ==> #[trigger] atts[j] == attacks_spec(kind, sq as int, occs[j]),
            forall|j: int| 0 <= j < occs.len() ==> is_subset(#[trigger] occs[j], mask),
            forall|o: u64| is_subset(o, mask) ==> exists|j: int| 0 <= j < occs.len() && occs[j] == o,
            t <= tries,
            start == old(rng).state,
            search_from(kind, sq as int, rng.state, (tries - t) as nat) == magic_search(
                kind,
                sq as int,
                start,
                tries as nat,
            ),
        decreases tries - t,
    {
        let ghost before = rng.state;
        let ghost left = (tries - t) as nat;
        t = t + 1;
        let candidate = rng.next_u64() & rng.next_u64() & rng.next_u64();
        assert(candidate == candidate_of(before) && rng.state == after_candidate(before));
        if population(mask.wrapping_mul(candidate) & HIGH_BYTE) < MIN_HIGH_BITS {
            assert(!accepted(kind, sq as int, candidate));
            continue;
        }
        match check_magic(&occs, &atts, candidate, shift as u64) {
            Some(table) => {
                let e = Magic { kind, square: sq, mask, magic: candidate, shift, table };
                assert forall|o: u64| is_subset(o, e.mask) implies #[trigger] e.table[magic_index(
                    o,
                    e.magic,
                    e.shift as u64,
                )] == attacks_spec(e.kind, e.square as int, o) by {
                    let j = choose|j: int| 0 <= j < occs.len() && occs[j] == o;
                    assert(atts[j] == attacks_spec(kind, sq as int, occs[j]));
                }
                let ghost tab = table_of(kind, sq as int, candidate, shift as u64);
                assert forall|s: int| 0 <= s < e.table.len() implies e.table[s] == tab[s] by {
                    if exists|o: u64| is_subset(o, mask) && magic_index(o, candidate, shift as u64) == s {
                        let o = choose|o: u64|
                            is_subset(o, mask) && magic_index(o, candidate, shift as u64) == s;
                        assert(e.table[magic_index(o, e.magic, e.shift as u64)] == attacks_spec(
                            kind,
                            sq as int,
                            o,
                        ));
                    } else {
                        assert forall|i: int| 0 <= i < occs.len() implies magic_index(
                            occs[i],
                            candidate,
                            shift as u64,
                        ) != s by {
                            assert(is_subset(occs[i], mask));
                        }
                    }
                }
                assert(e.table@ =~= tab);
                assert(no_false_collision(kind, sq as int, candidate, shift as u64)) by {
                    assert forall|o1: u64, o2: u64|
                        is_subset(o1, mask) && is_subset(o2, mask) && #[trigger] magic_index(
                            o1,
                            candidate,
                            shift as u64,
                        ) == #[trigger] magic_index(o2, candidate, shift as u64) implies attacks_spec(
                        kind,
                        sq as int,
                        o1,
                    ) == attacks_spec(kind, sq as int, o2) by {
                        assert(e.table[magic_index(o1, e.magic, e.shift as u64)] == attacks_spec(
                            kind,
                            sq as int,
                            o1,
                        ));
                        assert(e.table[magic_index(o2, e.magic, e.shift as u64)] == attacks_spec(
                            kind,
                            sq as int,
                            o2,
                        ));
                    }
                }
                assert(accepted(kind, sq as int, candidate));
                assert(search_from(kind, sq as int, before, left) == (Some(candidate), rng.state));
                return Some(e);
            },
            None => {
                proof {
                    let (a, b) = choose|a: int, b: int|
                        0 <= a < occs.len() && 0 <= b < occs.len() && magic_index(
                            occs[a],
                            candidate,
                            shift as u64,
                        ) == magic_index(occs[b], candidate, shift as u64) && atts[a] != atts[b];
                    assert(is_subset(occs[a], mask) && is_subset(occs[b], mask));
                    assert(!no_false_collision(kind, sq as int, candidate, shift as u64));
                }
            },
        }
    }
    None
}

/// The slider of entry `i` of a generation run: entries alternate rook and
/// bishop, square by square.
pub open spec fn entry_kind(i: int) -> Slider {
    if i % 2 == 0 {
        Slider::Rook
    } else {
        Slider::Bishop
    }
}

/// The multipliers of entries `i` to 127 appended to `acc`, each search run
/// from the generator state that the one before left; `None` as soon as one
/// search fails.
pub open spec fn magics_from(state: u64, i: nat, tries: nat, acc: Seq<u64>) -> Option<Seq<u64>>
    decreases 128 - i,
{
    if i >= 128 {
        Some(acc)
    } else {
        let (m, next) = magic_search(entry_kind(i as int), (i / 2) as int, state, tries);
        match m {
            Some(c) => magics_from(next, i + 1, tries, acc.push(c)),
            None => None,
        }
    }
}

/// The multipliers that a generation run from `seed` finds, in entry order.
pub open spec fn magics_of_seed(seed: u64, tries: nat) -> Option<Seq<u64>> {
    magics_from(start_state(seed), 0, tries, Seq::empty())
}

/// The magic entries of both sliders on every square.
pub struct AttackTables {
    pub rook: Vec<Magic>,
    pub bishop: Vec<Magic>,
}

impl AttackTables {
    pub open spec fn wf(&self) -> bool {
        &&& self.rook.len() == 64
        &&& self.bishop.len() == 64
        &&& forall|i: int|
            0 <= i < 64 ==> (#[trigger] self.rook[i]).wf() && self.rook[i].kind == Slider::Rook
                && self.rook[i].square == i
        &&& forall|i: int|
            0 <= i < 64 ==> (#[trigger] self.bishop[i]).wf() && self.bishop[i].kind
                == Slider::Bishop && self.bishop[i].square == i
    }

    /// The multipliers in entry order: rook then bishop, square by square.
    pub open spec fn magics(&self) -> Seq<u64> {
        Seq::new(
            128,
            |i: int|
                if i % 2 == 0 {
                    self.rook[i / 2].magic
                } else {
                    self.bishop[i / 2].magic
                },
        )
    }

    /// Searches a magic for each slider on each square, drawing from a
    /// generator seeded with `seed` and at most `tries` candidates per entry.
    /// The multipliers found are those of `magics_of_seed`, and the run fails
    /// exactly when one of its searches does.
    pub fn generate(seed: u64, tries: u32) -> (r: Option<AttackTables>)
        ensures
            match r {
                Some(t) => t.wf() && magics_of_seed(seed, tries as nat) == Some(t.magics()),
                None => magics_of_seed(seed, tries as nat) is None,
            },
    {
        let mut rng = Rng::new(seed);
        let mut rook: Vec<Magic> = Vec::new();
        let mut bishop: Vec<Magic> = Vec::new();
        let ghost mut acc: Seq<u64> = Seq::empty();
        let mut sq: u8 = 0;
        while sq < 64
            invariant
                sq <= 64,
                rook.len() == sq,
                bishop.len() == sq,
                acc.len() == 2 * sq,
                forall|i: int|
                    0 <= i < sq ==> (#[trigger] rook[i]).wf() && rook[i].kind == Slider::Rook
                        && rook[i].square == i && acc[2 * i] == rook[i].magic,
                forall|i: int|
                    0 <= i < sq ==> (#[trigger] bishop[i]).wf() && bishop[i].kind == Slider::Bishop
                        && bishop[i].square == i && acc[2 * i + 1] == bishop[i].magic,
                magics_from(rng.state, (2 * sq) as nat, tries as nat, acc) == magics_of_seed(
                    seed,
                    tries as nat,
                ),
            decreases 64 - sq,
        {
            let ghost s0 = rng.state;
            match find_magic(Slider::Rook, sq, &mut rng, tries) {
                Some(e) => {
                    proof {
                        acc = acc.push(e.magic);
                    }
                    rook.push(e);
                },
                None => {
                    return None;
                },
            }
            let ghost s1 = rng.state;
            assert(magics_from(s1, (2 * sq + 1) as nat, tries as nat, acc) == magics_of_seed(
                seed,
                tries as nat,
            ));
            match find_magic(Slider::Bishop, sq, &mut rng, tries) {
                Some(e) => {
                    proof {
                        acc = acc.push(e.magic);
                    }
                    bishop.push(e);
                },
                None => {
                    return None;
                },
            }
            sq = sq + 1;
        }
        let t = AttackTables { rook, bishop };
        assert(t.magics() =~= acc);
        Some(t)
    }

    /// The attacks of `kind` from `sq` over a full-board occupancy.
    pub fn slider_attacks(&self, kind: Slider, sq: u8, occupancy: u64) -> (r: u64)
        requires
            self.wf(),
            sq < 64,
        ensures
            r == attacks_spec(kind, sq as int, occupancy),
    {
        match kind {
            Slider::Rook => self.rook[sq as usize].slider_attacks(occupancy),
            Slider::Bishop => self.bishop[sq as usize].slider_attacks(occupancy),
        }
    }
}

/// Generation is deterministic: two table sets that a run from one seed
/// with one number of tries can give have the same multipliers, shifts,
/// masks and tables for every slider on every square.
pub proof fn lemma_generation_deterministic(t1: &AttackTables, t2: &AttackTables, seed: u64, tries: nat)
    requires
        t1.wf(),
        t2.wf(),
        magics_of_seed(seed, tries) == Some(t1.magics()),
        magics_of_seed(seed, tries) == Some(t2.magics()),
    ensures
        forall|i: int|
            0 <= i < 64 ==> #[trigger] t1.rook[i].magic == t2.rook[i].magic && t1.rook[i].shift
                == t2.rook[i].shift && t1.rook[i].mask == t2.rook[i].mask && t1.rook[i].table@
                == t2.rook[i].table@,
        forall|i: int|
            0 <= i < 64 ==> #[trigger] t1.bishop[i].magic == t2.bishop[i].magic
                && t1.bishop[i].shift == t2.bishop[i].shift && t1.bishop[i].mask
                == t2.bishop[i].mask && t1.bishop[i].table@ == t2.bishop[i].table@,
{
    assert forall|i: int| 0 <= i < 64 implies #[trigger] t1.rook[i].magic == t2.rook[i].magic by {
        assert(t1.magics()[2 * i] == t2.magics()[2 * i]);
    }
    assert forall|i: int| 0 <= i < 64 implies #[trigger] t1.bishop[i].magic == t2.bishop[i].magic by {
        assert(t1.magics()[2 * i + 1] == t2.magics()[2 * i + 1]);
    }
}

} // verus!
