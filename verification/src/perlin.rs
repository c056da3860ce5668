//! Integer side of Perlin noise: the random permutations of the lattice
//! coordinates and the hash that picks a gradient for each lattice corner.

use vstd::prelude::*;
use crate::random::{Random, small_rng_range_usize_step};
use rand::rngs::SmallRng;

verus! {

broadcast use vstd::seq_lib::group_to_multiset_ensures;

/// Number of gradients, and the period of the lattice hash.
pub const POINT_COUNT: usize = 256;

/// `s` holds each of `0..n` exactly once, in some order.
pub open spec fn is_index_permutation(s: Seq<usize>, n: int) -> bool {
    &&& s.len() == n
    &&& forall|a: int| 0 <= a < n ==> #[trigger] s[a] < n
    &&& forall|a: int, b: int| 0 <= a < b < n ==> #[trigger] s[a] != #[trigger] s[b]
}

/// The sequence `0, 1, ..., n - 1`.
pub open spec fn identity_indices(n: int) -> Seq<usize> {
    Seq::new(n as nat, |a: int| a as usize)
}

/// The lattice coordinate `c + d` reduced to one period.
pub open spec fn wrap_coordinate(c: int, d: int) -> int {
    (c + d) % (POINT_COUNT as int)
}

/// Exchanging two entries of a sequence keeps its multiset of values.
proof fn lemma_swap_keeps_multiset(s: Seq<usize>, a: int, b: int)
    requires
        0 <= a < s.len(),
        0 <= b < s.len(),
    ensures
        s.update(a, s[b]).update(b, s[a]).to_multiset() =~= s.to_multiset(),
{
    let s1 = s.update(a, s[b]);
    vstd::seq_lib::to_multiset_update(s, a, s[b]);
    vstd::seq_lib::to_multiset_update(s1, b, s[a]);
    if a == b {
        assert(s.update(a, s[b]) =~= s);
        assert(s1.update(b, s[a]) =~= s);
    } else {
        assert(s1[b] == s[b]);
    }
}

/// `s` with entries `a` and `b` exchanged.
pub open spec fn swap_entries(s: Seq<usize>, a: int, b: int) -> Seq<usize> {
    s.update(a, s[b]).update(b, s[a])
}

/// What `permute` computes from the first `i` entries of `p` and the generator
/// state `rng`: for `j` from `i - 1` down to `1`, a position `t` is drawn from
/// `0..j` and entries `j` and `t` are exchanged. Gives the entries and the
/// generator state left after the draws.
pub open spec fn shuffled(p: Seq<usize>, i: int, rng: SmallRng) -> (Seq<usize>, SmallRng)
    decreases i,
{
    if i <= 1 {
        (p, rng)
    } else {
        let j = i - 1;
        let (t, next) = small_rng_range_usize_step(rng, 0, j as usize);
        shuffled(swap_entries(p, j, t as int), j, next)
    }
}

/// Every draw that `shuffled(_, i, rng)` makes lands strictly below the entry
/// it is exchanged with: the draw for entry `j` lies in `0..j`.
pub open spec fn draws_stay_below(i: int, rng: SmallRng) -> bool
    decreases i,
{
    if i <= 1 {
        true
    } else {
        let j = i - 1;
        let (t, next) = small_rng_range_usize_step(rng, 0, j as usize);
        t < j && draws_stay_below(j, next)
    }
}

/// `new` is `old` with its first `n` entries moved: entry `a` of `new` is entry
/// `src[a]` of `old`, `src` permutes `0..n` and fixes the rest, and when `n >= 2`
/// no entry of the first `n` stays where it was.
pub open spec fn is_shifted_rearrangement(old: Seq<usize>, new: Seq<usize>, n: int, src: Seq<int>) -> bool {
    &&& src.len() == old.len()
    &&& new.len() == old.len()
    &&& forall|a: int| 0 <= a < old.len() ==> 0 <= #[trigger] src[a] < old.len() && new[a] == old[src[a]]
    &&& forall|a: int| n <= a < old.len() ==> #[trigger] src[a] == a
    &&& forall|a: int| 0 <= a < n ==> #[trigger] src[a] < n
    &&& forall|a: int, b: int| 0 <= a < old.len() && 0 <= b < old.len() && a != b ==> #[trigger] src[a] != #[trigger] src[b]
    &&& n >= 2 ==> forall|a: int| 0 <= a < n ==> #[trigger] src[a] != a
}

/// Shuffles the first `n` entries of `p` in place: for `i` from `n - 1` down to
/// `1`, entry `i` is exchanged with an entry drawn from `0..i`.
pub fn permute(p: &mut [usize; POINT_COUNT], n: usize, rng: &mut Random)
    requires
        n <= POINT_COUNT,
    ensures
        final(p)@.to_multiset() == old(p)@.to_multiset(),
        forall|a: int| n <= a < POINT_COUNT ==> #[trigger] final(p)@[a] == old(p)@[a],
        (forall|b: int| 0 <= b < POINT_COUNT ==> #[trigger] old(p)@[b] < POINT_COUNT)
            ==> (forall|a: int| 0 <= a < POINT_COUNT ==> #[trigger] final(p)@[a] < POINT_COUNT),
        exists|src: Seq<int>| #[trigger] is_shifted_rearrangement(old(p)@, final(p)@, n as int, src),
        (final(p)@, final(rng).rng) == shuffled(old(p)@, n as int, old(rng).rng),
        draws_stay_below(n as int, old(rng).rng),
        n >= 2 ==> final(p)@[n - 1] == old(p)@[small_rng_range_usize_step(old(rng).rng, 0, (n - 1) as usize).0 as int],
{
    let ghost start = p@;
    let ghost start_rng = rng.rng;
    let ghost mut src: Seq<int> = Seq::new(POINT_COUNT as nat, |a: int| a);
    let mut i: usize = n;
    while i > 1
        invariant
            i <= n <= POINT_COUNT,
            p@.len() == POINT_COUNT,
            p@.to_multiset() == start.to_multiset(),
            forall|a: int| n <= a < POINT_COUNT ==> #[trigger] p@[a] == start[a],
            (forall|b: int| 0 <= b < POINT_COUNT ==> #[trigger] start[b] < POINT_COUNT)
                ==> (forall|b: int| 0 <= b < POINT_COUNT ==> #[trigger] p@[b] < POINT_COUNT),
            src.len() == POINT_COUNT,
            forall|a: int| 0 <= a < POINT_COUNT ==> 0 <= #[trigger] src[a] < POINT_COUNT && p@[a] == start[src[a]],
            forall|a: int| n <= a < POINT_COUNT ==> #[trigger] src[a] == a,
            forall|a: int| 0 <= a < n ==> #[trigger] src[a] < n,
            forall|a: int, b: int| 0 <= a < POINT_COUNT && 0 <= b < POINT_COUNT && a != b
                ==> #[trigger] src[a] != #[trigger] src[b],
            // positions from `i` on are settled and hold another position's entry
            forall|a: int| i <= a < n ==> #[trigger] src[a] != a,
            // an unsettled entry is either in place or already settled
            forall|a: int| 0 <= a < i && #[trigger] src[a] < i ==> src[a] == a,
            i == 1 && n >= 2 ==> src[0] != 0,
            shuffled(p@, i as int, rng.rng) == shuffled(start, n as int, start_rng),
            draws_stay_below(i as int, rng.rng) ==> draws_stay_below(n as int, start_rng),
        decreases i,
    {
        let ghost before_rng = rng.rng;
        i = i - 1;
        let target = rng.range(0..i);
        let ghost before = p@;
        let tmp = p[i];
        p[i] = p[target];
        p[target] = tmp;
        proof {
            lemma_swap_keeps_multiset(before, i as int, target as int);
            assert(p@ =~= before.update(i as int, before[target as int]).update(target as int, before[i as int]));
            assert(p@ == swap_entries(before, i as int, target as int));
            assert(shuffled(before, i + 1, before_rng) == shuffled(p@, i as int, rng.rng));
            assert(draws_stay_below(i + 1, before_rng) == (target < i && draws_stay_below(i as int, rng.rng)));
            let old_src = src;
            src = old_src.update(i as int, old_src[target as int]).update(target as int, old_src[i as int]);
            let ii = i as int;
            let t = target as int;
            // the entry now settled at `i` came from `t`, which did not hold entry `i`
            if old_src[t] == ii {
                assert(old_src[t] < ii + 1);
            }
            assert(old_src[ii] >= ii) by {
                if old_src[ii] < ii {
                    assert(old_src[ii] < ii + 1);
                }
            }
            assert forall|a: int, b: int| 0 <= a < POINT_COUNT && 0 <= b < POINT_COUNT && a != b
                implies #[trigger] src[a] != #[trigger] src[b] by {
                assert(old_src[a] != old_src[b] || a == b);
                if a != ii && a != t && b != ii && b != t {
                } else {
                    assert(old_src[ii] != old_src[t]);
                }
            }
            assert forall|a: int| 0 <= a < ii && #[trigger] src[a] < ii implies src[a] == a by {
                if a != t {
                    assert(old_src[a] < ii + 1);
                }
            }
            if ii == 1 && n >= 2 {
                assert(t == 0);
                assert(old_src[1] != 0) by {
                    if old_src[1] < 2 {
                        assert(old_src[1] == 1);
                    }
                }
            }
        }
    }
    proof {
        assert(is_shifted_rearrangement(start, p@, n as int, src));
        if n >= 2 {
            lemma_shuffled_settles_last(start, n as int, start_rng);
        }
    }
}

/// Fills `p` with a random ordering of `0..POINT_COUNT`.
pub fn perlin_generate_perm(p: &mut [usize; POINT_COUNT], rng: &mut Random)
    ensures
        final(p)@.to_multiset() == identity_indices(POINT_COUNT as int).to_multiset(),
        is_index_permutation(final(p)@, POINT_COUNT as int),
        forall|a: int| 0 <= a < POINT_COUNT ==> #[trigger] final(p)@[a] != a,
        (final(p)@, final(rng).rng) == shuffled(identity_indices(POINT_COUNT as int), POINT_COUNT as int, old(rng).rng),
        final(p)@[POINT_COUNT - 1] == small_rng_range_usize_step(old(rng).rng, 0, (POINT_COUNT - 1) as usize).0,
{
    let mut i: usize = 0;
    while i < POINT_COUNT
        invariant
            i <= POINT_COUNT,
            p@.len() == POINT_COUNT,
            forall|a: int| 0 <= a < i ==> #[trigger] p@[a] == a,
        decreases POINT_COUNT - i,
    {
        p[i] = i;
        i = i + 1;
    }
    assert(p@ =~= identity_indices(POINT_COUNT as int));
    let ghost ordered = p@;
    permute(p, POINT_COUNT, rng);
    proof {
        lemma_generated_perm_is_permutation(p@);
        let src = choose|src: Seq<int>| #[trigger] is_shifted_rearrangement(ordered, p@, POINT_COUNT as int, src);
        assert forall|a: int| 0 <= a < POINT_COUNT implies #[trigger] p@[a] != a by {
            assert(p@[a] == ordered[src[a]]);
            assert(ordered[src[a]] == src[a]);
        }
    }
}

/// Hash of the lattice corner `(i + di, j + dj, k + dk)`: the exclusive or of the
/// three permutations at the corner's coordinates taken modulo the period.
pub fn corner_index(
    perm_x: &[usize; POINT_COUNT],
    perm_y: &[usize; POINT_COUNT],
    perm_z: &[usize; POINT_COUNT],
    i: i64,
    j: i64,
    k: i64,
    di: usize,
    dj: usize,
    dk: usize,
) -> (r: usize)
    requires
        di < 2,
        dj < 2,
        dk < 2,
        i + di <= i64::MAX,
        j + dj <= i64::MAX,
        k + dk <= i64::MAX,
    ensures
        r == perm_x@[wrap_coordinate(i as int, di as int)] ^ perm_y@[wrap_coordinate(j as int, dj as int)]
            ^ perm_z@[wrap_coordinate(k as int, dk as int)],
        (forall|a: int| 0 <= a < POINT_COUNT ==> #[trigger] perm_x@[a] < POINT_COUNT)
            && (forall|a: int| 0 <= a < POINT_COUNT ==> #[trigger] perm_y@[a] < POINT_COUNT)
            && (forall|a: int| 0 <= a < POINT_COUNT ==> #[trigger] perm_z@[a] < POINT_COUNT)
            ==> r < POINT_COUNT,
{
    let x: i64 = i + di as i64;
    let y: i64 = j + dj as i64;
    let z: i64 = k + dk as i64;
    assert(x & 255 == x % 256) by (bit_vector);
    assert(y & 255 == y % 256) by (bit_vector);
    assert(z & 255 == z % 256) by (bit_vector);
    let ix = (x & 255) as usize;
    let iy = (y & 255) as usize;
    let iz = (z & 255) as usize;
    let a = perm_x[ix];
    let b = perm_y[iy];
    let c = perm_z[iz];
    let r = a ^ b ^ c;
    assert(a < 256 && b < 256 && c < 256 ==> a ^ b ^ c < 256) by (bit_vector);
    r
}

/// One step of the shuffle: for entry `i - 1` a position `t` is drawn from
/// `0..i - 1` and the two entries are exchanged; the rest of the shuffle
/// continues from the generator state the draw leaves.
pub proof fn lemma_shuffled_step(p: Seq<usize>, i: int, rng: SmallRng)
    requires
        i >= 2,
    ensures
        ({
            let (t, next) = small_rng_range_usize_step(rng, 0, (i - 1) as usize);
            shuffled(p, i, rng) == shuffled(p.update(i - 1, p[t as int]).update(t as int, p[i - 1]), i - 1, next)
        }),
{
}

/// The shuffle of the first `i` entries leaves every entry from `i` on, and the
/// length, as they were.
pub proof fn lemma_shuffled_keeps_tail(p: Seq<usize>, i: int, rng: SmallRng, a: int)
    requires
        0 <= i <= p.len(),
        draws_stay_below(i, rng),
        i <= a < p.len(),
    ensures
        shuffled(p, i, rng).0.len() == p.len(),
        shuffled(p, i, rng).0[a] == p[a],
    decreases i,
{
    if i > 1 {
        let j = i - 1;
        let (t, next) = small_rng_range_usize_step(rng, 0, j as usize);
        let q = swap_entries(p, j, t as int);
        assert(q.len() == p.len() && q[a] == p[a]);
        lemma_shuffled_keeps_tail(q, j, next, a);
    }
}

/// The last entry the shuffle reaches ends up holding the entry at the
/// position first drawn, and keeps it.
pub proof fn lemma_shuffled_settles_last(p: Seq<usize>, n: int, rng: SmallRng)
    requires
        2 <= n <= p.len(),
        draws_stay_below(n, rng),
    ensures
        shuffled(p, n, rng).0[n - 1] == p[small_rng_range_usize_step(rng, 0, (n - 1) as usize).0 as int],
{
    let j = n - 1;
    let (t, next) = small_rng_range_usize_step(rng, 0, j as usize);
    let q = swap_entries(p, j, t as int);
    assert(q[j] == p[t as int]);
    lemma_shuffled_keeps_tail(q, j, next, j);
}

/// The lattice coordinate is wrapped to its residue modulo the period: it lies
/// in `0..POINT_COUNT` and differs from `c + d` by a multiple of the period, so
/// the hash repeats every `POINT_COUNT` steps along each axis.
pub proof fn lemma_wrap_coordinate_is_residue(c: int, d: int)
    ensures
        0 <= wrap_coordinate(c, d) < POINT_COUNT,
        (c + d - wrap_coordinate(c, d)) % (POINT_COUNT as int) == 0,
        wrap_coordinate(c + POINT_COUNT as int, d) == wrap_coordinate(c, d),
        0 <= c + d < POINT_COUNT ==> wrap_coordinate(c, d) == c + d,
{
    let m = POINT_COUNT as int;
    vstd::arithmetic::div_mod::lemma_fundamental_div_mod(c + d, m);
    vstd::arithmetic::div_mod::lemma_mod_add_multiples_vanish(c + d, m);
    let w = (c + d) % m;
    assert(c + d - w == m * ((c + d) / m));
    vstd::arithmetic::div_mod::lemma_mod_multiples_basic((c + d) / m, m);
    assert(((c + d) / m) * m == m * ((c + d) / m)) by (nonlinear_arith);
    if 0 <= c + d < m {
        vstd::arithmetic::div_mod::lemma_small_mod((c + d) as nat, m as nat);
    }
}

/// The corner hash repeats with the lattice period along each axis.
pub proof fn lemma_corner_hash_periodic(
    perm_x: Seq<usize>,
    perm_y: Seq<usize>,
    perm_z: Seq<usize>,
    i: int,
    j: int,
    k: int,
    di: int,
    dj: int,
    dk: int,
)
    ensures
        perm_x[wrap_coordinate(i + POINT_COUNT as int, di)] ^ perm_y[wrap_coordinate(j, dj)] ^ perm_z[wrap_coordinate(k, dk)]
            == perm_x[wrap_coordinate(i, di)] ^ perm_y[wrap_coordinate(j, dj)] ^ perm_z[wrap_coordinate(k, dk)],
        perm_x[wrap_coordinate(i, di)] ^ perm_y[wrap_coordinate(j + POINT_COUNT as int, dj)] ^ perm_z[wrap_coordinate(k, dk)]
            == perm_x[wrap_coordinate(i, di)] ^ perm_y[wrap_coordinate(j, dj)] ^ perm_z[wrap_coordinate(k, dk)],
        perm_x[wrap_coordinate(i, di)] ^ perm_y[wrap_coordinate(j, dj)] ^ perm_z[wrap_coordinate(k + POINT_COUNT as int, dk)]
            == perm_x[wrap_coordinate(i, di)] ^ perm_y[wrap_coordinate(j, dj)] ^ perm_z[wrap_coordinate(k, dk)],
{
    lemma_wrap_coordinate_is_residue(i, di);
    lemma_wrap_coordinate_is_residue(j, dj);
    lemma_wrap_coordinate_is_residue(k, dk);
}

/// A permutation built by `perlin_generate_perm` holds each index exactly once.
pub proof fn lemma_generated_perm_is_permutation(s: Seq<usize>)
    requires
        s.len() == POINT_COUNT,
        s.to_multiset() == identity_indices(POINT_COUNT as int).to_multiset(),
    ensures
        is_index_permutation(s, POINT_COUNT as int),
{
    let id = identity_indices(POINT_COUNT as int);
    assert forall|a: int| 0 <= a < POINT_COUNT implies #[trigger] s[a] < POINT_COUNT by {
        assert(s.contains(s[a]));
        assert(id.to_multiset().count(s[a]) > 0);
        assert(id.contains(s[a]));
    }
    assert forall|a: int, b: int| 0 <= a < b < POINT_COUNT implies #[trigger] s[a] != #[trigger] s[b] by {
        if s[a] == s[b] {
            let v = s[a];
            assert(s.contains(v));
            assert(id.to_multiset().count(v) > 0);
            assert(id.no_duplicates());
            assert(id.to_multiset().count(v) <= 1) by {
                id.lemma_multiset_has_no_duplicates();
            }
            assert(s.to_multiset().count(v) >= 2) by {
                let s2 = s.remove(b);
                assert(s2[a] == v);
                assert(s2.contains(v));
                assert(s2.to_multiset().count(v) >= 1);
            }
        }
    }
}

} // verus!
