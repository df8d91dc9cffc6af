//! The integer side of Perlin noise: the three random permutations of the
//! lattice and the hash that picks a gradient for a lattice point.

use vstd::prelude::*;
use crate::rng::random_u32_below;

verus! {

/// `v` holds every integer of `[0, n)` exactly once.
pub open spec fn is_permutation_of_range(v: Seq<i32>, n: int) -> bool {
    &&& v.len() == n
    &&& forall|i: int| 0 <= i < n ==> 0 <= #[trigger] v[i] < n
    &&& forall|i: int, j: int| 0 <= i < j < n ==> #[trigger] v[i] != #[trigger] v[j]
}

/// The gradient index of lattice point `(i, j, k)`: the permutations are read
/// at the low eight bits of each coordinate and combined by exclusive or.
pub open spec fn spec_lattice_index(px: Seq<i32>, py: Seq<i32>, pz: Seq<i32>, i: i32, j: i32, k: i32) -> int {
    (px[(i & 255) as int] ^ py[(j & 255) as int] ^ pz[(k & 255) as int]) as int
}

/// The position reached from `start` after following `p` (from a position to
/// the value stored there) `k` times.
pub open spec fn orbit(p: Seq<i32>, start: int, k: nat) -> int
    decreases k,
{
    if k == 0 {
        start
    } else {
        p[orbit(p, start, (k - 1) as nat)] as int
    }
}

/// Following `p` from position 0 reaches position `q`.
pub open spec fn reached_from_zero(p: Seq<i32>, q: int) -> bool {
    exists|k: nat| #[trigger] orbit(p, 0, k) == q
}

/// Following `p` from position 0 visits every position: `p` is one cycle.
pub open spec fn is_single_cycle(p: Seq<i32>) -> bool {
    forall|q: int| 0 <= q < p.len() ==> #[trigger] reached_from_zero(p, q)
}

/// `l` lists one cycle of `p` in the order `p` follows it, starting at `r`.
spec fn cycle_list(p: Seq<i32>, n: int, l: Seq<int>, r: int) -> bool {
    &&& 1 <= l.len()
    &&& l[0] == r
    &&& l.no_duplicates()
    &&& forall|k: int| 0 <= k < l.len() ==> 0 <= #[trigger] l[k] < n
    &&& forall|k: int| 0 <= k < l.len() - 1 ==> #[trigger] p[l[k]] as int == l[k + 1]
    &&& p[l[l.len() - 1]] as int == r
}

/// The cycles of `p`, one per representative `0..reps`: `lists[r]` is the
/// cycle of `r`, and `rep[x]` names the cycle that holds position `x`.
spec fn cycles(p: Seq<i32>, n: int, lists: Seq<Seq<int>>, rep: Seq<int>, reps: int) -> bool {
    &&& p.len() == n
    &&& 1 <= reps <= n
    &&& lists.len() == reps
    &&& rep.len() == n
    &&& forall|x: int| 0 <= x < n ==> 0 <= #[trigger] rep[x] < reps && lists[rep[x]].contains(x)
    &&& forall|r: int| 0 <= r < reps ==> cycle_list(p, n, #[trigger] lists[r], r)
    &&& forall|r: int, k: int|
        #![trigger lists[r][k]]
        0 <= r < reps && 0 <= k < lists[r].len() ==> rep[lists[r][k]] == r
}

/// Exchanging the values at the representative `a` of one cycle and the
/// representative `t` of another joins the two cycles into one, kept under `t`.
proof fn lemma_merge_cycles(
    p: Seq<i32>,
    n: int,
    lists: Seq<Seq<int>>,
    rep: Seq<int>,
    a: int,
    t: int,
) -> (merged: (Seq<Seq<int>>, Seq<int>))
    requires
        cycles(p, n, lists, rep, a + 1),
        0 <= t < a,
    ensures
        cycles(p.update(a, p[t]).update(t, p[a]), n, merged.0, merged.1, a),
{
    let q = p.update(a, p[t]).update(t, p[a]);
    let la = lists[a];
    let lb = lists[t];
    assert(cycle_list(p, n, la, a));
    assert(cycle_list(p, n, lb, t));
    assert(rep[la[0]] == a);
    assert(rep[lb[0]] == t);
    let sa = la.skip(1);
    let sb = lb.skip(1);
    let m = seq![t] + sa + seq![a] + sb;
    let ia = sa.len() as int;
    assert(m.len() == la.len() + lb.len());
    assert(forall|j: int| 0 <= j < sa.len() ==> #[trigger] sa[j] == la[j + 1]);
    assert(forall|j: int| 0 <= j < sb.len() ==> #[trigger] sb[j] == lb[j + 1]);
    assert(m[0] == t);
    assert(forall|j: int| 0 <= j < ia ==> #[trigger] m[1 + j] == la[j + 1]);
    assert(m[ia + 1] == a);
    assert(forall|j: int| 0 <= j < sb.len() ==> #[trigger] m[ia + 2 + j] == lb[j + 1]);
    // which cycle each entry of the joined list came from
    assert forall|k: int| 0 <= k < m.len() implies (#[trigger] rep[m[k]] == a || rep[m[k]] == t)
        && 0 <= m[k] < n by {
        if k == 0 {
        } else if k <= ia {
            assert(m[k] == la[k]);
        } else if k == ia + 1 {
        } else {
            assert(m[k] == lb[k - ia - 1]);
        }
    }
    let lists2 = lists.subrange(0, a).update(t, m);
    let rep2 = Seq::new(n as nat, |x: int| if rep[x] == a { t } else { rep[x] });
    // the joined list follows the exchanged values around one cycle
    assert forall|k: int| 0 <= k < m.len() - 1 implies #[trigger] q[m[k]] as int == m[k + 1] by {
        if k == 0 {
            if la.len() > 1 {
                assert(p[la[0]] as int == la[1]);
            }
        } else if k <= ia {
            assert(m[k] == la[k]);
            assert(la[k] != la[0]);
            assert(rep[la[k]] == a);
            if k < ia {
                assert(p[la[k]] as int == la[k + 1]);
            }
        } else if k == ia + 1 {
            assert(lb.len() > 1);
            assert(p[lb[0]] as int == lb[1]);
        } else {
            let j = k - ia - 1;
            assert(m[k] == lb[j]);
            assert(lb[j] != lb[0]);
            assert(rep[lb[j]] == t);
            assert(p[lb[j]] as int == lb[j + 1]);
        }
    }
    assert(q[m[m.len() - 1]] as int == t) by {
        if lb.len() > 1 {
            let j = lb.len() - 1;
            assert(m[m.len() - 1] == lb[j]);
            assert(lb[j] != lb[0]);
            assert(rep[lb[j]] == t);
        }
    }
    assert(m.no_duplicates()) by {
        assert forall|i: int, j: int| 0 <= i < j < m.len() implies m[i] != m[j] by {
            if rep[m[i]] == rep[m[j]] {
                let fi = if i == 0 { 0 } else if i <= ia { i } else if i == ia + 1 { 0 } else { i - ia - 1 };
                let fj = if j <= ia { j } else if j == ia + 1 { 0 } else { j - ia - 1 };
                if rep[m[i]] == a {
                    assert(m[i] == la[fi]);
                    assert(m[j] == la[fj]);
                } else {
                    assert(m[i] == lb[fi]);
                    assert(m[j] == lb[fj]);
                }
            }
        }
    }
    assert(cycle_list(q, n, m, t));
    assert forall|r: int| 0 <= r < a implies cycle_list(q, n, #[trigger] lists2[r], r) by {
        if r != t {
            let l = lists[r];
            assert(lists2[r] == l);
            assert(cycle_list(p, n, l, r));
            assert forall|k: int| 0 <= k < l.len() implies #[trigger] q[l[k]] == p[l[k]] by {
                assert(rep[l[k]] == r);
            }
            assert(q[l[l.len() - 1]] == p[l[l.len() - 1]]);
        }
    }
    assert forall|r: int, k: int|
        #![trigger lists2[r][k]]
        0 <= r < a && 0 <= k < lists2[r].len() implies rep2[lists2[r][k]] == r by {
        if r != t {
            assert(lists2[r] == lists[r]);
            assert(rep[lists[r][k]] == r);
        } else {
            assert(rep[m[k]] == a || rep[m[k]] == t);
        }
    }
    assert forall|x: int| 0 <= x < n implies 0 <= #[trigger] rep2[x] < a && lists2[rep2[x]].contains(
        x,
    ) by {
        let r = rep[x];
        assert(lists[r].contains(x));
        let j = choose|j: int| 0 <= j < lists[r].len() && lists[r][j] == x;
        if r == a {
            if j == 0 {
                assert(m[ia + 1] == x);
            } else {
                assert(m[j] == x);
            }
        } else if r == t {
            if j == 0 {
                assert(m[0] == x);
            } else {
                assert(m[ia + 1 + j] == x);
            }
        } else {
            assert(lists2[r] == lists[r]);
        }
    }
    (lists2, rep2)
}

/// Following `p` from the start of a listed cycle walks the list in order.
proof fn lemma_orbit_follows_cycle(p: Seq<i32>, n: int, l: Seq<int>, k: int)
    requires
        cycle_list(p, n, l, l[0]),
        0 <= k < l.len(),
    ensures
        orbit(p, l[0], k as nat) == l[k],
    decreases k,
{
    if k > 0 {
        lemma_orbit_follows_cycle(p, n, l, k - 1);
        assert(p[l[k - 1]] as int == l[k]);
    }
}

/// A permutation whose cycles all have representative 0 is a single cycle.
proof fn lemma_one_cycle_is_single(p: Seq<i32>, n: int, lists: Seq<Seq<int>>, rep: Seq<int>)
    requires
        cycles(p, n, lists, rep, 1),
    ensures
        is_single_cycle(p),
{
    assert forall|q: int| 0 <= q < p.len() implies #[trigger] reached_from_zero(p, q) by {
        let l = lists[0];
        assert(rep[q] == 0);
        assert(cycle_list(p, n, l, 0));
        let j = choose|j: int| 0 <= j < l.len() && l[j] == q;
        lemma_orbit_follows_cycle(p, n, l, j);
        assert(orbit(p, 0, j as nat) == q);
    }
}

/// A valid sequence of draws for `n` values: one target per position, and
/// the target drawn for position `i >= 1` lies strictly below `i`
/// (`gen_range(0..i)`); position 0 draws nothing and holds 0.
pub open spec fn is_draw_sequence(draws: Seq<u32>, n: int) -> bool {
    &&& draws.len() == n
    &&& forall|i: int| 1 <= i < n ==> #[trigger] draws[i] < i
}

/// `p` with the values at positions `i` and `t` exchanged.
pub open spec fn swap_positions(p: Seq<i32>, i: int, t: int) -> Seq<i32> {
    p.update(i, p[t]).update(t, p[i])
}

/// Applies to `p` the exchanges of positions `index - 1`, `index - 2`, ..., 1,
/// in that order, each with the target drawn for it.
pub open spec fn shuffle_from(p: Seq<i32>, draws: Seq<u32>, index: int) -> Seq<i32>
    decreases index,
{
    if index <= 1 {
        p
    } else {
        shuffle_from(swap_positions(p, index - 1, draws[index - 1] as int), draws, index - 1)
    }
}

/// The permutation that the draws give: `0, 1, ..., n - 1` with the exchanges
/// applied from the last position down.
pub open spec fn spec_shuffle(n: int, draws: Seq<u32>) -> Seq<i32> {
    shuffle_from(Seq::new(n as nat, |i: int| i as i32), draws, n)
}

/// No two positions of `p` hold the same value.
spec fn distinct_values(p: Seq<i32>) -> bool {
    forall|a: int, b: int| 0 <= a < p.len() && 0 <= b < p.len() && a != b ==> p[a] != p[b]
}

/// The draws for positions below `index` lie below their positions.
spec fn draws_below(draws: Seq<u32>, index: int) -> bool {
    forall|x: int| 1 <= x < index ==> #[trigger] draws[x] < x
}

/// The exchanges for positions below `index` leave every position from
/// `index` on as it was.
proof fn lemma_shuffle_keeps_upper(p: Seq<i32>, draws: Seq<u32>, index: int, m: int)
    requires
        index <= p.len(),
        index <= m < p.len(),
        draws_below(draws, index),
    ensures
        shuffle_from(p, draws, index).len() == p.len(),
        shuffle_from(p, draws, index)[m] == p[m],
    decreases index,
{
    if index > 1 {
        let t = draws[index - 1] as int;
        let q = swap_positions(p, index - 1, t);
        lemma_shuffle_keeps_upper(q, draws, index - 1, m);
    }
}

/// Two runs of the exchanges from the same distinct start that end in the same
/// permutation drew the same targets.
proof fn lemma_shuffle_determines_draws(p: Seq<i32>, d1: Seq<u32>, d2: Seq<u32>, index: int)
    requires
        index <= p.len(),
        distinct_values(p),
        draws_below(d1, index),
        draws_below(d2, index),
        shuffle_from(p, d1, index) == shuffle_from(p, d2, index),
    ensures
        forall|x: int| 1 <= x < index ==> #[trigger] d1[x] == d2[x],
    decreases index,
{
    if index > 1 {
        let top = index - 1;
        let t1 = d1[top] as int;
        let t2 = d2[top] as int;
        let q1 = swap_positions(p, top, t1);
        let q2 = swap_positions(p, top, t2);
        lemma_shuffle_keeps_upper(q1, d1, top, top);
        lemma_shuffle_keeps_upper(q2, d2, top, top);
        assert(q1[top] == p[t1]);
        assert(q2[top] == p[t2]);
        assert(t1 == t2);
        assert(distinct_values(q1)) by {
            assert forall|a: int, b: int| 0 <= a < q1.len() && 0 <= b < q1.len() && a != b implies q1[a]
                != q1[b] by {
                let fa = if a == top { t1 } else if a == t1 { top } else { a };
                let fb = if b == top { t1 } else if b == t1 { top } else { b };
                assert(q1[a] == p[fa]);
                assert(q1[b] == p[fb]);
            }
        }
        lemma_shuffle_determines_draws(q1, d1, d2, top);
    }
}

/// Different draws give different permutations: two draw sequences that
/// produce the same permutation agree at every position that draws (every
/// position from 1 on). So each drawn target shows in the result, and a run
/// whose draws differ from another's yields another permutation.
pub proof fn lemma_draws_determine_permutation(n: int, d1: Seq<u32>, d2: Seq<u32>)
    requires
        0 <= n <= i32::MAX,
        is_draw_sequence(d1, n),
        is_draw_sequence(d2, n),
        spec_shuffle(n, d1) == spec_shuffle(n, d2),
    ensures
        forall|x: int| 1 <= x < n ==> #[trigger] d1[x] == d2[x],
{
    let id = Seq::new(n as nat, |x: int| x as i32);
    assert(distinct_values(id)) by {
        assert forall|a: int, b: int| 0 <= a < id.len() && 0 <= b < id.len() && a != b implies id[a]
            != id[b] by {
            assert(id[a] as int == a);
            assert(id[b] as int == b);
        }
    }
    lemma_shuffle_determines_draws(id, d1, d2, n);
}

/// Builds the permutation that the drawn targets give: starts from
/// `0, 1, ..., element_count - 1` and, walking down from the last position to
/// position 1, exchanges each position with the target drawn for it. As every
/// target lies below its position, each exchange joins the cycle of the
/// current position to the cycle of a lower one, so the result is a single
/// cycle: following it from position 0 visits every position, and from two
/// values on no value stays at its own position.
pub fn permutation_from_draws(element_count: u32, draws: &Vec<u32>) -> (permutation: Vec<i32>)
    requires
        element_count <= i32::MAX,
        is_draw_sequence(draws@, element_count as int),
    ensures
        permutation@ == spec_shuffle(element_count as int, draws@),
        is_permutation_of_range(permutation@, element_count as int),
        element_count >= 2 ==> forall|q: int|
            0 <= q < element_count ==> #[trigger] permutation@[q] != q,
        is_single_cycle(permutation@),
{
    let mut fresh: Vec<i32> = Vec::new();
    let mut value: u32 = 0;
    while value < element_count
        invariant
            value <= element_count <= i32::MAX,
            fresh@.len() == value,
            forall|i: int| 0 <= i < value ==> #[trigger] fresh@[i] == i,
        decreases element_count - value,
    {
        fresh.push(value as i32);
        value = value + 1;
    }
    let ghost n = element_count as int;
    assert(fresh@ =~= Seq::new(n as nat, |i: int| i as i32));
    let ghost mut lists: Seq<Seq<int>> = Seq::new(n as nat, |r: int| seq![r]);
    let ghost mut rep: Seq<int> = Seq::new(n as nat, |x: int| x);
    proof {
        if n >= 1 {
            assert forall|x: int| 0 <= x < n implies 0 <= #[trigger] rep[x] < n && lists[rep[
                x
            ]].contains(x) by {
                assert(lists[x][0] == x);
            }
            assert forall|r: int| 0 <= r < n implies cycle_list(fresh@, n, #[trigger] lists[r], r) by {
                assert(lists[r].no_duplicates());
            }
        }
    }
    let mut index: u32 = element_count;
    while index > 1
        invariant
            index <= element_count <= i32::MAX,
            n == element_count,
            n >= 1 ==> index >= 1,
            is_draw_sequence(draws@, n),
            shuffle_from(fresh@, draws@, index as int) == spec_shuffle(n, draws@),
            is_permutation_of_range(fresh@, element_count as int),
            forall|q: int| 0 <= q < index ==> #[trigger] fresh@[q] == q || fresh@[q] >= index,
            forall|q: int| index <= q < element_count && q >= 1 ==> #[trigger] fresh@[q] != q,
            index <= 1 && 2 <= element_count ==> fresh@[0] != 0,
            n >= 1 ==> cycles(fresh@, n, lists, rep, if index == 0 { 1 } else { index as int }),
        decreases index,
    {
        index = index - 1;
        let target: u32 = draws[index as usize];
        let ghost before = fresh@;
        let temp = fresh[index as usize];
        let moved = fresh[target as usize];
        fresh.set(index as usize, moved);
        fresh.set(target as usize, temp);
        proof {
            assert(fresh@ == swap_positions(before, index as int, target as int));
            let merged = lemma_merge_cycles(before, n, lists, rep, index as int, target as int);
            lists = merged.0;
            rep = merged.1;
        }
    }
    proof {
        if n >= 1 {
            lemma_one_cycle_is_single(fresh@, n, lists, rep);
        }
    }
    fresh
}

/// Fills `vector` with a random permutation of `0, 1, ..., desired_element_count - 1`:
/// walking down from the last position to position 1, the target of each
/// position is drawn strictly below it (`gen_range(0..index)` on the thread
/// generator), and `permutation_from_draws` applies the exchanges. Whatever is
/// drawn, the result is a single cycle over all values. Counts above
/// `i32::MAX` cannot be listed as `i32` values and are excluded.
pub fn generate_permutation(rng: &mut rand::rngs::ThreadRng, vector: &mut Vec<i32>, desired_element_count: u32)
    requires
        desired_element_count <= i32::MAX,
    ensures
        exists|draws: Seq<u32>|
            #[trigger] is_draw_sequence(draws, desired_element_count as int) && final(vector)@
                == spec_shuffle(desired_element_count as int, draws),
        is_permutation_of_range(final(vector)@, desired_element_count as int),
        desired_element_count >= 2 ==> forall|q: int|
            0 <= q < desired_element_count ==> #[trigger] final(vector)@[q] != q,
        is_single_cycle(final(vector)@),
{
    let mut draws: Vec<u32> = Vec::new();
    let mut filled: u32 = 0;
    while filled < desired_element_count
        invariant
            filled <= desired_element_count,
            draws@.len() == filled,
            forall|i: int| 0 <= i < filled ==> #[trigger] draws@[i] == 0,
        decreases desired_element_count - filled,
    {
        draws.push(0);
        filled = filled + 1;
    }
    let mut index: u32 = desired_element_count;
    while index > 1
        invariant
            index <= desired_element_count,
            draws@.len() == desired_element_count,
            forall|i: int| 1 <= i < desired_element_count ==> #[trigger] draws@[i] < i,
        decreases index,
    {
        index = index - 1;
        let target = random_u32_below(rng, index);
        draws.set(index as usize, target);
    }
    assert(is_draw_sequence(draws@, desired_element_count as int));
    *vector = permutation_from_draws(desired_element_count, &draws);
}

/// Exclusive or cancels a shared part: two combinations that agree in two of
/// their three parts are equal exactly when their third parts are.
proof fn lemma_xor_cancels(a: i32, b: i32, c: i32, d: i32)
    ensures
        ((a ^ b ^ c) == (a ^ b ^ d)) == (c == d),
        ((a ^ c ^ b) == (a ^ d ^ b)) == (c == d),
        ((c ^ a ^ b) == (d ^ a ^ b)) == (c == d),
{
    assert(((a ^ b ^ c) == (a ^ b ^ d)) == (c == d)) by (bit_vector);
    assert(((a ^ c ^ b) == (a ^ d ^ b)) == (c == d)) by (bit_vector);
    assert(((c ^ a ^ b) == (d ^ a ^ b)) == (c == d)) by (bit_vector);
}

/// How each coordinate enters the lattice hash: moving a lattice point along
/// z alone (from `k` to `k2`) changes its index exactly when the z permutation
/// differs at positions `k & 255` and `k2 & 255`; likewise `j` reads only the
/// y permutation and `i` only the x permutation.
pub proof fn lemma_lattice_index_reads_each_axis(
    px: Seq<i32>,
    py: Seq<i32>,
    pz: Seq<i32>,
    i: i32,
    j: i32,
    k: i32,
    i2: i32,
    j2: i32,
    k2: i32,
)
    ensures
        (spec_lattice_index(px, py, pz, i, j, k) == spec_lattice_index(px, py, pz, i, j, k2)) == (
        pz[(k & 255) as int] == pz[(k2 & 255) as int]),
        (spec_lattice_index(px, py, pz, i, j, k) == spec_lattice_index(px, py, pz, i, j2, k)) == (
        py[(j & 255) as int] == py[(j2 & 255) as int]),
        (spec_lattice_index(px, py, pz, i, j, k) == spec_lattice_index(px, py, pz, i2, j, k)) == (
        px[(i & 255) as int] == px[(i2 & 255) as int]),
{
    let a = px[(i & 255) as int];
    let b = py[(j & 255) as int];
    let c = pz[(k & 255) as int];
    lemma_xor_cancels(a, b, c, pz[(k2 & 255) as int]);
    lemma_xor_cancels(a, c, b, py[(j2 & 255) as int]);
    lemma_xor_cancels(b, c, a, px[(i2 & 255) as int]);
}

/// With lattice permutations of at least 256 values, the gradient index
/// changes whenever a lattice point moves along one axis to a position with a
/// different low eight bits: the noise varies along x, y and z.
pub proof fn lemma_lattice_index_varies_along_each_axis(
    px: Seq<i32>,
    py: Seq<i32>,
    pz: Seq<i32>,
    n: int,
    i: i32,
    j: i32,
    k: i32,
    i2: i32,
    j2: i32,
    k2: i32,
)
    requires
        n >= 256,
        is_permutation_of_range(px, n),
        is_permutation_of_range(py, n),
        is_permutation_of_range(pz, n),
    ensures
        (k & 255) != (k2 & 255) ==> spec_lattice_index(px, py, pz, i, j, k) != spec_lattice_index(
            px,
            py,
            pz,
            i,
            j,
            k2,
        ),
        (j & 255) != (j2 & 255) ==> spec_lattice_index(px, py, pz, i, j, k) != spec_lattice_index(
            px,
            py,
            pz,
            i,
            j2,
            k,
        ),
        (i & 255) != (i2 & 255) ==> spec_lattice_index(px, py, pz, i, j, k) != spec_lattice_index(
            px,
            py,
            pz,
            i2,
            j,
            k,
        ),
{
    lemma_lattice_index_reads_each_axis(px, py, pz, i, j, k, i2, j2, k2);
    assert(0 <= (i & 255) < 256 && 0 <= (i2 & 255) < 256) by (bit_vector);
    assert(0 <= (j & 255) < 256 && 0 <= (j2 & 255) < 256) by (bit_vector);
    assert(0 <= (k & 255) < 256 && 0 <= (k2 & 255) < 256) by (bit_vector);
    let (ka, kb) = ((k & 255) as int, (k2 & 255) as int);
    let (ja, jb) = ((j & 255) as int, (j2 & 255) as int);
    let (ia, ib) = ((i & 255) as int, (i2 & 255) as int);
    if ka < kb { assert(pz[ka] != pz[kb]); } else if kb < ka { assert(pz[kb] != pz[ka]); }
    if ja < jb { assert(py[ja] != py[jb]); } else if jb < ja { assert(py[jb] != py[ja]); }
    if ia < ib { assert(px[ia] != px[ib]); } else if ib < ia { assert(px[ib] != px[ia]); }
}

/// The lattice permutations of a Perlin noise generator.
pub struct Perlin {
    point_count: u32,
    permutation_x: Vec<i32>,
    permutation_y: Vec<i32>,
    permutation_z: Vec<i32>,
}

impl Perlin {
    /// Each permutation lists the lattice values `0..point_count` once.
    #[verifier::type_invariant]
    closed spec fn permutations_valid(self) -> bool {
        &&& is_permutation_of_range(self.permutation_x@, self.point_count as int)
        &&& is_permutation_of_range(self.permutation_y@, self.point_count as int)
        &&& is_permutation_of_range(self.permutation_z@, self.point_count as int)
    }

    pub closed spec fn spec_point_count(self) -> u32 {
        self.point_count
    }

    pub closed spec fn spec_permutation_x(self) -> Seq<i32> {
        self.permutation_x@
    }

    pub closed spec fn spec_permutation_y(self) -> Seq<i32> {
        self.permutation_y@
    }

    pub closed spec fn spec_permutation_z(self) -> Seq<i32> {
        self.permutation_z@
    }

    /// Draws the permutations along x, y and z, in that order, each with
    /// `generate_permutation`.
    pub fn new(rng: &mut rand::rngs::ThreadRng, point_count: u32) -> (perlin: Perlin)
        requires
            point_count <= i32::MAX,
        ensures
            perlin.spec_point_count() == point_count,
            is_permutation_of_range(perlin.spec_permutation_x(), point_count as int),
            is_permutation_of_range(perlin.spec_permutation_y(), point_count as int),
            is_permutation_of_range(perlin.spec_permutation_z(), point_count as int),
            exists|draws: Seq<u32>|
                #[trigger] is_draw_sequence(draws, point_count as int) && perlin.spec_permutation_x()
                    == spec_shuffle(point_count as int, draws),
            exists|draws: Seq<u32>|
                #[trigger] is_draw_sequence(draws, point_count as int) && perlin.spec_permutation_y()
                    == spec_shuffle(point_count as int, draws),
            exists|draws: Seq<u32>|
                #[trigger] is_draw_sequence(draws, point_count as int) && perlin.spec_permutation_z()
                    == spec_shuffle(point_count as int, draws),
            is_single_cycle(perlin.spec_permutation_x()),
            is_single_cycle(perlin.spec_permutation_y()),
            is_single_cycle(perlin.spec_permutation_z()),
            point_count >= 2 ==> forall|q: int|
                0 <= q < point_count ==> {
                    &&& #[trigger] perlin.spec_permutation_x()[q] != q
                    &&& perlin.spec_permutation_y()[q] != q
                    &&& perlin.spec_permutation_z()[q] != q
                },
    {
        let mut permutation_x: Vec<i32> = Vec::new();
        let mut permutation_y: Vec<i32> = Vec::new();
        let mut permutation_z: Vec<i32> = Vec::new();
        generate_permutation(rng, &mut permutation_x, point_count);
        generate_permutation(rng, &mut permutation_y, point_count);
        generate_permutation(rng, &mut permutation_z, point_count);
        Perlin { point_count, permutation_x, permutation_y, permutation_z }
    }

    pub fn point_count(&self) -> (n: u32)
        ensures
            n == self.spec_point_count(),
    {
        self.point_count
    }

    /// The gradient index of lattice point `(i, j, k)`. The permutations are
    /// read at positions up to 255 and therefore need at least 256 entries. With exactly 256 the index always selects
    /// one of the 256 gradients.
    pub fn lattice_index(&self, i: i32, j: i32, k: i32) -> (index: usize)
        requires
            self.spec_point_count() >= 256,
        ensures
            index as int == spec_lattice_index(
                self.spec_permutation_x(),
                self.spec_permutation_y(),
                self.spec_permutation_z(),
                i,
                j,
                k,
            ),
            self.spec_point_count() == 256 ==> index < 256,
    {
        proof { use_type_invariant(self); }
        assert(0 <= (i & 255) < 256) by (bit_vector);
        assert(0 <= (j & 255) < 256) by (bit_vector);
        assert(0 <= (k & 255) < 256) by (bit_vector);
        let a = self.permutation_x[(i & 255) as usize];
        let b = self.permutation_y[(j & 255) as usize];
        let c = self.permutation_z[(k & 255) as usize];
        assert(0 <= a && 0 <= b && 0 <= c);
        assert(0 <= (a ^ b ^ c)) by (bit_vector)
            requires
                0 <= a && 0 <= b && 0 <= c,
        ;
        proof {
            if self.point_count == 256 {
                assert((a ^ b ^ c) < 256) by (bit_vector)
                    requires
                        0 <= a < 256 && 0 <= b < 256 && 0 <= c < 256,
                ;
            }
        }
        (a ^ b ^ c) as usize
    }
}

} // verus!
