use vstd::prelude::*;

verus! {

/// `x * y` modulo 2^32.
pub open spec fn mul32(x: u32, y: u32) -> u32 {
    ((x as int * y as int) % 0x1_0000_0000) as u32
}

/// Mixes one coordinate into the hash state.
pub open spec fn hash_step(value: u32, coordinate: i32) -> u32 {
    let a = mul32(value ^ (coordinate as u32), 0x85eb_ca6b);
    let b = a ^ (a >> 13);
    let c = mul32(b, 0xc2b2_ae35);
    c ^ (c >> 16)
}

/// The hash of `coordinates` under `seed`: the seed scrambled by a constant, then each
/// coordinate mixed in turn.
pub open spec fn hash_of(seed: u32, coordinates: Seq<i32>) -> u32
    decreases coordinates.len(),
{
    if coordinates.len() == 0 {
        seed ^ 0x9e37_79b9
    } else {
        hash_step(hash_of(seed, coordinates.drop_last()), coordinates.last())
    }
}

/// Hashes lattice coordinates with a seed, to pick the gradient of a simplex-noise cell.
pub fn hash(seed: u32, coordinates: &[i32]) -> (value: u32)
    ensures
        value == hash_of(seed, coordinates@),
{
    let mut value = seed ^ 0x9e37_79b9;
    let mut i: usize = 0;
    while i < coordinates.len()
        invariant
            i <= coordinates@.len(),
            value == hash_of(seed, coordinates@.take(i as int)),
        decreases coordinates@.len() - i,
    {
        let coordinate = coordinates[i];
        value = value ^ (coordinate as u32);
        value = value.wrapping_mul(0x85eb_ca6b);
        value = value ^ (value >> 13);
        value = value.wrapping_mul(0xc2b2_ae35);
        value = value ^ (value >> 16);
        proof {
            let t = coordinates@.take(i + 1);
            assert(t.drop_last() =~= coordinates@.take(i as int));
            assert(t.last() == coordinate);
        }
        i = i + 1;
    }
    proof {
        assert(coordinates@.take(coordinates@.len() as int) =~= coordinates@);
    }
    value
}

/// Multiplying by an odd constant modulo 2^32 is undone by multiplying by its inverse `inv`
/// (`k * inv` is 1 modulo 2^32), so different values give different products.
proof fn lemma_mul32_invertible(x: u32, y: u32, k: u32, inv: u32, t: int)
    requires
        k as int * inv as int == 1 + t * 0x1_0000_0000,
        mul32(x, k) == mul32(y, k),
    ensures
        x == y,
{
    let m: int = 0x1_0000_0000;
    assert forall|v: u32| #[trigger] mul32(mul32(v, k), inv) == v by {
        let a = (v as int * k as int) % m;
        assert(0 <= a < m);
        assert(mul32(v, k) as int == a);
        vstd::arithmetic::div_mod::lemma_mul_mod_noop_left(v as int * k as int, inv as int, m);
        vstd::arithmetic::mul::lemma_mul_is_associative(v as int, k as int, inv as int);
        assert(v as int * (k as int * inv as int) == m * (v as int * t) + v as int) by (nonlinear_arith)
            requires
                k as int * inv as int == 1 + t * m,
        ;
        vstd::arithmetic::div_mod::lemma_mod_multiples_vanish(v as int * t, v as int, m);
    }
    assert(mul32(mul32(x, k), inv) == x);
    assert(mul32(mul32(y, k), inv) == y);
}

/// `a ^ (a >> 13)` determines `a`.
proof fn lemma_xorshift13_injective(a: u32, b: u32)
    requires
        a ^ (a >> 13) == b ^ (b >> 13),
    ensures
        a == b,
{
    assert(a ^ (a >> 13) == b ^ (b >> 13) ==> a == b) by (bit_vector);
}

/// `a ^ (a >> 16)` determines `a`.
proof fn lemma_xorshift16_injective(a: u32, b: u32)
    requires
        a ^ (a >> 16) == b ^ (b >> 16),
    ensures
        a == b,
{
    assert(a ^ (a >> 16) == b ^ (b >> 16) ==> a == b) by (bit_vector);
}

/// Equal mixes come from equal inputs: the mix undone step by step.
proof fn lemma_hash_step_inputs(p: u32, q: u32, c: i32, d: i32)
    requires
        hash_step(p, c) == hash_step(q, d),
    ensures
        p ^ (c as u32) == q ^ (d as u32),
{
    let a1 = mul32(p ^ (c as u32), 0x85eb_ca6b);
    let a2 = mul32(q ^ (d as u32), 0x85eb_ca6b);
    let b1 = a1 ^ (a1 >> 13);
    let b2 = a2 ^ (a2 >> 13);
    let c1 = mul32(b1, 0xc2b2_ae35);
    let c2 = mul32(b2, 0xc2b2_ae35);
    lemma_xorshift16_injective(c1, c2);
    lemma_mul32_invertible(b1, b2, 0xc2b2_ae35, 0x7ed1_b41d, 1618177690);
    lemma_xorshift13_injective(a1, a2);
    lemma_mul32_invertible(p ^ (c as u32), q ^ (d as u32), 0x85eb_ca6b, 0xa5cb_9243, 1455126516);
}

/// Mixing in a coordinate loses nothing: the result determines the running value (for a
/// given coordinate) and the coordinate (for a given running value).
pub proof fn lemma_hash_step_injective(v: u32, w: u32, c: i32, d: i32)
    ensures
        hash_step(v, c) == hash_step(w, c) ==> v == w,
        hash_step(v, c) == hash_step(v, d) ==> c == d,
{
    if hash_step(v, c) == hash_step(w, c) {
        lemma_hash_step_inputs(v, w, c, c);
        assert(v ^ (c as u32) == w ^ (c as u32) ==> v == w) by (bit_vector);
    }
    if hash_step(v, c) == hash_step(v, d) {
        lemma_hash_step_inputs(v, v, c, d);
        assert(v ^ (c as u32) == v ^ (d as u32) ==> c == d) by (bit_vector);
    }
}

/// Every coordinate counts: two cells that differ in exactly one coordinate (at position `j`)
/// hash to different values under any seed.
pub proof fn lemma_hash_sees_every_coordinate(seed: u32, c: Seq<i32>, d: Seq<i32>, j: int)
    requires
        c.len() == d.len(),
        0 <= j < c.len(),
        c[j] != d[j],
        forall|i: int| 0 <= i < c.len() && i != j ==> c[i] == d[i],
    ensures
        hash_of(seed, c) != hash_of(seed, d),
    decreases c.len(),
{
    let n = c.len() - 1;
    if j == n {
        assert(c.drop_last() =~= d.drop_last());
        lemma_hash_step_injective(hash_of(seed, c.drop_last()), 0, c.last(), d.last());
    } else {
        lemma_hash_sees_every_coordinate(seed, c.drop_last(), d.drop_last(), j);
        assert(c.last() == d.last());
        lemma_hash_step_injective(hash_of(seed, c.drop_last()), hash_of(seed, d.drop_last()), c.last(), c.last());
    }
}

/// The number of gradient directions of four-dimensional simplex noise.
pub const GRADIENT_COUNT: usize = 32;

/// Which of the gradient directions belongs to the lattice cell `cell`: the hash of the
/// cell modulo their number.
pub fn gradient_index(seed: u32, cell: &[i32; 4]) -> (index: usize)
    ensures
        index == hash_of(seed, cell@) as int % GRADIENT_COUNT as int,
        index < GRADIENT_COUNT,
{
    (hash(seed, cell.as_slice()) as usize) % GRADIENT_COUNT
}

/// The offsets, along each of the four axes, of the simplex corner taken at `threshold`:
/// 1 on each axis whose rank is at least `threshold`, and 0 on the others.
pub fn corner_steps(rank: &[i32; 4], threshold: i32) -> (steps: [i32; 4])
    ensures
        forall|a: int| 0 <= a < 4 ==> #[trigger] steps@[a] == if rank@[a] >= threshold {
            1i32
        } else {
            0i32
        },
{
    let step = |r: i32| -> (s: i32)
        ensures
            s == if r >= threshold {
                1i32
            } else {
                0i32
            },
        {
            if r >= threshold {
                1
            } else {
                0
            }
        };
    [step(rank[0]), step(rank[1]), step(rank[2]), step(rank[3])]
}

} // verus!
