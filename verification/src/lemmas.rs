use vstd::prelude::*;

use crate::digest::{leaf_value, one_value, zero_value};
use crate::model::{
    chunk, chunks_ok, climb, climb_ok, hash_chunks, leaves, level, pow8, zero_group, Oracle,
};

verus! {

/// Powers of eight are positive and grow with the exponent.
pub proof fn lemma_pow8_grows(a: nat, b: nat)
    requires
        a <= b,
    ensures
        0 < pow8(a) <= pow8(b),
    decreases b,
{
    if b > 0 {
        if a < b {
            lemma_pow8_grows(a, (b - 1) as nat);
        } else {
            lemma_pow8_grows((a - 1) as nat, (b - 1) as nat);
        }
    }
}

/// Eight to a sum is the product of the powers.
pub proof fn lemma_pow8_sum(a: nat, b: nat)
    ensures
        pow8(a + b) == pow8(a) * pow8(b),
    decreases b,
{
    if b == 0 {
        assert(pow8(a) * 1 == pow8(a));
    } else {
        lemma_pow8_sum(a, (b - 1) as nat);
        assert(pow8(a) * (8 * pow8((b - 1) as nat)) == 8 * (pow8(a) * pow8((b - 1) as nat)))
            by (nonlinear_arith);
    }
}

/// The first level up is the digests of the groups of eight.
pub proof fn lemma_climb_one(f: Oracle, s: Seq<Seq<u8>>)
    ensures
        climb(f, s, 0) == s,
        climb(f, s, 1) == hash_chunks(f, s),
        climb_ok(f, s, 1) <==> chunks_ok(f, s),
{
    assert(climb(f, s, 0) == s);
    assert(climb_ok(f, s, 0));
}

/// Hashing `n` levels up divides the length by eight to the `n`.
pub proof fn lemma_climb_len(f: Oracle, s: Seq<Seq<u8>>, n: nat, m: nat)
    requires
        s.len() == m * pow8(n),
    ensures
        climb(f, s, n).len() == m,
    decreases n,
{
    if n == 0 {
        assert(m * 1 == m);
    } else {
        assert(m * (8 * pow8((n - 1) as nat)) == (8 * m) * pow8((n - 1) as nat))
            by (nonlinear_arith);
        lemma_climb_len(f, s, (n - 1) as nat, 8 * m);
        assert((8 * m) / 8 == m);
    }
}

/// Hashing `a` levels up and then `b` more is hashing `a + b` levels up.
pub proof fn lemma_climb_sum(f: Oracle, s: Seq<Seq<u8>>, a: nat, b: nat)
    ensures
        climb(f, climb(f, s, a), b) == climb(f, s, a + b),
        climb_ok(f, s, a + b) <==> climb_ok(f, s, a) && climb_ok(f, climb(f, s, a), b),
    decreases b,
{
    if b > 0 {
        lemma_climb_sum(f, s, a, (b - 1) as nat);
    }
}

/// The leaf values of a stretch of bits are that stretch of the leaf values.
pub proof fn lemma_leaves_subrange(bits: Seq<bool>, lo: int, hi: int)
    requires
        0 <= lo <= hi <= bits.len(),
    ensures
        leaves(bits.subrange(lo, hi)) == leaves(bits).subrange(lo, hi),
{
    assert(leaves(bits.subrange(lo, hi)) =~= leaves(bits).subrange(lo, hi));
}

/// The two leaf values differ.
pub proof fn lemma_leaf_values_differ()
    ensures
        zero_value() != one_value(),
{
    assert(zero_value()[47] == 0u8);
    assert(one_value()[47] == 1u8);
}

/// A group of leaves is the vacant group exactly when none of its bits is set.
pub proof fn lemma_vacant_group(bits: Seq<bool>, g: int)
    requires
        0 <= g,
        8 * g + 8 <= bits.len(),
    ensures
        chunk(leaves(bits), g) == zero_group() <==> bits.subrange(8 * g, 8 * g + 8) == Seq::new(
            8,
            |k: int| false,
        ),
{
    lemma_leaf_values_differ();
    let group = chunk(leaves(bits), g);
    let part = bits.subrange(8 * g, 8 * g + 8);
    let none = Seq::new(8, |k: int| false);
    if part == none {
        assert forall|k: int| 0 <= k < 8 implies group[k] == zero_group()[k] by {
            assert(part[k] == none[k]);
        }
        assert(group =~= zero_group());
    }
    if group == zero_group() {
        assert forall|k: int| 0 <= k < 8 implies part[k] == none[k] by {
            assert(group[k] == zero_group()[k]);
            assert(group[k] == leaf_value(bits[8 * g + k]));
        }
        assert(part =~= none);
    }
}

/// Hashing a stretch of whole groups gives that stretch of the level above.
pub proof fn lemma_hash_chunks_subrange(f: Oracle, s: Seq<Seq<u8>>, a: int, b: int)
    requires
        0 <= a <= b,
        8 * b <= s.len(),
    ensures
        hash_chunks(f, s.subrange(8 * a, 8 * b)) == hash_chunks(f, s).subrange(a, b),
        chunks_ok(f, s) ==> chunks_ok(f, s.subrange(8 * a, 8 * b)),
{
    let part = s.subrange(8 * a, 8 * b);
    assert forall|i: int| 0 <= i < b - a implies #[trigger] chunk(part, i) == chunk(s, a + i) by {
        assert(chunk(part, i) =~= chunk(s, a + i));
    }
    assert(hash_chunks(f, part) =~= hash_chunks(f, s).subrange(a, b));
    if chunks_ok(f, s) {
        assert forall|i: int| 0 <= i < part.len() / 8 implies (#[trigger] f(chunk(part, i))) is Some by {
            assert(chunk(part, i) == chunk(s, a + i));
            assert(f(chunk(s, a + i)) is Some);
        }
    }
}

/// What lies above a stretch of whole subtrees depends on that stretch alone:
/// hashing the stretch `n` levels up gives the matching stretch of the level.
pub proof fn lemma_climb_subrange(f: Oracle, s: Seq<Seq<u8>>, n: nat, m: nat, a: int, b: int)
    requires
        s.len() == m * pow8(n),
        0 <= a <= b <= m,
    ensures
        a * pow8(n) <= b * pow8(n) <= s.len(),
        climb(f, s.subrange(a * pow8(n), b * pow8(n)), n) == climb(f, s, n).subrange(a, b),
        climb_ok(f, s, n) ==> climb_ok(f, s.subrange(a * pow8(n), b * pow8(n)), n),
    decreases n,
{
    lemma_pow8_grows(0, n);
    assert(a * pow8(n) <= b * pow8(n) <= m * pow8(n)) by (nonlinear_arith)
        requires
            a <= b <= m,
            pow8(n) > 0,
    ;
    if n == 0 {
        assert(a * 1 == a && b * 1 == b);
        assert(s.subrange(a, b) =~= s.subrange(a * pow8(n), b * pow8(n)));
    } else {
        let p = pow8((n - 1) as nat);
        assert(a * (8 * p) == (8 * a) * p && b * (8 * p) == (8 * b) * p && m * (8 * p) == (8 * m)
            * p) by (nonlinear_arith);
        lemma_climb_subrange(f, s, (n - 1) as nat, 8 * m, 8 * a, 8 * b);
        lemma_climb_len(f, s, (n - 1) as nat, 8 * m);
        lemma_hash_chunks_subrange(f, climb(f, s, (n - 1) as nat), a, b);
    }
}

/// A level of a tree of depth `depth` at height `h` has eight to the
/// `depth - h` nodes.
pub proof fn lemma_level_len(f: Oracle, bits: Seq<bool>, depth: nat, h: nat)
    requires
        bits.len() == pow8(depth),
        h <= depth,
    ensures
        level(f, bits, h).len() == pow8((depth - h) as nat),
{
    lemma_pow8_sum((depth - h) as nat, h);
    lemma_climb_len(f, leaves(bits), h, pow8((depth - h) as nat));
}

/// Where every hash up to a height succeeds, so does every hash below it.
pub proof fn lemma_climb_ok_below(f: Oracle, s: Seq<Seq<u8>>, k: nat, n: nat)
    requires
        k <= n,
        climb_ok(f, s, n),
    ensures
        climb_ok(f, s, k),
{
    lemma_climb_sum(f, s, k, (n - k) as nat);
}

/// Where every hash inside each of `m` whole subtrees of height `n` succeeds, so
/// does every hash met while hashing their leaves `n` levels up.
pub proof fn lemma_climb_ok_joins(f: Oracle, s: Seq<Seq<u8>>, n: nat, m: nat)
    requires
        s.len() == m * pow8(n),
        forall|j: int|
            0 <= j < m ==> climb_ok(f, #[trigger] s.subrange(j * pow8(n), (j + 1) * pow8(n)), n),
    ensures
        climb_ok(f, s, n),
    decreases n,
{
    if n > 0 {
        let p = pow8((n - 1) as nat);
        let q = pow8(n);
        lemma_pow8_grows(0, (n - 1) as nat);
        assert(m * (8 * p) == (8 * m) * p) by (nonlinear_arith);
        assert forall|i: int| 0 <= i < 8 * m implies climb_ok(
            f,
            #[trigger] s.subrange(i * p, (i + 1) * p),
            (n - 1) as nat,
        ) by {
            let j = i / 8;
            let c = i % 8;
            let part = s.subrange(j * q, (j + 1) * q);
            assert(j * q + q == (j + 1) * q && j * q + c * p == i * p && j * q + (c + 1) * p == (i
                + 1) * p && (j + 1) * q <= m * q && 8 * p == q) by (nonlinear_arith)
                requires
                    i == 8 * j + c,
                    0 <= c < 8,
                    0 <= j < m,
                    q == 8 * p,
            ;
            assert(climb_ok(f, part, n));
            lemma_climb_ok_below(f, part, (n - 1) as nat, n);
            assert(part.len() == 8 * p);
            lemma_climb_subrange(f, part, (n - 1) as nat, 8, c, c + 1);
            assert(part.subrange(c * p, (c + 1) * p) =~= s.subrange(i * p, (i + 1) * p));
        }
        lemma_climb_ok_joins(f, s, (n - 1) as nat, 8 * m);
        let below = climb(f, s, (n - 1) as nat);
        lemma_climb_len(f, s, (n - 1) as nat, 8 * m);
        assert forall|j: int| 0 <= j < below.len() / 8 implies (#[trigger] f(chunk(below, j))) is Some by {
            let part = s.subrange(j * q, (j + 1) * q);
            assert(j * q == (8 * j) * p && (j + 1) * q == (8 * j + 8) * p && (j + 1) * q <= m * q)
                by (nonlinear_arith)
                requires
                    0 <= j < m,
                    q == 8 * p,
                    p > 0,
            ;
            lemma_climb_subrange(f, s, (n - 1) as nat, 8 * m, 8 * j, 8 * j + 8);
            let top = climb(f, part, (n - 1) as nat);
            assert(top == below.subrange(8 * j, 8 * j + 8));
            assert(climb_ok(f, part, n));
            assert(chunks_ok(f, top));
            assert(chunk(top, 0) =~= top);
            assert(f(chunk(top, 0)) is Some);
            assert(chunk(below, j) == top);
        }
    }
}

} // verus!
