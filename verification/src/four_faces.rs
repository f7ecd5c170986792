//! Search tables for the stage that solves the centres of faces 0, 2, 4, 5
//! together. A position is a class (0..4) for each of 16 stickers, packed
//! two bits per sticker into a `u32`.
use vstd::prelude::*;
use std::collections::HashMap;
use itertools::Itertools;

verus! {

broadcast use vstd::std_specs::hash::group_hash_axioms;

/// `p` packed two bits per entry, entry `i` at bits `2i` and `2i + 1`
/// (entries or-ed in, as `pack_perm_for_four_faces` does).
pub open spec fn packed_bits(p: Seq<usize>) -> u32
    decreases p.len(),
{
    if p.len() == 0 {
        0
    } else {
        packed_bits(p.drop_last()) | ((p.last() as u32) << ((2 * (p.len() - 1)) as u32))
    }
}

/// Packs up to 16 classes into a `u32`.
pub fn pack_perm_for_four_faces(perm: &Vec<usize>) -> (r: u32)
    requires
        perm.len() <= 16,
    ensures
        r == packed_bits(perm@),
{
    let mut res: u32 = 0;
    let mut i: usize = 0;
    while i < perm.len()
        invariant
            i <= perm.len() <= 16,
            res == packed_bits(perm@.take(i as int)),
        decreases perm.len() - i,
    {
        assert(perm@.take(i + 1).drop_last() =~= perm@.take(i as int));
        let s: u32 = (2 * i) as u32;
        res = res | ((perm[i] as u32) << s);
        i = i + 1;
    }
    assert(perm@.take(perm.len() as int) =~= perm@);
    res
}

/// The `k` base-4 digits of `x`, least significant first.
pub open spec fn digits4(x: nat, k: nat) -> Seq<usize>
    decreases k,
{
    if k == 0 {
        Seq::<usize>::empty()
    } else {
        seq![(x % 4) as usize] + digits4(x / 4, (k - 1) as nat)
    }
}

/// `4` to the power `m`.
pub open spec fn pow4(m: nat) -> nat
    decreases m,
{
    if m == 0 {
        1
    } else {
        4 * pow4((m - 1) as nat)
    }
}

proof fn lemma_pow4_shift(m: u32)
    requires
        m <= 15,
    ensures
        (1u32 << ((2 * m) as u32)) as nat == pow4(m as nat),
    decreases m,
{
    if m == 0 {
        assert((1u32 << 0u32) == 1u32) by (bit_vector);
    } else {
        lemma_pow4_shift((m - 1) as u32);
        let k: u32 = (2 * (m - 1)) as u32;
        assert((1u32 << ((k + 2) as u32)) == 4 * (1u32 << k)) by (bit_vector)
            requires
                k <= 28,
        ;
        assert((2 * m) as u32 == (k + 2) as u32);
    }
}

proof fn lemma_or_shift(a: u32, v: u32, m: u32)
    requires
        m <= 15,
        v < 4,
        (a as nat) < pow4(m as nat),
    ensures
        (a | (v << ((2 * m) as u32))) as nat == a as nat + v as nat * pow4(m as nat),
{
    lemma_pow4_shift(m);
    let k: u32 = (2 * m) as u32;
    assert(a < (1u32 << k));
    assert((a | (v << k)) == a + v * (1u32 << k)) by (bit_vector)
        requires
            k <= 30,
            v < 4,
            a < (1u32 << k),
    ;
}

proof fn lemma_packed_value(p: Seq<usize>)
    requires
        p.len() <= 16,
        forall|i: int| 0 <= i < p.len() ==> #[trigger] p[i] < 4,
    ensures
        (packed_bits(p) as nat) < pow4(p.len()),
        p.len() > 0 ==> packed_bits(p) as nat == packed_bits(p.drop_last()) as nat + p.last() as nat * pow4((p.len() - 1) as nat),
    decreases p.len(),
{
    if p.len() > 0 {
        let d = p.drop_last();
        assert forall|i: int| 0 <= i < d.len() implies #[trigger] d[i] < 4 by {
            assert(d[i] == p[i]);
        }
        lemma_packed_value(d);
        let m = (p.len() - 1) as u32;
        assert(((2 * (p.len() - 1)) as u32) == ((2 * m) as u32));
        lemma_or_shift(packed_bits(d), p.last() as u32, m);
        assert(p.last() as u32 as nat == p.last() as nat);
        assert(packed_bits(d) as nat + p.last() as nat * pow4(m as nat) < pow4(p.len())) by (nonlinear_arith)
            requires
                (packed_bits(d) as nat) < pow4(m as nat),
                p.last() < 4,
                pow4(p.len()) == 4 * pow4(m as nat),
        ;
    }
}

proof fn lemma_digits_top(a: nat, v: nat, m: nat)
    requires
        a < pow4(m),
        v < 4,
    ensures
        digits4(a + v * pow4(m), m + 1) == digits4(a, m).push(v as usize),
    decreases m,
{
    if m == 0 {
        assert(a == 0);
        assert(digits4(v, 1) == seq![(v % 4) as usize] + digits4(v / 4, 0));
        assert(digits4(v, 1) =~= Seq::<usize>::empty().push(v as usize));
    } else {
        let q = pow4((m - 1) as nat);
        assert(pow4(m) == 4 * q);
        let x = a + v * pow4(m);
        assert(x == a + 4 * (v * q)) by (nonlinear_arith)
            requires
                x == a + v * pow4(m),
                pow4(m) == 4 * q,
        ;
        assert(x % 4 == a % 4 && x / 4 == a / 4 + v * q) by (nonlinear_arith)
            requires
                x == a + 4 * (v * q),
                a >= 0,
                v * q >= 0,
        ;
        assert(a / 4 < q) by (nonlinear_arith)
            requires
                a < 4 * q,
        ;
        lemma_digits_top(a / 4, v, (m - 1) as nat);
        assert(digits4(x, m + 1) == seq![(x % 4) as usize] + digits4(x / 4, m));
        assert(digits4(a, m) == seq![(a % 4) as usize] + digits4(a / 4, (m - 1) as nat));
        assert(digits4(x, m + 1) =~= digits4(a, m).push(v as usize));
    }
}

/// Unpacking gives back what was packed: for up to 16 classes below 4,
/// the first `p.len()` base-4 digits of `packed_bits(p)` are `p`.
pub proof fn lemma_unpack_pack(p: Seq<usize>)
    requires
        p.len() <= 16,
        forall|i: int| 0 <= i < p.len() ==> #[trigger] p[i] < 4,
    ensures
        digits4(packed_bits(p) as nat, p.len()) == p,
    decreases p.len(),
{
    if p.len() == 0 {
        assert(digits4(packed_bits(p) as nat, 0) =~= p);
    } else {
        let d = p.drop_last();
        assert forall|i: int| 0 <= i < d.len() implies #[trigger] d[i] < 4 by {
            assert(d[i] == p[i]);
        }
        lemma_unpack_pack(d);
        lemma_packed_value(p);
        lemma_packed_value(d);
        lemma_digits_top(packed_bits(d) as nat, p.last() as nat, d.len());
        assert(d.push(p.last()) =~= p);
    }
}

/// The 16 classes packed in `packed_perm`.
pub fn unpack_perm_for_four_faces(packed_perm: u32) -> (r: Vec<usize>)
    ensures
        r@ == digits4(packed_perm as nat, 16),
{
    let mut res: Vec<usize> = Vec::new();
    let mut p = packed_perm;
    let mut i: usize = 0;
    while i < 16
        invariant
            i <= 16,
            res@ + digits4(p as nat, (16 - i) as nat) == digits4(packed_perm as nat, 16),
        decreases 16 - i,
    {
        let ghost before = res@;
        let d = p as usize % 4;
        res.push(d);
        let ghost old_p = p;
        p = p / 4;
        assert(digits4(old_p as nat, (16 - i) as nat) == seq![(old_p as nat % 4) as usize]
            + digits4(p as nat, (16 - i - 1) as nat));
        assert(res@ + digits4(p as nat, (16 - i - 1) as nat) =~= before + digits4(
            old_p as nat,
            (16 - i) as nat,
        ));
        i = i + 1;
    }
    assert(res@ + digits4(p as nat, 0) =~= res@);
    res
}

/// The packed position after moving, for `i < k`, the class at sticker
/// `a[i]` to sticker `i`.
pub open spec fn permuted_bits(x: u32, a: Seq<usize>, k: int) -> u32
    decreases k,
{
    if k <= 0 {
        0
    } else {
        permuted_bits(x, a, k - 1) | (((x >> ((2 * a[k - 1]) as u32)) % 4) << ((2 * (k - 1))
            as u32))
    }
}

/// A move on the 16 stickers: entry `i` names the sticker whose class moves to `i`.
pub open spec fn sticker_move(a: Seq<usize>) -> bool {
    a.len() >= 16 && forall|i: int| 0 <= i < 16 ==> #[trigger] a[i] < 16
}

/// Applies a sticker move to a packed position.
pub fn apply_action_to_packed_perm(packed_perm: u32, action: &Vec<usize>) -> (r: u32)
    requires
        sticker_move(action@),
    ensures
        r == permuted_bits(packed_perm, action@, 16),
{
    let mut res: u32 = 0;
    let mut i: usize = 0;
    while i < 16
        invariant
            i <= 16,
            sticker_move(action@),
            res == permuted_bits(packed_perm, action@, i as int),
        decreases 16 - i,
    {
        assert(action@[i as int] < 16);
        let from: u32 = (2 * action[i]) as u32;
        let to: u32 = (2 * i) as u32;
        res = res | (((packed_perm >> from) % 4) << to);
        i = i + 1;
    }
    res
}

} // verus!

verus! {

/// The `k`-element selections of `s`, each keeping the order of `s`, listed
/// in lexicographic order of positions (those with `s[0]` first).
pub open spec fn combos(s: Seq<usize>, k: nat) -> Seq<Seq<usize>>
    decreases s.len(),
{
    if k == 0 {
        seq![Seq::<usize>::empty()]
    } else if s.len() < k {
        Seq::<Seq<usize>>::empty()
    } else {
        combos(s.drop_first(), (k - 1) as nat).map_values(|c: Seq<usize>| seq![s[0]] + c) + combos(
            s.drop_first(),
            k,
        )
    }
}

/// The views of a vector of index vectors.
pub open spec fn index_views(v: Seq<Vec<usize>>) -> Seq<Seq<usize>> {
    v.map_values(|c: Vec<usize>| c@)
}

/// All `k`-element combinations of `items` (`Itertools::combinations`).
#[verifier::external_body]
fn combinations(items: &Vec<usize>, k: usize) -> (r: Vec<Vec<usize>>)
    ensures
        index_views(r@) == combos(items@, k as nat),
{
    items.iter().cloned().combinations(k).collect()
}

/// Every element of a combination of `s` is an element of `s`.
pub proof fn lemma_combos_within(s: Seq<usize>, k: nat)
    ensures
        forall|c: int, j: int|
            0 <= c < combos(s, k).len() && 0 <= j < combos(s, k)[c].len() ==> s.contains(
                #[trigger] combos(s, k)[c][j],
            ),
    decreases s.len(),
{
    if k > 0 && s.len() >= k {
        let t = s.drop_first();
        lemma_combos_within(t, (k - 1) as nat);
        lemma_combos_within(t, k);
        let a = combos(t, (k - 1) as nat).map_values(|c: Seq<usize>| seq![s[0]] + c);
        let b = combos(t, k);
        assert forall|c: int, j: int|
            0 <= c < combos(s, k).len() && 0 <= j < combos(s, k)[c].len() implies s.contains(
                #[trigger] combos(s, k)[c][j],
            ) by {
            if c < a.len() {
                let base = combos(t, (k - 1) as nat)[c];
                assert(combos(s, k)[c] == seq![s[0]] + base);
                if j == 0 {
                    assert(s[0] == combos(s, k)[c][j]);
                } else {
                    assert(combos(s, k)[c][j] == base[j - 1]);
                    assert(t.contains(base[j - 1]));
                    let i = choose|i: int| 0 <= i < t.len() && t[i] == base[j - 1];
                    assert(s[i + 1] == t[i]);
                }
            } else {
                assert(combos(s, k)[c] == b[c - a.len()]);
                assert(t.contains(b[c - a.len()][j]));
                let i = choose|i: int| 0 <= i < t.len() && t[i] == b[c - a.len()][j];
                assert(s[i + 1] == t[i]);
            }
        }
    }
}

/// The stickers `0..k` that are not in `used`, in increasing order.
pub open spec fn free_upto(used: Seq<usize>, k: nat) -> Seq<usize>
    decreases k,
{
    if k == 0 {
        Seq::<usize>::empty()
    } else if used.contains((k - 1) as usize) {
        free_upto(used, (k - 1) as nat)
    } else {
        free_upto(used, (k - 1) as nat).push((k - 1) as usize)
    }
}

/// The class vector with class 2 on `p2`, else 1 on `p1`, else 0 on `p0`, else 3.
pub open spec fn class_vec(p0: Seq<usize>, p1: Seq<usize>, p2: Seq<usize>) -> Seq<usize> {
    Seq::new(
        16,
        |i: int|
            if p2.contains(i as usize) {
                2usize
            } else if p1.contains(i as usize) {
                1usize
            } else if p0.contains(i as usize) {
                0usize
            } else {
                3usize
            },
    )
}

/// Packed class vectors for `p0`, `p1` and each `p2` of `p2s`.
pub open spec fn packs3(p0: Seq<usize>, p1: Seq<usize>, p2s: Seq<Seq<usize>>) -> Seq<u32> {
    p2s.map_values(|p2: Seq<usize>| packed_bits(class_vec(p0, p1, p2)))
}

/// Packed class vectors for `p0`, each `p1` of `p1s`, and every choice of four
/// of the remaining stickers as `p2`.
pub open spec fn packs2(p0: Seq<usize>, p1s: Seq<Seq<usize>>) -> Seq<u32>
    decreases p1s.len(),
{
    if p1s.len() == 0 {
        Seq::<u32>::empty()
    } else {
        packs2(p0, p1s.drop_last()) + packs3(
            p0,
            p1s.last(),
            combos(free_upto(p0 + p1s.last(), 16), 4),
        )
    }
}

/// Packed class vectors for each `p0` of `p0s` and every choice of `p1`, `p2`.
pub open spec fn packs1(p0s: Seq<Seq<usize>>) -> Seq<u32>
    decreases p0s.len(),
{
    if p0s.len() == 0 {
        Seq::<u32>::empty()
    } else {
        packs1(p0s.drop_last()) + packs2(p0s.last(), combos(free_upto(p0s.last(), 16), 4))
    }
}

/// All positions with four stickers of each class, in the order in which
/// `gen_perm_map_four_faces_impl` lists them.
pub open spec fn four_class_packs() -> Seq<u32> {
    packs1(combos(free_upto(Seq::<usize>::empty(), 16), 4))
}

fn vec_contains(v: &Vec<usize>, x: usize) -> (r: bool)
    ensures
        r == v@.contains(x),
{
    let mut i: usize = 0;
    while i < v.len()
        invariant
            i <= v.len(),
            forall|j: int| 0 <= j < i ==> v@[j] != x,
        decreases v.len() - i,
    {
        if v[i] == x {
            return true;
        }
        i = i + 1;
    }
    false
}

fn free_stickers(used0: &Vec<usize>, used1: &Vec<usize>) -> (r: Vec<usize>)
    ensures
        r@ == free_upto(used0@ + used1@, 16),
{
    let mut r: Vec<usize> = Vec::new();
    let mut i: usize = 0;
    while i < 16
        invariant
            i <= 16,
            r@ == free_upto(used0@ + used1@, i as nat),
        decreases 16 - i,
    {
        let a = vec_contains(used0, i);
        let b = vec_contains(used1, i);
        assert((used0@ + used1@).contains(i) == (used0@.contains(i) || used1@.contains(i))) by {
            if used1@.contains(i) {
                let j = choose|j: int| 0 <= j < used1@.len() && used1@[j] == i;
                assert((used0@ + used1@)[used0@.len() + j] == i);
            }
            if used0@.contains(i) {
                let j = choose|j: int| 0 <= j < used0@.len() && used0@[j] == i;
                assert((used0@ + used1@)[j] == i);
            }
            if (used0@ + used1@).contains(i) {
                let j = choose|j: int| 0 <= j < (used0@ + used1@).len() && (used0@ + used1@)[j] == i;
                if j < used0@.len() {
                    assert(used0@[j] == i);
                } else {
                    assert(used1@[j - used0@.len()] == i);
                }
            }
        }
        if !a && !b {
            r.push(i);
        }
        i = i + 1;
    }
    r
}

proof fn lemma_free_upto_small(used: Seq<usize>, k: nat)
    requires
        k <= 16,
    ensures
        forall|j: int| 0 <= j < free_upto(used, k).len() ==> #[trigger] free_upto(used, k)[j] < k,
    decreases k,
{
    if k > 0 {
        lemma_free_upto_small(used, (k - 1) as nat);
        let prev = free_upto(used, (k - 1) as nat);
        assert forall|j: int| 0 <= j < free_upto(used, k).len() implies #[trigger] free_upto(
            used,
            k,
        )[j] < k by {
            if j < prev.len() {
                assert(free_upto(used, k)[j] == prev[j]);
            }
        }
    }
}

fn class_vector(p0: &Vec<usize>, p1: &Vec<usize>, p2: &Vec<usize>) -> (r: Vec<usize>)
    requires
        forall|j: int| 0 <= j < p0.len() ==> #[trigger] p0@[j] < 16,
        forall|j: int| 0 <= j < p1.len() ==> #[trigger] p1@[j] < 16,
        forall|j: int| 0 <= j < p2.len() ==> #[trigger] p2@[j] < 16,
    ensures
        r@ == class_vec(p0@, p1@, p2@),
{
    let mut p: Vec<usize> = vec![3usize; 16];
    let mut k: usize = 0;
    while k < p0.len()
        invariant
            k <= p0.len(),
            p.len() == 16,
            forall|j: int| 0 <= j < p0.len() ==> #[trigger] p0@[j] < 16,
            forall|i: int|
                0 <= i < 16 ==> #[trigger] p@[i] == if p0@.take(k as int).contains(i as usize) {
                    0usize
                } else {
                    3usize
                },
        decreases p0.len() - k,
    {
        let ghost before = p@;
        p.set(p0[k], 0);
        assert forall|i: int| 0 <= i < 16 implies #[trigger] p@[i] == if p0@.take(k + 1).contains(
            i as usize,
        ) {
            0usize
        } else {
            3usize
        } by {
            let tk = p0@.take(k as int);
            let tk1 = p0@.take(k + 1);
            assert(tk1 =~= tk.push(p0@[k as int]));
            if i == p0@[k as int] {
                assert(tk1[k as int] == i as usize);
            } else {
                assert(p@[i] == before[i]);
            }
            if tk.contains(i as usize) {
                let j = choose|j: int| 0 <= j < tk.len() && tk[j] == i as usize;
                assert(tk1[j] == i as usize);
            }
            if tk1.contains(i as usize) && i != p0@[k as int] {
                let j = choose|j: int| 0 <= j < tk1.len() && tk1[j] == i as usize;
                assert(tk[j] == i as usize);
            }
        }
        k = k + 1;
    }
    assert(p0@.take(p0.len() as int) =~= p0@);
    let mut k: usize = 0;
    while k < p1.len()
        invariant
            k <= p1.len(),
            p.len() == 16,
            forall|j: int| 0 <= j < p1.len() ==> #[trigger] p1@[j] < 16,
            forall|i: int|
                0 <= i < 16 ==> #[trigger] p@[i] == if p1@.take(k as int).contains(i as usize) {
                    1usize
                } else if p0@.contains(i as usize) {
                    0usize
                } else {
                    3usize
                },
        decreases p1.len() - k,
    {
        let ghost before = p@;
        p.set(p1[k], 1);
        assert forall|i: int| 0 <= i < 16 implies #[trigger] p@[i] == if p1@.take(k + 1).contains(
            i as usize,
        ) {
            1usize
        } else if p0@.contains(i as usize) {
            0usize
        } else {
            3usize
        } by {
            let tk = p1@.take(k as int);
            let tk1 = p1@.take(k + 1);
            assert(tk1 =~= tk.push(p1@[k as int]));
            if i == p1@[k as int] {
                assert(tk1[k as int] == i as usize);
            } else {
                assert(p@[i] == before[i]);
            }
            if tk.contains(i as usize) {
                let j = choose|j: int| 0 <= j < tk.len() && tk[j] == i as usize;
                assert(tk1[j] == i as usize);
            }
            if tk1.contains(i as usize) && i != p1@[k as int] {
                let j = choose|j: int| 0 <= j < tk1.len() && tk1[j] == i as usize;
                assert(tk[j] == i as usize);
            }
        }
        k = k + 1;
    }
    assert(p1@.take(p1.len() as int) =~= p1@);
    let mut k: usize = 0;
    while k < p2.len()
        invariant
            k <= p2.len(),
            p.len() == 16,
            forall|j: int| 0 <= j < p2.len() ==> #[trigger] p2@[j] < 16,
            forall|i: int|
                0 <= i < 16 ==> #[trigger] p@[i] == if p2@.take(k as int).contains(i as usize) {
                    2usize
                } else if p1@.contains(i as usize) {
                    1usize
                } else if p0@.contains(i as usize) {
                    0usize
                } else {
                    3usize
                },
        decreases p2.len() - k,
    {
        let ghost before = p@;
        p.set(p2[k], 2);
        assert forall|i: int| 0 <= i < 16 implies #[trigger] p@[i] == if p2@.take(k + 1).contains(
            i as usize,
        ) {
            2usize
        } else if p1@.contains(i as usize) {
            1usize
        } else if p0@.contains(i as usize) {
            0usize
        } else {
            3usize
        } by {
            let tk = p2@.take(k as int);
            let tk1 = p2@.take(k + 1);
            assert(tk1 =~= tk.push(p2@[k as int]));
            if i == p2@[k as int] {
                assert(tk1[k as int] == i as usize);
            } else {
                assert(p@[i] == before[i]);
            }
            if tk.contains(i as usize) {
                let j = choose|j: int| 0 <= j < tk.len() && tk[j] == i as usize;
                assert(tk1[j] == i as usize);
            }
            if tk1.contains(i as usize) && i != p2@[k as int] {
                let j = choose|j: int| 0 <= j < tk1.len() && tk1[j] == i as usize;
                assert(tk[j] == i as usize);
            }
        }
        k = k + 1;
    }
    assert(p2@.take(p2.len() as int) =~= p2@);
    assert(p@ =~= class_vec(p0@, p1@, p2@));
    p
}

} // verus!

verus! {

/// Every entry of `v` is a sticker index below 16.
pub open spec fn stickers16(v: Seq<usize>) -> bool {
    forall|j: int| 0 <= j < v.len() ==> #[trigger] v[j] < 16
}

proof fn lemma_combo_stickers(s: Seq<usize>, c: int)
    requires
        stickers16(s),
        0 <= c < combos(s, 4).len(),
    ensures
        stickers16(combos(s, 4)[c]),
{
    lemma_combos_within(s, 4);
    assert forall|j: int| 0 <= j < combos(s, 4)[c].len() implies #[trigger] combos(s, 4)[c][j]
        < 16 by {
        assert(s.contains(combos(s, 4)[c][j]));
    }
}

proof fn lemma_free_stickers16(used: Seq<usize>)
    ensures
        stickers16(free_upto(used, 16)),
{
    lemma_free_upto_small(used, 16);
}

/// All positions with four stickers of each class (`four_class_packs`),
/// with the map from each packed position to its index in the list.
pub fn gen_perm_map_four_faces_impl() -> (r: (Vec<u32>, HashMap<u32, usize>))
    ensures
        r.0@ == four_class_packs(),
        crate::search::map_indexes(r.0@, r.1@),
        forall|i: int| 0 <= i < r.0.len() ==> #[trigger] r.1@.contains_key(r.0@[i]),
{
    let mut perm_list: Vec<u32> = Vec::new();
    let mut perm_map: HashMap<u32, usize> = HashMap::new();
    let empty: Vec<usize> = Vec::new();
    let all = free_stickers(&empty, &empty);
    assert(all@ =~= free_upto(Seq::<usize>::empty(), 16)) by {
        assert(empty@ + empty@ =~= Seq::<usize>::empty());
    }
    proof {
        lemma_free_stickers16(Seq::<usize>::empty());
    }
    let pos0s = combinations(&all, 4);
    let ghost t0 = index_views(pos0s@);
    let mut a: usize = 0;
    while a < pos0s.len()
        invariant
            a <= pos0s.len(),
            empty@ == Seq::<usize>::empty(),
            t0 == index_views(pos0s@),
            t0 == combos(free_upto(Seq::<usize>::empty(), 16), 4),
            stickers16(free_upto(Seq::<usize>::empty(), 16)),
            perm_list@ == packs1(t0.take(a as int)),
            crate::search::map_indexes(perm_list@, perm_map@),
            forall|i: int| 0 <= i < perm_list.len() ==> #[trigger] perm_map@.contains_key(perm_list@[i]),
        decreases pos0s.len() - a,
    {
        let p0 = &pos0s[a];
        assert(p0@ == t0[a as int]);
        proof {
            lemma_combo_stickers(free_upto(Seq::<usize>::empty(), 16), a as int);
            lemma_free_stickers16(p0@);
        }
        let remain0 = free_stickers(p0, &empty);
        assert(p0@ + empty@ =~= p0@);
        let pos1s = combinations(&remain0, 4);
        let ghost t1 = index_views(pos1s@);
        let ghost base0 = perm_list@;
        let mut b: usize = 0;
        while b < pos1s.len()
            invariant
                b <= pos1s.len(),
                t1 == index_views(pos1s@),
                t1 == combos(free_upto(p0@, 16), 4),
                stickers16(p0@),
                stickers16(free_upto(p0@, 16)),
                perm_list@ == base0 + packs2(p0@, t1.take(b as int)),
                crate::search::map_indexes(perm_list@, perm_map@),
                forall|i: int| 0 <= i < perm_list.len() ==> #[trigger] perm_map@.contains_key(perm_list@[i]),
            decreases pos1s.len() - b,
        {
            let p1 = &pos1s[b];
            assert(p1@ == t1[b as int]);
            proof {
                lemma_combo_stickers(free_upto(p0@, 16), b as int);
                lemma_free_stickers16(p0@ + p1@);
            }
            let remain1 = free_stickers(p0, p1);
            let pos2s = combinations(&remain1, 4);
            let ghost t2 = index_views(pos2s@);
            let ghost base1 = perm_list@;
            let mut c: usize = 0;
            while c < pos2s.len()
                invariant
                    c <= pos2s.len(),
                    t2 == index_views(pos2s@),
                    t2 == combos(free_upto(p0@ + p1@, 16), 4),
                    stickers16(p0@),
                    stickers16(p1@),
                    stickers16(free_upto(p0@ + p1@, 16)),
                    perm_list@ == base1 + packs3(p0@, p1@, t2.take(c as int)),
                    crate::search::map_indexes(perm_list@, perm_map@),
                    forall|i: int| 0 <= i < perm_list.len() ==> #[trigger] perm_map@.contains_key(perm_list@[i]),
                decreases pos2s.len() - c,
            {
                let p2 = &pos2s[c];
                assert(p2@ == t2[c as int]);
                proof {
                    lemma_combo_stickers(free_upto(p0@ + p1@, 16), c as int);
                }
                let p = class_vector(p0, p1, p2);
                let packed = pack_perm_for_four_faces(&p);
                let ghost old_list = perm_list@;
                let ghost old_map = perm_map@;
                perm_map.insert(packed, perm_list.len());
                perm_list.push(packed);
                proof {
                    assert(packs3(p0@, p1@, t2.take(c + 1)) =~= packs3(p0@, p1@, t2.take(c as int)).push(packed));
                    assert(perm_list@ =~= base1 + packs3(p0@, p1@, t2.take(c + 1)));
                    assert forall|x: u32| #[trigger] perm_map@.contains_key(x) implies perm_map@[x]
                        < perm_list.len() && perm_list@[perm_map@[x] as int] == x by {
                        if x != packed {
                            assert(old_map.contains_key(x));
                        }
                    }
                    assert forall|i: int| 0 <= i < perm_list.len() implies #[trigger] perm_map@.contains_key(perm_list@[i]) by {
                        if i < old_list.len() {
                            assert(old_map.contains_key(old_list[i]));
                        }
                    }
                }
                c = c + 1;
            }
            proof {
                assert(t2.take(pos2s.len() as int) =~= t2);
                assert(t1.take(b + 1).drop_last() =~= t1.take(b as int));
                assert(t1.take(b + 1).last() == p1@);
                assert(perm_list@ =~= base0 + packs2(p0@, t1.take(b + 1)));
            }
            b = b + 1;
        }
        proof {
            assert(t1.take(pos1s.len() as int) =~= t1);
            assert(t0.take(a + 1).drop_last() =~= t0.take(a as int));
            assert(t0.take(a + 1).last() == p0@);
            assert(perm_list@ =~= packs1(t0.take(a + 1)));
        }
        a = a + 1;
    }
    assert(t0.take(pos0s.len() as int) =~= t0);
    (perm_list, perm_map)
}

} // verus!
