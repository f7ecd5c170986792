//! Costs that guide the globe searches, the ordering of search candidates,
//! and the packing of a two-sided state into words.
use vstd::prelude::*;
use crate::globe_sim::{rev_sim_all, rev_sim_all_spec, row_ok};

verus! {

/// The side (0 or 1 for a valid piece) of piece `x` when `half` pieces lie
/// on each side.
pub open spec fn side_of(x: usize, half: int) -> int {
    x as int / half
}

/// The side of the piece at column `i` of row `h`.
pub open spec fn row_side(state: Seq<usize>, w: int, half: int, h: int, i: int) -> int {
    side_of(state[h * w + i], half)
}

/// The first column from `i` whose side differs from that of the column
/// before it (round the ring), or `w` when there is none.
pub open spec fn first_change(state: Seq<usize>, w: int, half: int, h: int, i: int) -> int
    decreases w - i,
{
    if i < 0 || i >= w {
        w
    } else if row_side(state, w, half, h, i) != row_side(state, w, half, h, (i + w - 1) % w) {
        i
    } else {
        first_change(state, w, half, h, i + 1)
    }
}

/// The cost of row `h` from the `i`-th column after `start` on, with the run
/// of side `prev` counted `length` long so far: each change of side adds
/// `(w - length)^2` and restarts the count at 0, and the last run adds its
/// own.
pub open spec fn run_cost(
    state: Seq<usize>,
    w: int,
    half: int,
    h: int,
    start: int,
    i: int,
    prev: int,
    length: int,
) -> int
    decreases w - i,
{
    if i >= w {
        (w - length) * (w - length)
    } else {
        let cur = row_side(state, w, half, h, (start + i) % w);
        if cur == prev {
            run_cost(state, w, half, h, start, i + 1, prev, length + 1)
        } else {
            (w - length) * (w - length) + run_cost(state, w, half, h, start, i + 1, cur, 0)
        }
    }
}

/// The cost of row `h`: 0 when the whole row is on one side, else the runs
/// counted from the first change of side.
pub open spec fn row_cost(state: Seq<usize>, w: int, half: int, h: int) -> int {
    let start = first_change(state, w, half, h, 0);
    if start >= w {
        0
    } else {
        run_cost(state, w, half, h, start, 1, row_side(state, w, half, h, start), 1)
    }
}

/// The sum of the costs of rows `0..h`.
pub open spec fn cost_rows(state: Seq<usize>, w: int, half: int, h: int) -> int
    decreases h,
{
    if h <= 0 {
        0
    } else {
        cost_rows(state, w, half, h - 1) + row_cost(state, w, half, h - 1)
    }
}

/// The cost of a globe state of `height` rows of `width` pieces: how far
/// each row is from being all of one side.
pub open spec fn calc_cost_spec(state: Seq<usize>, width: int, height: int, piece_type_num: int) -> int {
    cost_rows(state, width, piece_type_num / 2, height)
}

/// A globe state that the cost functions accept: at least `width * height`
/// pieces, two or more piece types, and sizes whose costs fit in `i32`.
pub open spec fn globe_dims(state: Seq<usize>, width: int, height: int, piece_type_num: int) -> bool {
    &&& 1 <= width <= 1000
    &&& 1 <= height <= 1000
    &&& width * width * width * height <= 1000000000
    &&& state.len() >= width * height
    &&& piece_type_num >= 2
}

proof fn lemma_cell(w: int, height: int, h: int, i: int)
    requires
        0 <= h < height,
        0 <= i < w,
    ensures
        0 <= h * w + i < w * height,
        h * w + i < (h + 1) * w,
{
    assert(0 <= h * w) by (nonlinear_arith)
        requires
            0 <= h,
            0 <= w,
    ;
    assert((h + 1) * w <= height * w) by (nonlinear_arith)
        requires
            h + 1 <= height,
            0 <= w,
    ;
    assert((h + 1) * w == h * w + w) by (nonlinear_arith);
    assert(height * w == w * height) by (nonlinear_arith);
}

proof fn lemma_run_cost_bound(
    state: Seq<usize>,
    w: int,
    half: int,
    h: int,
    start: int,
    i: int,
    prev: int,
    length: int,
)
    requires
        1 <= i <= w,
        0 <= length <= i,
    ensures
        0 <= run_cost(state, w, half, h, start, i, prev, length) <= (w - i + 1) * w * w,
    decreases w - i,
{
    assert(0 <= (w - length) * (w - length) <= w * w) by (nonlinear_arith)
        requires
            0 <= length <= w,
    ;
    if i < w {
        let cur = row_side(state, w, half, h, (start + i) % w);
        if cur == prev {
            lemma_run_cost_bound(state, w, half, h, start, i + 1, prev, length + 1);
        } else {
            lemma_run_cost_bound(state, w, half, h, start, i + 1, cur, 0);
        }
        assert((w - i + 1) * w * w == (w - i) * w * w + w * w) by (nonlinear_arith);
    }
}

proof fn lemma_row_cost_bound(state: Seq<usize>, w: int, half: int, h: int)
    requires
        w >= 1,
    ensures
        0 <= row_cost(state, w, half, h) <= w * w * w,
{
    let start = first_change(state, w, half, h, 0);
    if start < w {
        lemma_run_cost_bound(state, w, half, h, start, 1, row_side(state, w, half, h, start), 1);
        assert(w * w * w == (w - 1 + 1) * w * w);
    } else {
        assert(0 <= w * w * w) by (nonlinear_arith)
            requires
                w >= 1,
        ;
    }
}

proof fn lemma_cost_rows_bound(state: Seq<usize>, w: int, half: int, h: int)
    requires
        w >= 1,
        h >= 0,
    ensures
        0 <= cost_rows(state, w, half, h) <= h * (w * w * w),
    decreases h,
{
    if h > 0 {
        lemma_cost_rows_bound(state, w, half, h - 1);
        lemma_row_cost_bound(state, w, half, h - 1);
        assert(h * (w * w * w) == (h - 1) * (w * w * w) + w * w * w) by (nonlinear_arith);
    }
}

/// The cost of a globe state: for each row that has pieces of both sides,
/// the squared shortfalls of its runs of one side from the full width.
pub fn calc_cost(state: &Vec<usize>, width: usize, height: usize, piece_type_num: usize) -> (r: i32)
    requires
        globe_dims(state@, width as int, height as int, piece_type_num as int),
    ensures
        r == calc_cost_spec(state@, width as int, height as int, piece_type_num as int),
{
    let ghost w = width as int;
    let half = piece_type_num / 2;
    let ghost hf = half as int;
    let mut cost: i32 = 0;
    proof {
        assert(w * w * w * height == height * (w * w * w)) by (nonlinear_arith);
    }
    let mut h: usize = 0;
    while h < height
        invariant
            h <= height,
            globe_dims(state@, w, height as int, piece_type_num as int),
            w == width,
            hf == half,
            half >= 1,
            height * (w * w * w) <= 1000000000,
            cost == cost_rows(state@, w, hf, h as int),
        decreases height - h,
    {
        proof {
            lemma_cost_rows_bound(state@, w, hf, h as int);
            lemma_row_cost_bound(state@, w, hf, h as int);
            assert((h + 1) * (w * w * w) <= height * (w * w * w)) by (nonlinear_arith)
                requires
                    h + 1 <= height,
                    w >= 1,
            ;
            assert(h * (w * w * w) + w * w * w == (h + 1) * (w * w * w)) by (nonlinear_arith);
            lemma_cell(w, height as int, h as int, 0);
        }
        assert(h * w + w <= w * height) by {
            lemma_cell(w, height as int, h as int, w - 1);
        }
        assert(h * width <= state.len());
        let base = h * width;
        let mut start = width;
        let mut i: usize = 0;
        while i < width && start == width
            invariant
                i <= width,
                w == width,
                hf == half >= 1,
                base == h * w,
                h < height,
                state.len() >= w * height,
                w <= 1000,
                start == width ==> first_change(state@, w, hf, h as int, 0) == first_change(
                    state@,
                    w,
                    hf,
                    h as int,
                    i as int,
                ),
                start < width ==> start == first_change(state@, w, hf, h as int, 0),
                start <= width,
            decreases width - i + (if start == width { 1int } else { 0int }),
        {
            proof {
                lemma_cell(w, height as int, h as int, i as int);
                lemma_cell(w, height as int, h as int, ((i + w - 1) % w) as int);
            }
            let j = (i + width - 1) % width;
            if state[base + i] / half != state[base + j] / half {
                start = i;
            } else {
                i = i + 1;
            }
        }
        assert(start == first_change(state@, w, hf, h as int, 0)) by {
            if start == width {
                assert(first_change(state@, w, hf, h as int, i as int) == w);
            }
        }
        if start < width {
            let ghost s = start as int;
            let mut prev = state[base + start] / half;
            let mut length: usize = 1;
            let mut row: i32 = 0;
            let mut i: usize = 1;
            proof {
                lemma_cell(w, height as int, h as int, s);
            }
            while i < width
                invariant
                    1 <= i <= width,
                    w == width,
                    hf == half >= 1,
                    base == h * w,
                    h < height,
                    start < width,
                    s == start,
                    w <= 1000,
                    state.len() >= w * height,
                    0 <= length <= i,
                    0 <= row <= (i - 1) * w * w,
                    w * w * w <= 1000000000,
                    row + run_cost(state@, w, hf, h as int, s, i as int, prev as int, length as int)
                        == row_cost(state@, w, hf, h as int),
                decreases width - i,
            {
                let k = (start + i) % width;
                proof {
                    lemma_cell(w, height as int, h as int, k as int);
                }
                let cur = state[base + k] / half;
                if cur == prev {
                    length = length + 1;
                } else {
                    proof {
                        assert(0 <= (w - length) * (w - length) <= w * w) by (nonlinear_arith)
                            requires
                                0 <= length <= w,
                        ;
                        assert((i - 1) * w * w + w * w == i * w * w) by (nonlinear_arith);
                        assert(i * w * w <= w * w * w) by (nonlinear_arith)
                            requires
                                i <= w,
                                w >= 0,
                        ;
                    }
                    let d = width - length;
                    assert(d * d == (w - length) * (w - length));
                    row = row + (d * d) as i32;
                    prev = cur;
                    length = 0;
                }
                proof {
                    assert((i - 1) * w * w <= i * w * w) by (nonlinear_arith)
                        requires
                            i >= 1,
                    ;
                }
                i = i + 1;
            }
            proof {
                assert(0 <= (w - length) * (w - length) <= w * w) by (nonlinear_arith)
                    requires
                        0 <= length <= w,
                ;
            }
            let d = width - length;
            assert(d * d == (w - length) * (w - length));
            proof {
                assert((w - 1) * w * w + w * w == w * w * w) by (nonlinear_arith);
            }
            row = row + (d * d) as i32;
            cost = cost + row;
        }
        h = h + 1;
    }
    cost
}

/// The value of the binary digits `b`, most significant first.
pub open spec fn bits_value(b: Seq<u64>) -> int
    decreases b.len(),
{
    if b.len() == 0 {
        0
    } else {
        2 * bits_value(b.drop_last()) + b.last()
    }
}

/// Two to the power `n`.
pub open spec fn p2(n: nat) -> int
    decreases n,
{
    if n == 0 {
        1
    } else {
        2 * p2((n - 1) as nat)
    }
}

/// The sides of the pieces of `state`, for sides of `div` pieces.
pub open spec fn side_bits(state: Seq<usize>, div: int) -> Seq<u64> {
    Seq::new(state.len(), |i: int| (state[i] as int / div) as u64)
}

/// The words of `pack_state`: the sides in blocks of 64, each block read
/// as a binary number (the last block may be shorter).
pub open spec fn packed_words(state: Seq<usize>, div: int) -> Seq<u64> {
    let b = side_bits(state, div);
    Seq::new(
        ((state.len() + 63) / 64) as nat,
        |k: int| bits_value(b.subrange(64 * k, if 64 * k + 64 <= b.len() { 64 * k + 64 } else { b.len() as int })) as u64,
    )
}

proof fn lemma_bits_bound(b: Seq<u64>)
    requires
        forall|i: int| 0 <= i < b.len() ==> #[trigger] b[i] <= 1,
    ensures
        0 <= bits_value(b) < p2(b.len()),
    decreases b.len(),
{
    if b.len() > 0 {
        let c = b.drop_last();
        assert forall|i: int| 0 <= i < c.len() implies #[trigger] c[i] <= 1 by {
            assert(c[i] == b[i]);
        }
        lemma_bits_bound(c);
        assert(b[b.len() - 1] <= 1);
    }
}

proof fn lemma_p2_64()
    ensures
        p2(64) == 0x1_0000_0000_0000_0000,
{
    assert(p2(0) == 1);
    assert(p2(1) == 2);
    assert(p2(2) == 4);
    assert(p2(3) == 8);
    assert(p2(4) == 16);
    assert(p2(5) == 32);
    assert(p2(6) == 64);
    assert(p2(7) == 128);
    assert(p2(8) == 256);
    assert(p2(9) == 512);
    assert(p2(10) == 1024);
    assert(p2(11) == 2048);
    assert(p2(12) == 4096);
    assert(p2(13) == 8192);
    assert(p2(14) == 16384);
    assert(p2(15) == 32768);
    assert(p2(16) == 65536);
    assert(p2(17) == 131072);
    assert(p2(18) == 262144);
    assert(p2(19) == 524288);
    assert(p2(20) == 1048576);
    assert(p2(21) == 2097152);
    assert(p2(22) == 4194304);
    assert(p2(23) == 8388608);
    assert(p2(24) == 16777216);
    assert(p2(25) == 33554432);
    assert(p2(26) == 67108864);
    assert(p2(27) == 134217728);
    assert(p2(28) == 268435456);
    assert(p2(29) == 536870912);
    assert(p2(30) == 1073741824);
    assert(p2(31) == 2147483648);
    assert(p2(32) == 4294967296);
    assert(p2(33) == 8589934592);
    assert(p2(34) == 17179869184);
    assert(p2(35) == 34359738368);
    assert(p2(36) == 68719476736);
    assert(p2(37) == 137438953472);
    assert(p2(38) == 274877906944);
    assert(p2(39) == 549755813888);
    assert(p2(40) == 1099511627776);
    assert(p2(41) == 2199023255552);
    assert(p2(42) == 4398046511104);
    assert(p2(43) == 8796093022208);
    assert(p2(44) == 17592186044416);
    assert(p2(45) == 35184372088832);
    assert(p2(46) == 70368744177664);
    assert(p2(47) == 140737488355328);
    assert(p2(48) == 281474976710656);
    assert(p2(49) == 562949953421312);
    assert(p2(50) == 1125899906842624);
    assert(p2(51) == 2251799813685248);
    assert(p2(52) == 4503599627370496);
    assert(p2(53) == 9007199254740992);
    assert(p2(54) == 18014398509481984);
    assert(p2(55) == 36028797018963968);
    assert(p2(56) == 72057594037927936);
    assert(p2(57) == 144115188075855872);
    assert(p2(58) == 288230376151711744);
    assert(p2(59) == 576460752303423488);
    assert(p2(60) == 1152921504606846976);
    assert(p2(61) == 2305843009213693952);
    assert(p2(62) == 4611686018427387904);
    assert(p2(63) == 9223372036854775808);
    assert(p2(64) == 18446744073709551616);
}

proof fn lemma_p2_mono(a: nat, b: nat)
    requires
        a <= b,
    ensures
        1 <= p2(a) <= p2(b),
    decreases b,
{
    if a < b {
        lemma_p2_mono(a, (b - 1) as nat);
    } else if a > 0 {
        lemma_p2_mono((a - 1) as nat, (a - 1) as nat);
    }
}

/// The state packed one bit per piece, its side (`state[i] / div`), 64
/// pieces per word.
pub fn pack_state(state: &Vec<usize>, div: usize) -> (r: Vec<u64>)
    requires
        div > 0,
        forall|i: int| 0 <= i < state.len() ==> #[trigger] state[i] / div <= 1,
    ensures
        r@ == packed_words(state@, div as int),
{
    let ghost b = side_bits(state@, div as int);
    let mut res: Vec<u64> = Vec::new();
    let mut val: u64 = 0;
    let mut i: usize = 0;
    proof {
        lemma_p2_64();
    }
    while i < state.len()
        invariant
            i <= state.len(),
            div > 0,
            b == side_bits(state@, div as int),
            forall|j: int| 0 <= j < state.len() ==> #[trigger] state[j] / div <= 1,
            p2(64) == 0x1_0000_0000_0000_0000,
            i < state.len() ==> res.len() == i / 64,
            i == state.len() ==> res.len() == (state.len() + 63) / 64,
            forall|k: int| 0 <= k < res.len() ==> #[trigger] res@[k] == packed_words(state@, div as int)[k],
            i < state.len() ==> val as int == bits_value(b.subrange(64 * (i / 64) as int, i as int)),
        decreases state.len() - i,
    {
        let ghost lo = 64 * (i / 64) as int;
        let bit = (state[i] / div) as u64;
        proof {
            let c = b.subrange(lo, i as int);
            assert forall|j: int| 0 <= j < c.len() implies #[trigger] c[j] <= 1 by {
                assert(c[j] == b[lo + j]);
                assert(state[lo + j] / div <= 1);
            }
            lemma_bits_bound(c);
            lemma_p2_mono(c.len(), 63);
            assert(p2(64) == 2 * p2(63));
            assert(b.subrange(lo, i + 1).drop_last() =~= c);
            assert(b.subrange(lo, i + 1).last() == bit);
        }
        val = 2 * val + bit;
        if i % 64 == 63 || i == state.len() - 1 {
            let ghost k = res.len() as int;
            proof {
                assert(lo == 64 * k);
                assert((i + 1) as int == (if 64 * k + 64 <= b.len() { 64 * k + 64 } else { b.len() as int }));
                assert(k < packed_words(state@, div as int).len());
            }
            let ghost old_res = res@;
            res.push(val);
            val = 0;
            proof {
                assert(res@[k] == packed_words(state@, div as int)[k]);
                assert forall|t: int| 0 <= t < res.len() implies #[trigger] res@[t] == packed_words(state@, div as int)[t] by {
                    if t < k {
                        assert(res@[t] == old_res[t]);
                    }
                }
                if i + 1 < state.len() {
                    assert(b.subrange(64 * ((i + 1) / 64) as int, (i + 1) as int) =~= Seq::<u64>::empty());
                }
            }
        }
        i = i + 1;
    }
    assert(res@ =~= packed_words(state@, div as int));
    res
}

/// A candidate move of a beam: the node it extends, the move, the cost of
/// the state it reaches, and a random tie-breaker.
pub struct Candidate {
    pub parent: usize,
    pub action: usize,
    pub cost: i32,
    pub rand: u32,
}

/// `a` comes before `b`: lower cost, then lower tie-breaker.
pub open spec fn cand_lt(a: Candidate, b: Candidate) -> bool {
    a.cost < b.cost || (a.cost == b.cost && a.rand < b.rand)
}

/// Orders candidates by cost, then by tie-breaker.
pub fn compare_candidate(a: &Candidate, b: &Candidate) -> (o: std::cmp::Ordering)
    ensures
        (o is Less) == cand_lt(*a, *b),
        (o is Greater) == cand_lt(*b, *a),
        (o is Equal) == (a.cost == b.cost && a.rand == b.rand),
{
    if a.cost < b.cost {
        std::cmp::Ordering::Less
    } else if a.cost > b.cost {
        std::cmp::Ordering::Greater
    } else {
        if a.rand < b.rand {
            std::cmp::Ordering::Less
        } else if a.rand > b.rand {
            std::cmp::Ordering::Greater
        } else {
            std::cmp::Ordering::Equal
        }
    }
}

} // verus!

verus! {

/// The side a piece of row `h` belongs to: the upper half of the rows on
/// side 0, the lower on side 1 (as `h / (height / 2)` gives it).
pub open spec fn home_side(h: int, height: int) -> int {
    h / (height / 2)
}

/// Three for each of the first `i` columns of row `h` whose piece is away
/// from its home side.
pub open spec fn away_cost_row(state: Seq<usize>, w: int, height: int, half: int, h: int, i: int) -> int
    decreases i,
{
    if i <= 0 {
        0
    } else {
        away_cost_row(state, w, height, half, h, i - 1) + if row_side(state, w, half, h, i - 1)
            != home_side(h, height) {
            3int
        } else {
            0int
        }
    }
}

/// `away_cost_row` summed over rows `0..h`.
pub open spec fn away_cost(state: Seq<usize>, w: int, height: int, half: int, h: int) -> int
    decreases h,
{
    if h <= 0 {
        0
    } else {
        away_cost(state, w, height, half, h - 1) + away_cost_row(state, w, height, half, h - 1, w)
    }
}

/// Of the first `n` pieces of row `h`: when `same`, the order of each piece
/// on side `target`; otherwise `w - 1 - order` of each piece on the other side.
pub open spec fn row_part(
    state: Seq<usize>,
    order: Seq<i32>,
    w: int,
    half: int,
    h: int,
    target: int,
    same: bool,
    n: int,
) -> Seq<i32>
    decreases n,
{
    if n <= 0 {
        Seq::<i32>::empty()
    } else {
        let p = row_part(state, order, w, half, h, target, same, n - 1);
        let x = state[h * w + n - 1];
        if (side_of(x, half) == target) == same {
            p.push(if same { order[x as int] } else { (w - 1 - order[x as int]) as i32 })
        } else {
            p
        }
    }
}

/// The inversion cost of row `h`: the estimate for the pieces on the row's
/// home side, plus twice that for the others (each mirrored).
pub open spec fn row_rev_cost(state: Seq<usize>, order: Seq<i32>, w: int, height: int, half: int, h: int) -> int {
    let target = if h < height / 2 { 0int } else { 1int };
    let a = row_part(state, order, w, half, h, target, true, w);
    let b = row_part(state, order, w, half, h, target, false, w);
    (if a.len() > 0 { rev_sim_all_spec(a, w) } else { 0 }) + (if b.len() > 0 { 2 * rev_sim_all_spec(b, w) } else { 0 })
}

/// The larger inversion cost of rows `i` and `height - 1 - i`.
pub open spec fn pair_cost(state: Seq<usize>, order: Seq<i32>, w: int, height: int, half: int, i: int) -> int {
    let a = row_rev_cost(state, order, w, height, half, i);
    let b = row_rev_cost(state, order, w, height, half, height - 1 - i);
    if a >= b { a } else { b }
}

/// Four times the pair costs of the first `i` row pairs.
pub open spec fn pairs_sum(state: Seq<usize>, order: Seq<i32>, w: int, height: int, half: int, i: int) -> int
    decreases i,
{
    if i <= 0 {
        0
    } else {
        pairs_sum(state, order, w, height, half, i - 1) + 4 * pair_cost(state, order, w, height, half, i - 1)
    }
}

/// The largest pair cost of the first `i` row pairs (0 for none).
pub open spec fn pairs_max(state: Seq<usize>, order: Seq<i32>, w: int, height: int, half: int, i: int) -> int
    decreases i,
{
    if i <= 0 {
        0
    } else {
        let m = pairs_max(state, order, w, height, half, i - 1);
        let c = pair_cost(state, order, w, height, half, i - 1);
        if m >= c { m } else { c }
    }
}

/// The cost that guides the first phase of the globe solver.
pub open spec fn first_move_cost_spec(state: Seq<usize>, order: Seq<i32>, w: int, height: int, ptn: int) -> int {
    let half = ptn / 2;
    away_cost(state, w, height, half, height) + pairs_sum(state, order, w, height, half, height / 2)
        + 8 * pairs_max(state, order, w, height, half, height / 2)
}

/// What `calc_cost_for_first_move` accepts: a state of at least
/// `width * height` pieces, each with an order in `0..width`, at least two
/// rows and two piece types, and sizes whose costs fit in `i32`.
pub open spec fn first_move_ok(state: Seq<usize>, order: Seq<i32>, w: int, height: int, ptn: int) -> bool {
    &&& 1 <= w <= 1000
    &&& 2 <= height <= 64
    &&& ptn >= 2
    &&& state.len() >= w * height
    &&& forall|k: int| 0 <= k < state.len() ==> #[trigger] state[k] < order.len()
    &&& forall|j: int| 0 <= j < order.len() ==> 0 <= #[trigger] order[j] < w
}

proof fn lemma_row_part(
    state: Seq<usize>,
    order: Seq<i32>,
    w: int,
    height: int,
    half: int,
    h: int,
    target: int,
    same: bool,
    n: int,
)
    requires
        first_move_ok(state, order, w, height, 2 * half),
        0 <= h < height,
        0 <= n <= w,
    ensures
        row_part(state, order, w, half, h, target, same, n).len() <= n,
        forall|i: int|
            0 <= i < row_part(state, order, w, half, h, target, same, n).len() ==> 0 <= #[trigger] row_part(
                state,
                order,
                w,
                half,
                h,
                target,
                same,
                n,
            )[i] < w,
    decreases n,
{
    if n > 0 {
        lemma_row_part(state, order, w, height, half, h, target, same, n - 1);
        lemma_cell(w, height, h, n - 1);
        let x = state[h * w + n - 1];
        assert(x < order.len());
        assert(0 <= order[x as int] < w);
    }
}

proof fn lemma_row_rev_cost(state: Seq<usize>, order: Seq<i32>, w: int, height: int, half: int, h: int)
    requires
        first_move_ok(state, order, w, height, 2 * half),
        0 <= h < height,
    ensures
        0 <= row_rev_cost(state, order, w, height, half, h) <= 3000000,
{
    let target = if h < height / 2 { 0int } else { 1int };
    lemma_row_part(state, order, w, height, half, h, target, true, w);
    lemma_row_part(state, order, w, height, half, h, target, false, w);
    let a = row_part(state, order, w, half, h, target, true, w);
    let b = row_part(state, order, w, half, h, target, false, w);
    if a.len() > 0 {
        lemma_row_estimate_bound(a, w);
    }
    if b.len() > 0 {
        lemma_row_estimate_bound(b, w);
    }
}

pub proof fn lemma_row_estimate_bound(v: Seq<i32>, w: int)
    requires
        0 < v.len() <= w <= 1000,
        forall|i: int| 0 <= i < v.len() ==> 0 <= #[trigger] v[i] < w,
    ensures
        0 <= rev_sim_all_spec(v, w) <= 1000000,
{
    crate::globe_sim::lemma_rev_sim_all_bound(v, w);
    let len = v.len() as int;
    let h1 = len / 2;
    let h2 = (len + 1) / 2;
    assert(h1 * (h1 + 1) <= 500 * 501) by (nonlinear_arith)
        requires
            0 <= h1 <= 500,
    ;
    assert(h2 * (h2 + 1) <= 500 * 501) by (nonlinear_arith)
        requires
            0 <= h2 <= 500,
    ;
}

} // verus!

verus! {

fn row_parts(
    state: &Vec<usize>,
    order_map: &Vec<i32>,
    width: usize,
    height: usize,
    half: usize,
    h: usize,
    target: usize,
) -> (r: (Vec<i32>, Vec<i32>))
    requires
        first_move_ok(state@, order_map@, width as int, height as int, 2 * half),
        h < height,
        target <= 1,
    ensures
        r.0@ == row_part(state@, order_map@, width as int, half as int, h as int, target as int, true, width as int),
        r.1@ == row_part(state@, order_map@, width as int, half as int, h as int, target as int, false, width as int),
{
    let ghost w = width as int;
    let mut a: Vec<i32> = Vec::new();
    let mut b: Vec<i32> = Vec::new();
    let mut i: usize = 0;
    while i < width
        invariant
            i <= width,
            w == width,
            h < height,
            target <= 1,
            first_move_ok(state@, order_map@, w, height as int, 2 * half),
            a@ == row_part(state@, order_map@, w, half as int, h as int, target as int, true, i as int),
            b@ == row_part(state@, order_map@, w, half as int, h as int, target as int, false, i as int),
        decreases width - i,
    {
        proof {
            lemma_cell(w, height as int, h as int, i as int);
        }
        assert(h * width + i < width * height);
        assert(width * height <= state.len());
        let x = state[h * width + i];
        assert(x < order_map.len());
        let o = order_map[x];
        assert(0 <= o < w);
        if x / half == target {
            a.push(o);
        } else {
            b.push((width as i32) - 1 - o);
        }
        i = i + 1;
    }
    (a, b)
}

/// The cost that guides the first phase of the globe solver: three for each
/// piece away from its home side, plus, for each pair of mirrored rows, four
/// times the larger inversion estimate of the two, plus eight times the
/// largest such estimate.
pub fn calc_cost_for_first_move(
    state: &Vec<usize>,
    order_map: &Vec<i32>,
    width: usize,
    height: usize,
    piece_type_num: usize,
) -> (r: i32)
    requires
        first_move_ok(state@, order_map@, width as int, height as int, piece_type_num as int),
    ensures
        r == first_move_cost_spec(state@, order_map@, width as int, height as int, piece_type_num as int),
        0 <= r <= 420000000,
{
    let ghost w = width as int;
    let half = piece_type_num / 2;
    let ghost hf = half as int;
    assert(first_move_ok(state@, order_map@, w, height as int, 2 * hf));
    let mut cost: i32 = 0;
    let mut h: usize = 0;
    while h < height
        invariant
            h <= height,
            w == width,
            hf == half >= 1,
            first_move_ok(state@, order_map@, w, height as int, piece_type_num as int),
            first_move_ok(state@, order_map@, w, height as int, 2 * hf),
            0 <= cost <= 3000 * h,
            cost == away_cost(state@, w, height as int, hf, h as int),
        decreases height - h,
    {
        let mut i: usize = 0;
        let ghost c0 = cost as int;
        while i < width
            invariant
                i <= width,
                h < height,
                w == width,
                hf == half >= 1,
                first_move_ok(state@, order_map@, w, height as int, 2 * hf),
                c0 == away_cost(state@, w, height as int, hf, h as int),
                0 <= c0 <= 3000 * h,
                cost == c0 + away_cost_row(state@, w, height as int, hf, h as int, i as int),
                c0 <= cost <= c0 + 3 * i,
            decreases width - i,
        {
            proof {
                lemma_cell(w, height as int, h as int, i as int);
            }
            assert(h * width + i < width * height);
            assert(width * height <= state.len());
            if state[h * width + i] / half != h / (height / 2) {
                cost = cost + 3;
            }
            i = i + 1;
        }
        assert(cost <= 3000 * h + 3000);
        h = h + 1;
    }
    let mut rev_cost: Vec<i32> = Vec::new();
    let mut h: usize = 0;
    while h < height
        invariant
            h <= height,
            w == width,
            hf == half >= 1,
            first_move_ok(state@, order_map@, w, height as int, 2 * hf),
            rev_cost.len() == h,
            forall|k: int| 0 <= k < h ==> #[trigger] rev_cost@[k] == row_rev_cost(state@, order_map@, w, height as int, hf, k),
        decreases height - h,
    {
        let target: usize = if h < height / 2 {
            0
        } else {
            1
        };
        let (vec_a, vec_b) = row_parts(state, order_map, width, height, half, h, target);
        proof {
            lemma_row_part(state@, order_map@, w, height as int, hf, h as int, target as int, true, w);
            lemma_row_part(state@, order_map@, w, height as int, hf, h as int, target as int, false, w);
            if vec_a.len() > 0 {
                lemma_row_estimate_bound(vec_a@, w);
            }
            if vec_b.len() > 0 {
                lemma_row_estimate_bound(vec_b@, w);
            }
        }
        let mut rc: i32 = 0;
        if vec_a.len() > 0 {
            rc = rc + rev_sim_all(&vec_a, width);
        }
        if vec_b.len() > 0 {
            rc = rc + 2 * rev_sim_all(&vec_b, width);
        }
        rev_cost.push(rc);
        proof {
            assert forall|k: int| 0 <= k < h + 1 implies #[trigger] rev_cost@[k] == row_rev_cost(state@, order_map@, w, height as int, hf, k) by {}
        }
        h = h + 1;
    }
    let ghost base = cost as int;
    let mut mx: i32 = 0;
    let mut i: usize = 0;
    while i < height / 2
        invariant
            i <= height / 2,
            w == width,
            hf == half >= 1,
            first_move_ok(state@, order_map@, w, height as int, 2 * hf),
            rev_cost.len() == height,
            forall|k: int| 0 <= k < height ==> #[trigger] rev_cost@[k] == row_rev_cost(state@, order_map@, w, height as int, hf, k),
            base == away_cost(state@, w, height as int, hf, height as int),
            0 <= base <= 3 * 64 * 1000,
            cost == base + pairs_sum(state@, order_map@, w, height as int, hf, i as int),
            mx == pairs_max(state@, order_map@, w, height as int, hf, i as int),
            0 <= mx <= 3000000,
            base <= cost <= base + 12000000 * i,
        decreases height / 2 - i,
    {
        proof {
            lemma_row_rev_cost(state@, order_map@, w, height as int, hf, i as int);
            lemma_row_rev_cost(state@, order_map@, w, height as int, hf, height - 1 - i);
        }
        let a = rev_cost[i];
        let b = rev_cost[height - 1 - i];
        assert(0 <= a <= 3000000);
        assert(0 <= b <= 3000000);
        let add = if a >= b {
            a
        } else {
            b
        };
        assert(i < 32);
        assert(cost <= base + 12000000 * i);
        assert(12000000 * i <= 12000000 * 31);
        assert(cost <= 400000000);
        cost = cost + 4 * add;
        assert(cost <= base + 12000000 * (i + 1));
        if add > mx {
            mx = add;
        }
        i = i + 1;
    }
    cost + 8 * mx
}

} // verus!
