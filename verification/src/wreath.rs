//! The 100-piece wreath: two rings of 100 pieces (left `l`, right `r`)
//! that share two pieces. A move turns one ring by some steps; the search
//! tells moves by a number: `k` (1..=99) turns the left ring `k` steps, and
//! `100 + k` the right ring.
use vstd::prelude::*;
use crate::text::{join_seq, string_of};

verus! {

/// The ring of a move permutation that goes through piece 0: 0,
/// `action[0]`, `action[action[0]]`, ..., up to the piece before 0 comes
/// back, or `None` when it does not come back within `n` steps or leaves
/// the permutation.
pub open spec fn cycle_from(action: Seq<i16>, idx: int, n: nat) -> Option<Seq<usize>>
    decreases n,
{
    if n == 0 || idx < 0 || idx >= action.len() {
        None
    } else {
        let next = action[idx] as usize as int;
        if next == 0 {
            Some(seq![idx as usize])
        } else {
            match cycle_from(action, next, (n - 1) as nat) {
                Some(rest) => Some(seq![idx as usize] + rest),
                None => None,
            }
        }
    }
}

/// The ring of the move `action` through piece 0, in the order the move
/// sends pieces along it; `None` when it does not close.
pub fn wreath_cycle(action: &Vec<i16>) -> (r: Option<Vec<usize>>)
    ensures
        match r {
            Some(v) => cycle_from(action@, 0, action.len() as nat) == Some(v@),
            None => cycle_from(action@, 0, action.len() as nat) is None,
        },
{
    let mut list: Vec<usize> = Vec::new();
    let mut idx: usize = 0;
    let mut fuel = action.len();
    assert(cycle_from(action@, 0, fuel as nat) == match cycle_from(action@, idx as int, fuel as nat) {
        Some(rest) => Some(list@ + rest),
        None => None::<Seq<usize>>,
    }) by {
        match cycle_from(action@, 0, fuel as nat) {
            Some(rest) => {
                assert(list@ + rest =~= rest);
            },
            None => {},
        }
    }
    while fuel > 0
        invariant
            cycle_from(action@, 0, action.len() as nat) == match cycle_from(action@, idx as int, fuel as nat) {
                Some(rest) => Some(list@ + rest),
                None => None::<Seq<usize>>,
            },
        decreases fuel,
    {
        if idx >= action.len() {
            return None;
        }
        let next = action[idx] as usize;
        let ghost before = list@;
        list.push(idx);
        if next == 0 {
            assert(before + seq![idx] =~= list@);
            return Some(list);
        }
        proof {
            match cycle_from(action@, next as int, (fuel - 1) as nat) {
                Some(rest) => {
                    assert(before + (seq![idx] + rest) =~= list@ + rest);
                },
                None => {},
            }
        }
        idx = next;
        fuel = fuel - 1;
    }
    None
}

/// Both rings have 100 pieces, each an index of a state of `n` pieces.
pub open spec fn rings_ok(wl: Seq<usize>, wr: Seq<usize>, n: int) -> bool {
    &&& wl.len() == 100
    &&& wr.len() == 100
    &&& forall|i: int| 0 <= i < 100 ==> #[trigger] wl[i] < n
    &&& forall|i: int| 0 <= i < 100 ==> #[trigger] wr[i] < n
}

/// Writes, for each `i`, the piece at ring position `i + k` to position `i`.
pub open spec fn turn_ring(base: Seq<i8>, orig: Seq<i8>, ring: Seq<usize>, k: int, i: int) -> Seq<i8>
    decreases i,
{
    if i <= 0 {
        base
    } else {
        turn_ring(base, orig, ring, k, i - 1).update(ring[i - 1] as int, orig[ring[(i - 1 + k) % 100] as int])
    }
}

/// The state after move `action`: unchanged for 0 and 100, else the left
/// ring (below 100) or the right ring turned by `action % 100` steps.
pub open spec fn move_wreath_spec(state: Seq<i8>, wl: Seq<usize>, wr: Seq<usize>, action: u8) -> Seq<i8> {
    if action % 100 == 0 {
        state
    } else if action < 100 {
        turn_ring(state, state, wl, action as int, 100)
    } else {
        turn_ring(state, state, wr, action as int, 100)
    }
}

/// The state after move `action`.
pub fn move_wreath(state: &Vec<i8>, wreath_l: &Vec<usize>, wreath_r: &Vec<usize>, action: u8) -> (r: Vec<i8>)
    requires
        rings_ok(wreath_l@, wreath_r@, state.len() as int),
    ensures
        r@ == move_wreath_spec(state@, wreath_l@, wreath_r@, action),
{
    let mut new_state = state.clone();
    assert(new_state@ =~= state@);
    if action % 100 != 0 {
        let ring = if action < 100 {
            wreath_l
        } else {
            wreath_r
        };
        let mut i: usize = 0;
        while i < 100
            invariant
                i <= 100,
                rings_ok(wreath_l@, wreath_r@, state.len() as int),
                ring@ == wreath_l@ || ring@ == wreath_r@,
                new_state@ == turn_ring(state@, state@, ring@, action as int, i as int),
                new_state.len() == state.len(),
            decreases 100 - i,
        {
            let j = (i + action as usize) % 100;
            assert(wreath_l@[i as int] < state.len() && wreath_l@[j as int] < state.len());
            assert(wreath_r@[i as int] < state.len() && wreath_r@[j as int] < state.len());
            new_state.set(ring[i], state[ring[j]]);
            i = i + 1;
        }
    }
    new_state
}

/// Whether the left ring turned by `shift` steps is worth trying: it brings
/// two `b` pieces to the shared spots, or an `a` piece where the right ring
/// wants one, or it breaks up a run of `b` pieces.
pub open spec fn is_candidate_left_spec(s: Seq<i8>, wl: Seq<usize>, wr: Seq<usize>, shift: int, a: i8, b: i8) -> bool {
    let l = |k: int| s[wl[(shift + k) % 100] as int];
    ||| l(0) == b && l(25) == b
    ||| s[wr[26] as int] == a && l(0) == a && l(25) != a
    ||| s[wr[100 - 26 * 2] as int] == a && l(25) == a && l(0) != a
    ||| l(50) == b && (l(25) != b || l(75) != b)
    ||| l(75) == b && (l(50) != b || l(0) != b)
}

/// Whether the right ring turned by `shift` steps is worth trying, as
/// `is_candidate_left_spec` says for the left ring.
pub open spec fn is_candidate_right_spec(s: Seq<i8>, wl: Seq<usize>, wr: Seq<usize>, shift: int, a: i8, b: i8) -> bool {
    let r = |k: int| s[wr[(shift + k) % 100] as int];
    ||| r(0) == a && r(100 - 26) == a
    ||| s[wl[75] as int] == b && r(0) == b && r(100 - 26) != b
    ||| s[wl[50] as int] == b && r(100 - 26) == b && r(0) != b
    ||| r(100 - 2 * 26) == a && (r(100 - 3 * 26) != a || r(100 - 26) != a)
    ||| r(26) == a && (r(52) != a || r(0) != a)
}

/// Whether turning the left ring by `shift` is worth trying.
pub fn is_candidate_left(state: &Vec<i8>, wreath_l: &Vec<usize>, wreath_r: &Vec<usize>, shift: usize, idx_a: i8, idx_b: i8) -> (r: bool)
    requires
        rings_ok(wreath_l@, wreath_r@, state.len() as int),
        shift < 100,
    ensures
        r == is_candidate_left_spec(state@, wreath_l@, wreath_r@, shift as int, idx_a, idx_b),
{
    let l0 = state[wreath_l[shift]];
    let l25 = state[wreath_l[(shift + 25) % 100]];
    let l50 = state[wreath_l[(shift + 50) % 100]];
    let l75 = state[wreath_l[(shift + 75) % 100]];
    assert(shift % 100 == shift);
    if l0 == idx_b && l25 == idx_b {
        return true;
    }
    if state[wreath_r[26]] == idx_a {
        if l0 == idx_a && l25 != idx_a {
            return true;
        }
    }
    if state[wreath_r[100 - 26 * 2]] == idx_a {
        if l25 == idx_a && l0 != idx_a {
            return true;
        }
    }
    if l50 == idx_b && (l25 != idx_b || l75 != idx_b) {
        return true;
    }
    if l75 == idx_b && (l50 != idx_b || l0 != idx_b) {
        return true;
    }
    false
}

/// Whether turning the right ring by `shift` is worth trying.
pub fn is_candidate_right(state: &Vec<i8>, wreath_l: &Vec<usize>, wreath_r: &Vec<usize>, shift: usize, idx_a: i8, idx_b: i8) -> (r: bool)
    requires
        rings_ok(wreath_l@, wreath_r@, state.len() as int),
        shift < 100,
    ensures
        r == is_candidate_right_spec(state@, wreath_l@, wreath_r@, shift as int, idx_a, idx_b),
{
    let r0 = state[wreath_r[shift]];
    let r74 = state[wreath_r[(shift + 100 - 26) % 100]];
    let r48 = state[wreath_r[(shift + 100 - 2 * 26) % 100]];
    let r22 = state[wreath_r[(shift + 100 - 3 * 26) % 100]];
    let r26 = state[wreath_r[(shift + 26) % 100]];
    let r52 = state[wreath_r[(shift + 2 * 26) % 100]];
    assert(shift % 100 == shift);
    if r0 == idx_a && r74 == idx_a {
        return true;
    }
    if state[wreath_l[75]] == idx_b {
        if r0 == idx_b && r74 != idx_b {
            return true;
        }
    }
    if state[wreath_l[50]] == idx_b {
        if r74 == idx_b && r0 != idx_b {
            return true;
        }
    }
    if r48 == idx_a && (r22 != idx_a || r74 != idx_a) {
        return true;
    }
    if r26 == idx_a && (r52 != idx_a || r0 != idx_a) {
        return true;
    }
    false
}

/// The text of a move by number: `action` times `l` for up to 50, `100 -
/// action` times `-l` below 100, `action - 100` times `r` up to 150, and
/// `200 - action` times `-r` above, joined by `.`.
pub open spec fn action_id_spec(action: u8) -> Seq<char> {
    if action <= 50 {
        join_seq(Seq::new(action as nat, |i: int| seq!['l']), '.')
    } else if action < 100 {
        join_seq(Seq::new((100 - action) as nat, |i: int| seq!['-', 'l']), '.')
    } else if action <= 150 {
        join_seq(Seq::new((action - 100) as nat, |i: int| seq!['r']), '.')
    } else {
        join_seq(Seq::new((200 - action) as nat, |i: int| seq!['-', 'r']), '.')
    }
}

proof fn lemma_join_repeat(p: Seq<char>, k: nat)
    requires
        k >= 1,
    ensures
        join_seq(Seq::new(k + 1, |i: int| p), '.') == join_seq(Seq::new(k, |i: int| p), '.').push('.') + p,
{
    assert(Seq::new(k + 1, |i: int| p).drop_last() =~= Seq::new(k, |i: int| p));
}

/// The text of move number `action`, as single turns joined by `.`.
pub fn action_id_to_str(action: u8) -> (r: String)
    requires
        action <= 200,
    ensures
        r@ == action_id_spec(action),
{
    let (count, neg, side): (usize, bool, char) = if action <= 50 {
        (action as usize, false, 'l')
    } else if action < 100 {
        (100 - action as usize, true, 'l')
    } else if action <= 150 {
        (action as usize - 100, false, 'r')
    } else {
        (200 - action as usize, true, 'r')
    };
    let ghost p: Seq<char> = if neg { seq!['-', side] } else { seq![side] };
    let mut v: Vec<char> = Vec::new();
    let mut i: usize = 0;
    assert(join_seq(Seq::new(0, |t: int| p), '.') =~= Seq::<char>::empty());
    while i < count
        invariant
            i <= count,
            p == (if neg { seq!['-', side] } else { seq![side] }),
            v@ == join_seq(Seq::new(i as nat, |t: int| p), '.'),
        decreases count - i,
    {
        let ghost before = v@;
        if i > 0 {
            v.push('.');
        }
        if neg {
            v.push('-');
        }
        v.push(side);
        proof {
            if i == 0 {
                assert(Seq::new(1, |t: int| p) =~= seq![p]);
                assert(v@ =~= p);
            } else {
                lemma_join_repeat(p, i as nat);
                assert(v@ =~= before.push('.') + p);
            }
        }
        i = i + 1;
    }
    string_of(&v)
}

} // verus!
