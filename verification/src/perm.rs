//! Moves as index permutations of a puzzle state, and the sparse form
//! (`(to, from)` pairs) in which the solvers apply them.
use vstd::prelude::*;

verus! {

/// The `(to, from)` pairs of a move permutation: every position `idx` whose
/// entry `v[idx]` (read as `usize`) differs from `idx`.
pub open spec fn action_of(v: Seq<i16>) -> Seq<(usize, usize)>
    decreases v.len(),
{
    if v.len() == 0 {
        Seq::<(usize, usize)>::empty()
    } else {
        let a = action_of(v.drop_last());
        let idx = v.len() - 1;
        if idx == (v.last() as usize) as int {
            a
        } else {
            a.push((idx as usize, v.last() as usize))
        }
    }
}

/// The sparse action of one permutation.
pub fn create_action(v: &Vec<i16>) -> (r: Vec<(usize, usize)>)
    ensures
        r@ == action_of(v@),
{
    let mut action_k: Vec<(usize, usize)> = Vec::new();
    let mut idx: usize = 0;
    while idx < v.len()
        invariant
            idx <= v.len(),
            action_k@ == action_of(v@.take(idx as int)),
        decreases v.len() - idx,
    {
        let i = v[idx];
        assert(v@.take(idx + 1).drop_last() =~= v@.take(idx as int));
        assert(v@.take(idx + 1).last() == i);
        if idx != i as usize {
            action_k.push((idx, i as usize));
        }
        idx = idx + 1;
    }
    assert(v@.take(v.len() as int) =~= v@);
    action_k
}

/// Named moves with their permutations.
pub struct MoveTable {
    pub names: Vec<String>,
    pub perms: Vec<Vec<i16>>,
}

/// Named moves with their sparse actions.
pub struct ActionTable {
    pub names: Vec<String>,
    pub actions: Vec<Vec<(usize, usize)>>,
}

impl MoveTable {
    pub open spec fn wf(&self) -> bool {
        self.names.len() == self.perms.len()
    }
}

impl ActionTable {
    pub open spec fn wf(&self) -> bool {
        self.names.len() == self.actions.len()
    }

    /// The action named `name` is `a`.
    pub open spec fn has(&self, name: Seq<char>, a: Seq<(usize, usize)>) -> bool {
        exists|k: int|
            0 <= k < self.names.len() && #[trigger] self.names[k]@ == name && self.actions[k]@
                == a
    }

    /// Some action is named `name`.
    pub open spec fn knows(&self, name: Seq<char>) -> bool {
        exists|k: int| 0 <= k < self.names.len() && #[trigger] self.names[k]@ == name
    }

    /// `k` is the first position whose name is `name`.
    pub open spec fn is_first(&self, name: Seq<char>, k: int) -> bool {
        &&& 0 <= k < self.names.len()
        &&& self.names[k]@ == name
        &&& forall|j: int| 0 <= j < k ==> #[trigger] self.names[j]@ != name
    }

    /// The action of the first move named `name`.
    pub open spec fn named(&self, name: Seq<char>) -> Seq<(usize, usize)> {
        self.actions[choose|k: int| self.is_first(name, k)]@
    }

    /// Every action addresses positions of a state of length `n`.
    pub open spec fn fits(&self, n: nat) -> bool {
        forall|k: int| 0 <= k < self.actions.len() ==> action_fits(#[trigger] self.actions[k]@, n)
    }

    /// The first action named `name`.
    pub fn get(&self, name: &String) -> (r: Option<&Vec<(usize, usize)>>)
        requires
            self.wf(),
        ensures
            match r {
                Some(a) => self.has(name@, a@) && self.knows(name@) && a@ == self.named(name@),
                None => !self.knows(name@),
            },
    {
        let mut k: usize = 0;
        while k < self.names.len()
            invariant
                self.wf(),
                k <= self.names.len(),
                forall|j: int| 0 <= j < k ==> self.names[j]@ != name@,
            decreases self.names.len() - k,
        {
            if self.names[k] == *name {
                assert(self.names[k as int]@ == name@);
                assert(self.is_first(name@, k as int));
                proof {
                    let c = choose|c: int| self.is_first(name@, c);
                    if c < k {
                        assert(self.names[c]@ != name@);
                    } else if c > k {
                        assert(self.names[k as int]@ != name@);
                    }
                }
                return Some(&self.actions[k]);
            }
            k = k + 1;
        }
        None
    }
}

/// The sparse action of every move of the table, under the same names.
pub fn create_actions(allowed_moves: &MoveTable) -> (r: ActionTable)
    requires
        allowed_moves.wf(),
    ensures
        r.wf(),
        r.names@ == allowed_moves.names@,
        forall|k: int| 0 <= k < r.actions.len() ==> #[trigger] r.actions[k]@ == action_of(
            allowed_moves.perms[k]@,
        ),
{
    let mut names: Vec<String> = Vec::new();
    let mut actions: Vec<Vec<(usize, usize)>> = Vec::new();
    let mut k: usize = 0;
    while k < allowed_moves.names.len()
        invariant
            allowed_moves.wf(),
            k <= allowed_moves.names.len(),
            names@ == allowed_moves.names@.take(k as int),
            actions.len() == k,
            forall|j: int| 0 <= j < k ==> #[trigger] actions[j]@ == action_of(
                allowed_moves.perms[j]@,
            ),
        decreases allowed_moves.names.len() - k,
    {
        names.push(allowed_moves.names[k].clone());
        actions.push(create_action(&allowed_moves.perms[k]));
        assert(names@ =~= allowed_moves.names@.take(k + 1));
        k = k + 1;
    }
    assert(names@ =~= allowed_moves.names@);
    ActionTable { names, actions }
}

/// `base` after writing `orig[from]` to `to` for each pair, in order.
pub open spec fn apply_pairs(base: Seq<usize>, orig: Seq<usize>, act: Seq<(usize, usize)>) -> Seq<
    usize,
>
    decreases act.len(),
{
    if act.len() == 0 {
        base
    } else {
        apply_pairs(base, orig, act.drop_last()).update(
            act.last().0 as int,
            orig[act.last().1 as int],
        )
    }
}

/// Every pair of the action addresses positions of a state of length `n`.
pub open spec fn action_fits(action: Seq<(usize, usize)>, n: nat) -> bool {
    forall|k: int| 0 <= k < action.len() ==> #[trigger] action[k].0 < n && action[k].1 < n
}

/// The state after the move: each pair `(i, j)` puts the piece at `j` into `i`.
pub fn apply_action(state: &Vec<usize>, action: &Vec<(usize, usize)>) -> (r: Vec<usize>)
    requires
        action_fits(action@, state.len() as nat),
    ensures
        r@ == apply_pairs(state@, state@, action@),
{
    let mut new_state = state.clone();
    assert(new_state@ =~= state@);
    let mut k: usize = 0;
    while k < action.len()
        invariant
            k <= action.len(),
            action_fits(action@, state.len() as nat),
            new_state@ == apply_pairs(state@, state@, action@.take(k as int)),
            new_state.len() == state.len(),
        decreases action.len() - k,
    {
        let (i, j) = action[k];
        assert(action@.take(k + 1).drop_last() =~= action@.take(k as int));
        assert(action@[k as int].0 < state.len() && action@[k as int].1 < state.len());
        new_state.set(i, state[j]);
        k = k + 1;
    }
    assert(action@.take(action.len() as int) =~= action@);
    new_state
}

/// The state after the named moves, one after another, each by the first
/// action of the table with its name.
pub open spec fn apply_named(t: ActionTable, state: Seq<usize>, moves: Seq<Seq<char>>) -> Seq<usize>
    decreases moves.len(),
{
    if moves.len() == 0 {
        state
    } else {
        let s = apply_named(t, state, moves.drop_last());
        apply_pairs(s, s, t.named(moves.last()))
    }
}

/// Every named move is in the table.
pub open spec fn all_known(t: ActionTable, moves: Seq<Seq<char>>) -> bool {
    forall|i: int| 0 <= i < moves.len() ==> t.knows(#[trigger] moves[i])
}

/// `apply_pairs` keeps the length.
pub proof fn lemma_apply_pairs_len(base: Seq<usize>, orig: Seq<usize>, act: Seq<(usize, usize)>)
    requires
        action_fits(act, base.len()),
    ensures
        apply_pairs(base, orig, act).len() == base.len(),
    decreases act.len(),
{
    if act.len() > 0 {
        assert(action_fits(act.drop_last(), base.len())) by {
            assert forall|k: int| 0 <= k < act.drop_last().len() implies #[trigger] act.drop_last()[k].0 < base.len() && act.drop_last()[k].1 < base.len() by {
                assert(act.drop_last()[k] == act[k]);
            }
        }
        lemma_apply_pairs_len(base, orig, act.drop_last());
        assert(act[act.len() - 1].0 < base.len());
    }
}

/// Applying named moves keeps the length.
pub proof fn lemma_apply_named_len(t: ActionTable, state: Seq<usize>, moves: Seq<Seq<char>>)
    requires
        t.wf(),
        t.fits(state.len()),
        all_known(t, moves),
    ensures
        apply_named(t, state, moves).len() == state.len(),
    decreases moves.len(),
{
    if moves.len() > 0 {
        assert(all_known(t, moves.drop_last())) by {
            assert forall|i: int| 0 <= i < moves.drop_last().len() implies t.knows(#[trigger] moves.drop_last()[i]) by {
                assert(moves.drop_last()[i] == moves[i]);
            }
        }
        lemma_apply_named_len(t, state, moves.drop_last());
        let s = apply_named(t, state, moves.drop_last());
        assert(t.knows(moves[moves.len() - 1]));
        let k = choose|k: int| t.is_first(moves.last(), k);
        assert(exists|k: int| t.is_first(moves.last(), k)) by {
            lemma_first_exists(t, moves.last());
        }
        assert(action_fits(t.actions[k]@, state.len()));
        lemma_apply_pairs_len(s, s, t.named(moves.last()));
    }
}

/// A known name has a first position.
pub proof fn lemma_first_exists(t: ActionTable, name: Seq<char>)
    requires
        t.knows(name),
    ensures
        exists|k: int| t.is_first(name, k),
{
    let k0 = choose|k: int| 0 <= k < t.names.len() && #[trigger] t.names[k]@ == name;
    lemma_first_below(t, name, k0);
}

proof fn lemma_first_below(t: ActionTable, name: Seq<char>, k0: int)
    requires
        0 <= k0 < t.names.len(),
        t.names[k0]@ == name,
    ensures
        exists|k: int| t.is_first(name, k),
    decreases k0,
{
    if exists|j: int| 0 <= j < k0 && #[trigger] t.names[j]@ == name {
        let j = choose|j: int| 0 <= j < k0 && #[trigger] t.names[j]@ == name;
        lemma_first_below(t, name, j);
    } else {
        assert(t.is_first(name, k0));
    }
}

/// Applies the move named `name` to `state`, recording it in `moves`;
/// `false` (and nothing changed) when the table has no such move.
pub fn apply_named_move(
    t: &ActionTable,
    state: &mut Vec<usize>,
    moves: &mut Vec<String>,
    name: String,
    Ghost(start): Ghost<Seq<usize>>,
) -> (ok: bool)
    requires
        t.wf(),
        t.fits(old(state).len() as nat),
        old(state)@ == apply_named(*t, start, crate::pieces::string_views(old(moves)@)),
        all_known(*t, crate::pieces::string_views(old(moves)@)),
    ensures
        final(state).len() == old(state).len(),
        final(state)@ == apply_named(*t, start, crate::pieces::string_views(final(moves)@)),
        all_known(*t, crate::pieces::string_views(final(moves)@)),
        ok ==> final(moves)@ == old(moves)@.push(name),
        !ok ==> final(moves)@ == old(moves)@ && !t.knows(name@),
{
    match t.get(&name) {
        Some(a) => {
            proof {
                let k = choose|k: int| 0 <= k < t.names.len() && #[trigger] t.names[k]@ == name@
                    && t.actions[k]@ == a@;
                assert(action_fits(t.actions[k]@, state.len() as nat));
            }
            let next = apply_action(state, a);
            let ghost before = moves@;
            moves.push(name);
            proof {
                let v = crate::pieces::string_views(moves@);
                assert(v.drop_last() =~= crate::pieces::string_views(before));
                assert(v.last() == moves@.last()@);
                lemma_apply_pairs_len(state@, state@, a@);
                assert forall|i: int| 0 <= i < v.len() implies t.knows(#[trigger] v[i]) by {
                    if i < v.len() - 1 {
                        assert(v[i] == crate::pieces::string_views(before)[i]);
                    }
                }
            }
            *state = next;
            true
        },
        None => false,
    }
}

/// The state after the moves of the table with indexes `path`, in order.
pub open spec fn apply_path(t: ActionTable, state: Seq<usize>, path: Seq<usize>) -> Seq<usize>
    decreases path.len(),
{
    if path.len() == 0 {
        state
    } else {
        let s = apply_path(t, state, path.drop_last());
        apply_pairs(s, s, t.actions[path.last() as int]@)
    }
}

/// Every entry of `s` is below `n`.
pub open spec fn values_below(s: Seq<usize>, n: nat) -> bool {
    forall|i: int| 0 <= i < s.len() ==> #[trigger] s[i] < n
}

/// Moving pieces keeps every entry below the bound it had.
pub proof fn lemma_apply_pairs_values(base: Seq<usize>, orig: Seq<usize>, act: Seq<(usize, usize)>, n: nat)
    requires
        action_fits(act, orig.len()),
        orig.len() == base.len(),
        values_below(base, n),
        values_below(orig, n),
    ensures
        values_below(apply_pairs(base, orig, act), n),
        apply_pairs(base, orig, act).len() == base.len(),
    decreases act.len(),
{
    if act.len() > 0 {
        assert(action_fits(act.drop_last(), orig.len())) by {
            assert forall|k: int| 0 <= k < act.drop_last().len() implies #[trigger] act.drop_last()[k].0 < orig.len() && act.drop_last()[k].1 < orig.len() by {
                assert(act.drop_last()[k] == act[k]);
            }
        }
        lemma_apply_pairs_values(base, orig, act.drop_last(), n);
        let l = act.len() - 1;
        assert(act[l].0 < orig.len());
        assert(act[l].1 < orig.len());
        let r = apply_pairs(base, orig, act);
        let p = apply_pairs(base, orig, act.drop_last());
        assert forall|i: int| 0 <= i < r.len() implies #[trigger] r[i] < n by {
            if i != act.last().0 {
                assert(r[i] == p[i]);
            } else {
                assert(r[i] == orig[act.last().1 as int]);
            }
        }
    }
}

/// Every entry of `perm` indexes into a state of length `n`.
pub open spec fn indexes_into(perm: Seq<usize>, n: nat) -> bool {
    forall|k: int| 0 <= k < perm.len() ==> #[trigger] perm[k] < n
}

/// The sequence whose `k`-th entry is `state[perm[k]]`.
pub open spec fn gather<T>(state: Seq<T>, perm: Seq<usize>) -> Seq<T> {
    perm.map_values(|i: usize| state[i as int])
}

/// `n` zero bytes.
pub open spec fn zeros(n: nat) -> Seq<u8> {
    Seq::new(n, |i: int| 0u8)
}

/// The state whose `k`-th piece is `state[perm[k]]`.
pub fn apply_perm<T: Copy>(state: &Vec<T>, perm: &Vec<usize>) -> (r: Vec<T>)
    requires
        indexes_into(perm@, state.len() as nat),
    ensures
        r@ == gather(state@, perm@),
{
    let mut r: Vec<T> = Vec::new();
    let mut k: usize = 0;
    while k < perm.len()
        invariant
            k <= perm.len(),
            indexes_into(perm@, state.len() as nat),
            r@ == perm@.take(k as int).map_values(|i: usize| state@[i as int]),
        decreases perm.len() - k,
    {
        assert(perm@[k as int] < state.len());
        let x = state[perm[k]];
        r.push(x);
        assert(perm@.take(k + 1).map_values(|i: usize| state@[i as int]) =~= perm@.take(
            k as int,
        ).map_values(|i: usize| state@[i as int]).push(x));
        k = k + 1;
    }
    assert(perm@.take(perm.len() as int) =~= perm@);
    r
}

/// `base` after writing `state[k]` to `perm[k]` for each `k`, in order.
pub open spec fn scatter(base: Seq<u8>, state: Seq<u8>, perm: Seq<usize>) -> Seq<u8>
    decreases perm.len(),
{
    if perm.len() == 0 {
        base
    } else {
        scatter(base, state, perm.drop_last()).update(
            perm.last() as int,
            state[perm.len() - 1],
        )
    }
}

/// Undoes `apply_perm`: puts `state[k]` at position `perm[k]` of a state of
/// `perm.len()` zeros.
pub fn apply_perm_inv(state: &Vec<u8>, perm: &Vec<usize>) -> (r: Vec<u8>)
    requires
        perm.len() <= state.len(),
        indexes_into(perm@, perm.len() as nat),
    ensures
        r@ == scatter(zeros(perm.len() as nat), state@, perm@),
{
    let mut res: Vec<u8> = vec![0u8; perm.len()];
    let ghost zero = zeros(perm.len() as nat);
    assert(res@ =~= zero);
    let mut k: usize = 0;
    while k < perm.len()
        invariant
            k <= perm.len(),
            perm.len() <= state.len(),
            indexes_into(perm@, perm.len() as nat),
            res.len() == perm.len(),
            res@ == scatter(zero, state@, perm@.take(k as int)),
        decreases perm.len() - k,
    {
        assert(perm@[k as int] < perm.len());
        assert(perm@.take(k + 1).drop_last() =~= perm@.take(k as int));
        res.set(perm[k], state[k]);
        k = k + 1;
    }
    assert(perm@.take(perm.len() as int) =~= perm@);
    res
}

/// Scattering writes `state[k]` at place `perm[k]` when the places are
/// distinct.
pub proof fn lemma_scatter_at(base: Seq<u8>, state: Seq<u8>, perm: Seq<usize>, k: int)
    requires
        perm.no_duplicates(),
        indexes_into(perm, base.len()),
        perm.len() <= state.len(),
        0 <= k < perm.len(),
    ensures
        scatter(base, state, perm).len() == base.len(),
        scatter(base, state, perm)[perm[k] as int] == state[k],
    decreases perm.len(),
{
    lemma_scatter_len(base, state, perm);
    assert(indexes_into(perm.drop_last(), base.len())) by {
        assert forall|i: int| 0 <= i < perm.drop_last().len() implies #[trigger] perm.drop_last()[i] < base.len() by {
            assert(perm.drop_last()[i] == perm[i]);
        }
    }
    lemma_scatter_len(base, state, perm.drop_last());
    assert(perm[perm.len() - 1] < base.len());
    if k < perm.len() - 1 {
        let d = perm.drop_last();
        assert(d[k] == perm[k]);
        assert(d.no_duplicates()) by {
            assert forall|i: int, j: int| 0 <= i < d.len() && 0 <= j < d.len() && i != j implies d[i] != d[j] by {
                assert(d[i] == perm[i] && d[j] == perm[j]);
            }
        }
        assert(perm[k] != perm.last());
        lemma_scatter_at(base, state, d, k);
    }
}

proof fn lemma_scatter_len(base: Seq<u8>, state: Seq<u8>, perm: Seq<usize>)
    requires
        indexes_into(perm, base.len()),
    ensures
        scatter(base, state, perm).len() == base.len(),
    decreases perm.len(),
{
    if perm.len() > 0 {
        lemma_scatter_len(base, state, perm.drop_last());
    }
}

/// `apply_perm_inv` puts `state[i]` at place `perm[i]` when the places are
/// distinct places of the result.
pub proof fn lemma_perm_inv_places(state: Seq<u8>, perm: Seq<usize>)
    requires
        perm.len() <= state.len(),
        indexes_into(perm, perm.len() as nat),
        perm.no_duplicates(),
    ensures
        forall|i: int| 0 <= i < perm.len() ==> #[trigger] scatter(zeros(perm.len() as nat), state, perm)[perm[i] as int] == state[i],
{
    let z = zeros(perm.len() as nat);
    assert forall|i: int| 0 <= i < perm.len() implies #[trigger] scatter(z, state, perm)[perm[i] as int] == state[i] by {
        lemma_scatter_at(z, state, perm, i);
    }
}

} // verus!

verus! {

proof fn lemma_action_prefix(p: Seq<i16>, s: Seq<usize>, k: int)
    requires
        p.len() == s.len(),
        p.len() <= usize::MAX,
        0 <= k <= p.len(),
        forall|i: int| 0 <= i < p.len() ==> (#[trigger] p[i] as usize) < s.len(),
    ensures
        apply_pairs(s, s, action_of(p.take(k))) == Seq::new(
            s.len(),
            |i: int|
                if i < k {
                    s[(p[i] as usize) as int]
                } else {
                    s[i]
                },
        ),
    decreases k,
{
    if k == 0 {
        assert(p.take(0) =~= Seq::<i16>::empty());
        assert(apply_pairs(s, s, Seq::<(usize, usize)>::empty()) =~= Seq::new(
            s.len(),
            |i: int|
                if i < 0 {
                    s[(p[i] as usize) as int]
                } else {
                    s[i]
                },
        ));
    } else {
        lemma_action_prefix(p, s, k - 1);
        let t = p.take(k);
        assert(t.drop_last() =~= p.take(k - 1));
        assert(t.last() == p[k - 1]);
        let prev = apply_pairs(s, s, action_of(p.take(k - 1)));
        let want = Seq::new(
            s.len(),
            |i: int|
                if i < k {
                    s[(p[i] as usize) as int]
                } else {
                    s[i]
                },
        );
        assert((p[k - 1] as usize) < s.len());
        if k - 1 == (p[k - 1] as usize) as int {
            assert(action_of(t) == action_of(p.take(k - 1)));
            assert(prev =~= want);
        } else {
            let a = action_of(p.take(k - 1)).push(((k - 1) as usize, p[k - 1] as usize));
            assert(action_of(t) == a);
            assert(a.drop_last() =~= action_of(p.take(k - 1)));
            assert(a.last().0 as int == k - 1);
            assert(a.last().1 == p[k - 1] as usize);
            assert(apply_pairs(s, s, a) == prev.update(k - 1, s[(p[k - 1] as usize) as int]));
            assert(prev.update(k - 1, s[(p[k - 1] as usize) as int]) =~= want);
        }
    }
}

/// The sparse action of a move performs the move: applying it gives the
/// state whose `i`-th piece is `state[perm[i]]`.
pub proof fn lemma_action_applies_perm(perm: Seq<i16>, state: Seq<usize>)
    requires
        perm.len() == state.len(),
        perm.len() <= usize::MAX,
        forall|i: int| 0 <= i < perm.len() ==> (#[trigger] perm[i] as usize) < state.len(),
    ensures
        apply_pairs(state, state, action_of(perm)) == Seq::new(
            state.len(),
            |i: int| state[(perm[i] as usize) as int],
        ),
{
    lemma_action_prefix(perm, state, perm.len() as int);
    assert(perm.take(perm.len() as int) =~= perm);
    assert(Seq::new(
        state.len(),
        |i: int|
            if i < perm.len() {
                state[(perm[i] as usize) as int]
            } else {
                state[i]
            },
    ) =~= Seq::new(state.len(), |i: int| state[(perm[i] as usize) as int]));
}

/// Some entry of `perm` is `j`.
pub open spec fn reaches(perm: Seq<usize>, j: int) -> bool {
    exists|i: int| 0 <= i < perm.len() && perm[i] == j
}

/// `perm` reaches every position of a state of length `n`, and only those.
pub open spec fn onto(perm: Seq<usize>, n: nat) -> bool {
    &&& perm.len() == n
    &&& indexes_into(perm, n)
    &&& forall|j: int| 0 <= j < n ==> #[trigger] reaches(perm, j)
}

proof fn lemma_scatter_prefix(state: Seq<u8>, perm: Seq<usize>, k: int)
    requires
        state.len() == perm.len(),
        indexes_into(perm, perm.len() as nat),
        0 <= k <= perm.len(),
    ensures
        scatter(
            zeros(perm.len() as nat),
            gather(state, perm),
            perm.take(k),
        ).len() == perm.len(),
        forall|i: int|
            0 <= i < k ==> #[trigger] scatter(
                zeros(perm.len() as nat),
                gather(state, perm),
                perm.take(k),
            )[perm[i] as int] == state[perm[i] as int],
    decreases k,
{
    let n = perm.len();
    let zero = zeros(n as nat);
    let t = gather(state, perm);
    if k == 0 {
        assert(perm.take(0) =~= Seq::<usize>::empty());
    } else {
        lemma_scatter_prefix(state, perm, k - 1);
        let prev = scatter(zero, t, perm.take(k - 1));
        assert(perm.take(k).drop_last() =~= perm.take(k - 1));
        assert(perm.take(k).last() == perm[k - 1]);
        assert(perm[k - 1] < n);
        let cur = scatter(zero, t, perm.take(k));
        assert(cur == prev.update(perm[k - 1] as int, t[k - 1]));
        assert forall|i: int| 0 <= i < k implies #[trigger] cur[perm[i] as int] == state[perm[i] as int] by {
            assert(perm[i] < n);
            if perm[i] != perm[k - 1] {
                assert(prev[perm[i] as int] == state[perm[i] as int]);
            }
        }
    }
}

/// `apply_perm_inv` undoes `apply_perm` for a permutation.
pub proof fn lemma_perm_inv_undoes(state: Seq<u8>, perm: Seq<usize>)
    requires
        state.len() == perm.len(),
        onto(perm, perm.len() as nat),
    ensures
        scatter(
            zeros(perm.len() as nat),
            gather(state, perm),
            perm,
        ) == state,
{
    let n = perm.len();
    let zero = zeros(n as nat);
    let t = gather(state, perm);
    lemma_scatter_prefix(state, perm, n as int);
    assert(perm.take(n as int) =~= perm);
    let r = scatter(zero, t, perm);
    assert forall|j: int| 0 <= j < n implies r[j] == state[j] by {
        assert(reaches(perm, j));
        let i = choose|i: int| 0 <= i < perm.len() && perm[i] == j;
        assert(r[perm[i] as int] == state[perm[i] as int]);
    }
    assert(r =~= state);
}

} // verus!
