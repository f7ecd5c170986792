//! The move sequences of the edge search: a few wing swaps built on the
//! `r` layers, turned round the cube by whole-cube rotations.
use vstd::prelude::*;
use crate::cube_seq::{push_seq, seq_views, single};
use crate::moves::{
    lemma_relabel_layer, lemma_rev_layer, layer_move, rev_move, rev_move_spec, relabel_layer, rot2_r_rules, rot2_sequence_r, rot_d_rules,
    rot_f_rules, rot_r_rules, rot_sequence_d, rot_sequence_f, rot_sequence_r, turn, all_relabel_ok,
    relabelled_all, Relabel,
};
use crate::pieces::string_views;

verus! {

/// The text of the turn `(neg, side, layer)`.
pub open spec fn turn_text(t: (bool, char, nat)) -> Seq<char> {
    layer_move(t.0, t.1, t.2)
}

/// The texts of a sequence of turns.
pub open spec fn texts(s: Seq<(bool, char, nat)>) -> Seq<Seq<char>> {
    s.map_values(|t: (bool, char, nat)| turn_text(t))
}

/// The texts of a list of turn sequences.
pub open spec fn all_texts(ss: Seq<Seq<(bool, char, nat)>>) -> Seq<Seq<Seq<char>>> {
    ss.map_values(|s: Seq<(bool, char, nat)>| texts(s))
}

/// Each turn of `s` relabelled by `rules` (`relabel_layer`).
pub open spec fn rot_turns(rules: Seq<Relabel>, s: Seq<(bool, char, nat)>, dim: nat) -> Seq<(bool, char, nat)> {
    s.map_values(|t: (bool, char, nat)| relabel_layer(rules, t.0, t.1, t.2, dim))
}

/// Each sequence of `ss` relabelled by `rules`.
pub open spec fn rot_all(rules: Seq<Relabel>, ss: Seq<Seq<(bool, char, nat)>>, dim: nat) -> Seq<Seq<(bool, char, nat)>> {
    ss.map_values(|s: Seq<(bool, char, nat)>| rot_turns(rules, s, dim))
}

/// The turns that undo `s`: its turns with the sign flipped, in reverse order.
pub open spec fn inverse_turns(s: Seq<(bool, char, nat)>) -> Seq<(bool, char, nat)> {
    Seq::new(s.len(), |i: int| (!s[s.len() - 1 - i].0, s[s.len() - 1 - i].1, s[s.len() - 1 - i].2))
}

/// The long wing swap on layer `p`: `r<p>` and the opposite layer turned
/// about half turns of the top layer.
pub open spec fn wing_pattern(dim: nat, p: nat) -> Seq<(bool, char, nat)> {
    let top = (false, 'd', (dim - 1) as nat);
    let r2p = (false, 'r', p);
    let r2m = (true, 'r', p);
    let r3p = (false, 'r', (dim - 1 - p) as nat);
    let r3m = (true, 'r', (dim - 1 - p) as nat);
    seq![r2p, top, top, r3p, top, top, r3m, top, top, r2m, top, top, r3p, top, top, r3m]
}

/// The wing swaps on layer `p`: six short ones that turn `r<p>` away and
/// back about a turn of the top layer and of `r0` or the opposite outer
/// layer, then the long one undone and the long one.
pub open spec fn wing_base(dim: nat, p: nat) -> Seq<Seq<(bool, char, nat)>> {
    let t = (dim - 1) as nat;
    let a = (true, 'r', p);
    let z = (false, 'r', p);
    seq![
        seq![a, (false, 'd', t), (false, 'r', 0), (true, 'd', t), z],
        seq![a, (false, 'd', t), (false, 'r', 0), (false, 'r', 0), (true, 'd', t), z],
        seq![a, (false, 'd', t), (true, 'r', 0), (true, 'd', t), z],
        seq![a, (true, 'd', t), (false, 'r', t), (false, 'd', t), z],
        seq![a, (true, 'd', t), (false, 'r', t), (false, 'r', t), (false, 'd', t), z],
        seq![a, (true, 'd', t), (true, 'r', t), (false, 'd', t), z],
        inverse_turns(wing_pattern(dim, p)),
        wing_pattern(dim, p),
    ]
}

/// The sequences of one face: the wing swaps of layer `pos` and of the
/// opposite layer, the same turned once, twice and three times about `f`,
/// and the single turn `f0`.
pub open spec fn one_face_turns(dim: nat, pos: nat) -> Seq<Seq<(bool, char, nat)>> {
    let b0 = wing_base(dim, pos) + wing_base(dim, (dim - 1 - pos) as nat);
    let b1 = rot_all(rot_f_rules(), b0, dim);
    let b2 = rot_all(rot_f_rules(), b1, dim);
    let b3 = rot_all(rot_f_rules(), b2, dim);
    b0 + b1 + b2 + b3 + seq![seq![(false, 'f', 0nat)]]
}

/// The sequences of the edge search at layer `pos`: those of one face and
/// the same turned half about `r`, then all of these again turned a
/// quarter about `r`, and again a quarter about `d`.
pub open spec fn cube_edge_turns(dim: nat, pos: nat) -> Seq<Seq<(bool, char, nat)>> {
    let one = one_face_turns(dim, pos);
    let two = one + rot_all(rot2_r_rules(), one, dim);
    two + rot_all(rot_r_rules(), two, dim) + rot_all(rot_d_rules(), two, dim)
}

/// Every turn of `s` is of a face letter and of a layer below `dim`.
pub open spec fn seq_ok(s: Seq<(bool, char, nat)>, dim: nat) -> bool {
    forall|j: int| 0 <= j < s.len() ==> (#[trigger] s[j]).1 != '-' && s[j].2 < dim
}

/// Every sequence of `ss` is `seq_ok`.
pub open spec fn turns_ok(ss: Seq<Seq<(bool, char, nat)>>, dim: nat) -> bool {
    forall|i: int| 0 <= i < ss.len() ==> seq_ok(#[trigger] ss[i], dim)
}

/// The rules of the whole-cube rotations: no rule names `-` as a face.
pub open spec fn rules_lettered(rules: Seq<Relabel>) -> bool {
    forall|i: int| 0 <= i < rules.len() ==> #[trigger] rules[i].from != '-' && rules[i].to != '-'
}

proof fn lemma_relabel_layer_ok(rules: Seq<Relabel>, neg: bool, c: char, k: nat, dim: nat)
    requires
        rules_lettered(rules),
        c != '-',
        k < dim,
    ensures
        relabel_layer(rules, neg, c, k, dim).1 != '-',
        relabel_layer(rules, neg, c, k, dim).2 < dim,
    decreases rules.len(),
{
    if rules.len() > 0 && !(rules[0].from_neg == neg && rules[0].from == c) {
        assert forall|i: int| 0 <= i < rules.skip(1).len() implies #[trigger] rules.skip(1)[i].from != '-'
            && rules.skip(1)[i].to != '-' by {
            assert(rules.skip(1)[i] == rules[i + 1]);
            assert(rules[i + 1].from != '-' && rules[i + 1].to != '-');
        }
        lemma_relabel_layer_ok(rules.skip(1), neg, c, k, dim);
    }
}

/// Relabels every sequence of `v` by one of the whole-cube rotations:
/// `which` 0 is a quarter turn about `f`, 1 a half turn about `r`, 2 a
/// quarter turn about `r`, 3 a quarter turn about `d`.
fn rotate_all(v: &Vec<Vec<String>>, which: u8, dim: usize, Ghost(ts): Ghost<Seq<Seq<(bool, char, nat)>>>, Ghost(rules): Ghost<Seq<Relabel>>) -> (r: Vec<Vec<String>>)
    requires
        which < 4,
        rules == (if which == 0 {
            rot_f_rules()
        } else if which == 1 {
            rot2_r_rules()
        } else if which == 2 {
            rot_r_rules()
        } else {
            rot_d_rules()
        }),
        seq_views(v@) == all_texts(ts),
        turns_ok(ts, dim as nat),
    ensures
        seq_views(r@) == all_texts(rot_all(rules, ts, dim as nat)),
        turns_ok(rot_all(rules, ts, dim as nat), dim as nat),
{
    assert(rules_lettered(rules));
    let mut out: Vec<Vec<String>> = Vec::new();
    let mut i: usize = 0;
    while i < v.len()
        invariant
            which < 4,
            rules == (if which == 0 {
                rot_f_rules()
            } else if which == 1 {
                rot2_r_rules()
            } else if which == 2 {
                rot_r_rules()
            } else {
                rot_d_rules()
            }),
            rules_lettered(rules),
            seq_views(v@) == all_texts(ts),
            turns_ok(ts, dim as nat),
            i <= v.len(),
            seq_views(out@) == all_texts(rot_all(rules, ts.take(i as int), dim as nat)),
        decreases v.len() - i,
    {
        let ghost s = ts[i as int];
        assert(seq_views(v@).len() == v@.len() && all_texts(ts).len() == ts.len());
        assert(seq_views(v@)[i as int] == string_views(v@[i as int]@));
        assert(all_texts(ts)[i as int] == texts(s));
        let ghost sv = v@[i as int]@;
        assert(string_views(sv).len() == sv.len() && texts(s).len() == s.len());
        assert forall|j: int| 0 <= j < sv.len() implies {
            &&& crate::moves::relabel_ok(#[trigger] sv[j]@, rules, dim as nat)
            &&& crate::moves::relabel_by(sv[j]@, rules, dim as nat) == turn_text(relabel_layer(rules, s[j].0, s[j].1, s[j].2, dim as nat))
            &&& relabel_layer(rules, s[j].0, s[j].1, s[j].2, dim as nat).1 != '-'
            &&& relabel_layer(rules, s[j].0, s[j].1, s[j].2, dim as nat).2 < dim
        } by {
            assert(string_views(sv)[j] == sv[j]@);
            assert(texts(s)[j] == turn_text(s[j]));
            assert(seq_ok(ts[i as int], dim as nat));
            assert(s[j].1 != '-' && s[j].2 < dim);
            lemma_relabel_layer(rules, s[j].0, s[j].1, s[j].2, dim as nat);
            lemma_relabel_layer_ok(rules, s[j].0, s[j].1, s[j].2, dim as nat);
        }
        assert(all_relabel_ok(sv, rules, dim as nat));
        let rotated = if which == 0 {
            rot_sequence_f(&v[i], dim)
        } else if which == 1 {
            rot2_sequence_r(&v[i], dim)
        } else if which == 2 {
            rot_sequence_r(&v[i], dim)
        } else {
            rot_sequence_d(&v[i], dim)
        };
        assert(relabelled_all(rotated@, sv, rules, dim as nat));
        assert(string_views(rotated@) =~= texts(rot_turns(rules, s, dim as nat)));
        let ghost before = seq_views(out@);
        push_seq(&mut out, rotated);
        proof {
            let tk = ts.take(i + 1);
            assert(tk =~= ts.take(i as int).push(s));
            assert(rot_all(rules, tk, dim as nat) =~= rot_all(rules, ts.take(i as int), dim as nat).push(rot_turns(rules, s, dim as nat)));
            assert(seq_views(out@) =~= all_texts(rot_all(rules, tk, dim as nat)));
        }
        i = i + 1;
    }
    proof {
        assert(ts.take(v.len() as int) =~= ts) by {
            assert(all_texts(ts).len() == ts.len());
        }
        let rt = rot_all(rules, ts, dim as nat);
        assert forall|a: int| 0 <= a < rt.len() implies seq_ok(#[trigger] rt[a], dim as nat) by {
            assert(seq_ok(ts[a], dim as nat));
            assert forall|b: int| 0 <= b < rt[a].len() implies (#[trigger] rt[a][b]).1 != '-' && rt[a][b].2 < dim by {
                let t = ts[a][b];
                assert(t.1 != '-' && t.2 < dim);
                assert(rt[a][b] == relabel_layer(rules, t.0, t.1, t.2, dim as nat));
                lemma_relabel_layer_ok(rules, t.0, t.1, t.2, dim as nat);
            }
        }
    }
    out
}


/// Appends the turn `(neg, side, k)` to a sequence whose turns are `ts`.
fn add_turn(v: &mut Vec<String>, Ghost(ts): Ghost<Seq<(bool, char, nat)>>, neg: bool, side: char, k: usize, dim: usize)
    requires
        string_views(old(v)@) == texts(ts),
        seq_ok(ts, dim as nat),
        side != '-',
        k < dim,
    ensures
        string_views(final(v)@) == texts(ts.push((neg, side, k as nat))),
        seq_ok(ts.push((neg, side, k as nat)), dim as nat),
{
    let t = turn(neg, side, k);
    let ghost before = v@;
    v.push(t);
    assert(string_views(v@) =~= string_views(before).push(t@));
    assert(texts(ts.push((neg, side, k as nat))) =~= texts(ts).push(layer_move(neg, side, k as nat)));
    let ghost tp = ts.push((neg, side, k as nat));
    assert forall|j: int| 0 <= j < tp.len() implies (#[trigger] tp[j]).1 != '-' && tp[j].2 < dim by {
        if j < ts.len() {
            assert(tp[j] == ts[j]);
        }
    }
}

/// The short wing swap `-r<p>, d1, m, d2, r<p>` with one or two middle turns.
fn short_swap(dim: usize, p: usize, d_neg: bool, m_neg: bool, m: usize, twice: bool) -> (r: Vec<String>)
    requires
        p < dim,
        m < dim,
    ensures
        string_views(r@) == texts(
            if twice {
                seq![(true, 'r', p as nat), (d_neg, 'd', (dim - 1) as nat), (m_neg, 'r', m as nat), (m_neg, 'r', m as nat), (!d_neg, 'd', (dim - 1) as nat), (false, 'r', p as nat)]
            } else {
                seq![(true, 'r', p as nat), (d_neg, 'd', (dim - 1) as nat), (m_neg, 'r', m as nat), (!d_neg, 'd', (dim - 1) as nat), (false, 'r', p as nat)]
            },
        ),
        seq_ok(
            if twice {
                seq![(true, 'r', p as nat), (d_neg, 'd', (dim - 1) as nat), (m_neg, 'r', m as nat), (m_neg, 'r', m as nat), (!d_neg, 'd', (dim - 1) as nat), (false, 'r', p as nat)]
            } else {
                seq![(true, 'r', p as nat), (d_neg, 'd', (dim - 1) as nat), (m_neg, 'r', m as nat), (!d_neg, 'd', (dim - 1) as nat), (false, 'r', p as nat)]
            },
            dim as nat,
        ),
{
    let top = dim - 1;
    let mut v: Vec<String> = Vec::new();
    let ghost t0: Seq<(bool, char, nat)> = Seq::empty();
    assert(string_views(v@) =~= texts(t0));
    add_turn(&mut v, Ghost(t0), true, 'r', p, dim);
    let ghost t1 = t0.push((true, 'r', p as nat));
    add_turn(&mut v, Ghost(t1), d_neg, 'd', top, dim);
    let ghost t2 = t1.push((d_neg, 'd', top as nat));
    add_turn(&mut v, Ghost(t2), m_neg, 'r', m, dim);
    let ghost t3 = t2.push((m_neg, 'r', m as nat));
    let ghost mut t4 = t3;
    if twice {
        add_turn(&mut v, Ghost(t3), m_neg, 'r', m, dim);
        proof {
            t4 = t3.push((m_neg, 'r', m as nat));
        }
    }
    add_turn(&mut v, Ghost(t4), !d_neg, 'd', top, dim);
    let ghost t5 = t4.push((!d_neg, 'd', top as nat));
    add_turn(&mut v, Ghost(t5), false, 'r', p, dim);
    let ghost t6 = t5.push((false, 'r', p as nat));
    if twice {
        assert(t6 =~= seq![(true, 'r', p as nat), (d_neg, 'd', (dim - 1) as nat), (m_neg, 'r', m as nat), (m_neg, 'r', m as nat), (!d_neg, 'd', (dim - 1) as nat), (false, 'r', p as nat)]);
    } else {
        assert(t6 =~= seq![(true, 'r', p as nat), (d_neg, 'd', (dim - 1) as nat), (m_neg, 'r', m as nat), (!d_neg, 'd', (dim - 1) as nat), (false, 'r', p as nat)]);
    }
    v
}

/// The long wing swap on layer `p` (`wing_pattern`).
fn long_swap(dim: usize, p: usize) -> (r: Vec<String>)
    requires
        p < dim,
    ensures
        string_views(r@) == texts(wing_pattern(dim as nat, p as nat)),
        seq_ok(wing_pattern(dim as nat, p as nat), dim as nat),
{
    let top = dim - 1;
    let q = dim - 1 - p;
    let mut v: Vec<String> = Vec::new();
    let ghost mut ts: Seq<(bool, char, nat)> = Seq::empty();
    assert(string_views(v@) =~= texts(ts));
    let mut k: usize = 0;
    while k < 16
        invariant
            k <= 16,
            top == dim - 1,
            q == dim - 1 - p,
            p < dim,
            ts == wing_pattern(dim as nat, p as nat).take(k as int),
            string_views(v@) == texts(ts),
            seq_ok(ts, dim as nat),
        decreases 16 - k,
    {
        let ghost w = wing_pattern(dim as nat, p as nat);
        let (neg, side, layer) = if k % 3 != 0 {
            (false, 'd', top)
        } else if k == 0 {
            (false, 'r', p)
        } else if k == 3 || k == 12 {
            (false, 'r', q)
        } else if k == 9 {
            (true, 'r', p)
        } else {
            (true, 'r', q)
        };
        assert(w[k as int] == (neg, side, layer as nat));
        add_turn(&mut v, Ghost(ts), neg, side, layer, dim);
        proof {
            assert(w.take(k + 1) =~= ts.push((neg, side, layer as nat)));
            ts = w.take(k + 1);
        }
        k = k + 1;
    }
    assert(wing_pattern(dim as nat, p as nat).take(16) =~= wing_pattern(dim as nat, p as nat));
    v
}

/// The long wing swap undone: its turns inverted, in reverse order.
fn long_swap_undone(pattern: &Vec<String>, Ghost(ts): Ghost<Seq<(bool, char, nat)>>, dim: usize) -> (r: Vec<String>)
    requires
        string_views(pattern@) == texts(ts),
        seq_ok(ts, dim as nat),
    ensures
        string_views(r@) == texts(inverse_turns(ts)),
        seq_ok(inverse_turns(ts), dim as nat),
{
    let n = pattern.len();
    assert(string_views(pattern@).len() == n && texts(ts).len() == ts.len());
    let mut v: Vec<String> = Vec::new();
    let mut i: usize = 0;
    while i < n
        invariant
            n == pattern.len() == ts.len(),
            string_views(pattern@) == texts(ts),
            seq_ok(ts, dim as nat),
            i <= n,
            string_views(v@) == texts(inverse_turns(ts).take(i as int)),
        decreases n - i,
    {
        let ghost t = ts[n - 1 - i];
        assert(t.1 != '-');
        assert(string_views(pattern@)[n - 1 - i] == pattern@[n - 1 - i]@);
        assert(texts(ts)[n - 1 - i] == turn_text(t));
        let m = rev_move(&pattern[n - 1 - i]);
        proof {
            lemma_rev_layer(t.0, t.1, t.2);
        }
        let ghost before = v@;
        v.push(m);
        assert(string_views(v@) =~= string_views(before).push(m@));
        assert(inverse_turns(ts).take(i + 1) =~= inverse_turns(ts).take(i as int).push((!t.0, t.1, t.2)));
        assert(texts(inverse_turns(ts).take(i + 1)) =~= texts(inverse_turns(ts).take(i as int)).push(layer_move(!t.0, t.1, t.2)));
        i = i + 1;
    }
    assert(inverse_turns(ts).take(n as int) =~= inverse_turns(ts));
    let ghost inv = inverse_turns(ts);
    assert forall|j: int| 0 <= j < inv.len() implies (#[trigger] inv[j]).1 != '-' && inv[j].2 < dim by {
        assert(ts[ts.len() - 1 - j].1 != '-' && ts[ts.len() - 1 - j].2 < dim);
    }
    v
}

/// Appends the wing swaps of layer `p` (`wing_base`).
fn wing_base_into(res: &mut Vec<Vec<String>>, dim: usize, p: usize, Ghost(ts): Ghost<Seq<Seq<(bool, char, nat)>>>)
    requires
        p < dim,
        seq_views(old(res)@) == all_texts(ts),
        turns_ok(ts, dim as nat),
    ensures
        seq_views(final(res)@) == all_texts(ts + wing_base(dim as nat, p as nat)),
        turns_ok(ts + wing_base(dim as nat, p as nat), dim as nat),
{
    let top = dim - 1;
    let ghost mut acc = ts;
    let parts: Vec<Vec<String>> = vec![
        short_swap(dim, p, false, false, 0, false),
        short_swap(dim, p, false, false, 0, true),
        short_swap(dim, p, false, true, 0, false),
        short_swap(dim, p, true, false, top, false),
        short_swap(dim, p, true, false, top, true),
        short_swap(dim, p, true, true, top, false),
    ];
    let ghost wb = wing_base(dim as nat, p as nat);
    assert forall|k: int| 0 <= k < 6 implies string_views(#[trigger] parts@[k]@) == texts(wb[k]) && seq_ok(wb[k], dim as nat) by {
    }
    let mut k: usize = 0;
    while k < 6
        invariant
            k <= 6,
            parts.len() == 6,
            wb == wing_base(dim as nat, p as nat),
            forall|j: int| 0 <= j < 6 ==> string_views(#[trigger] parts@[j]@) == texts(wb[j]) && seq_ok(wb[j], dim as nat),
            seq_views(res@) == all_texts(ts + wb.take(k as int)),
            turns_ok(ts + wb.take(k as int), dim as nat),
        decreases 6 - k,
    {
        let ghost before = ts + wb.take(k as int);
        push_seq(res, parts[k].clone());
        proof {
            assert(ts + wb.take(k + 1) =~= before.push(wb[k as int]));
            assert(all_texts(ts + wb.take(k + 1)) =~= all_texts(before).push(texts(wb[k as int])));
            let nb = ts + wb.take(k + 1);
            assert forall|i: int| 0 <= i < nb.len() implies seq_ok(#[trigger] nb[i], dim as nat) by {
                if i < before.len() {
                    assert(nb[i] == before[i]);
                }
            }
        }
        k = k + 1;
    }
    let pattern = long_swap(dim, p);
    let undone = long_swap_undone(&pattern, Ghost(wing_pattern(dim as nat, p as nat)), dim);
    let ghost b6 = ts + wb.take(6);
    push_seq(res, undone);
    push_seq(res, pattern);
    proof {
        assert(wb.take(6).push(wb[6]).push(wb[7]) =~= wb);
        assert(ts + wb =~= b6.push(wb[6]).push(wb[7]));
        assert(all_texts(ts + wb) =~= all_texts(b6).push(texts(wb[6])).push(texts(wb[7])));
        let nb = ts + wb;
        assert forall|i: int| 0 <= i < nb.len() implies seq_ok(#[trigger] nb[i], dim as nat) by {
            if i < b6.len() {
                assert(nb[i] == b6[i]);
            }
        }
    }
}


proof fn lemma_join(x: Seq<Seq<(bool, char, nat)>>, y: Seq<Seq<(bool, char, nat)>>, dim: nat)
    requires
        turns_ok(x, dim),
        turns_ok(y, dim),
    ensures
        turns_ok(x + y, dim),
        all_texts(x + y) == all_texts(x) + all_texts(y),
{
    let z = x + y;
    assert forall|i: int| 0 <= i < z.len() implies seq_ok(#[trigger] z[i], dim) by {
        if i < x.len() {
            assert(z[i] == x[i]);
        } else {
            assert(z[i] == y[i - x.len()]);
        }
    }
    assert(all_texts(x + y) =~= all_texts(x) + all_texts(y));
}

fn join(a: &mut Vec<Vec<String>>, b: Vec<Vec<String>>)
    ensures
        seq_views(final(a)@) == seq_views(old(a)@) + seq_views(b@),
{
    let mut b = b;
    let ghost sa = seq_views(a@);
    let ghost sb = seq_views(b@);
    a.append(&mut b);
    assert(seq_views(a@) =~= sa + sb);
}

/// The move sequences of the edge search at layer `pos`
/// (`cube_edge_turns`).
pub fn sequence_moves_for_cube_edge(dim: usize, pos: usize) -> (r: Vec<Vec<String>>)
    requires
        pos < dim,
    ensures
        seq_views(r@) == all_texts(cube_edge_turns(dim as nat, pos as nat)),
{
    let ghost d = dim as nat;
    let ghost e: Seq<Seq<(bool, char, nat)>> = Seq::empty();
    let mut base: Vec<Vec<String>> = Vec::new();
    assert(seq_views(base@) =~= all_texts(e));
    wing_base_into(&mut base, dim, pos, Ghost(e));
    wing_base_into(&mut base, dim, dim - 1 - pos, Ghost(e + wing_base(d, pos as nat)));
    let ghost b0 = wing_base(d, pos as nat) + wing_base(d, (d - 1 - pos) as nat);
    assert(e + wing_base(d, pos as nat) + wing_base(d, (dim - 1 - pos) as nat) =~= b0);
    let ghost b1 = rot_all(rot_f_rules(), b0, d);
    let ghost b2 = rot_all(rot_f_rules(), b1, d);
    let ghost b3 = rot_all(rot_f_rules(), b2, d);
    let v1 = rotate_all(&base, 0, dim, Ghost(b0), Ghost(rot_f_rules()));
    let v2 = rotate_all(&v1, 0, dim, Ghost(b1), Ghost(rot_f_rules()));
    let v3 = rotate_all(&v2, 0, dim, Ghost(b2), Ghost(rot_f_rules()));
    let mut one_face = base;
    join(&mut one_face, v1);
    join(&mut one_face, v2);
    join(&mut one_face, v3);
    let ghost f0: Seq<Seq<(bool, char, nat)>> = seq![seq![(false, 'f', 0nat)]];
    let f0_move = turn(false, 'f', 0);
    push_seq(&mut one_face, single(&f0_move));
    let ghost one = one_face_turns(d, pos as nat);
    proof {
        lemma_join(b0, b1, d);
        lemma_join(b0 + b1, b2, d);
        lemma_join(b0 + b1 + b2, b3, d);
        assert(seq_ok(seq![(false, 'f', 0nat)], d));
        assert(turns_ok(f0, d));
        lemma_join(b0 + b1 + b2 + b3, f0, d);
        assert(all_texts(f0) =~= seq![texts(seq![(false, 'f', 0nat)])]);
        assert(texts(seq![(false, 'f', 0nat)]) =~= seq![f0_move@]);
        assert(seq_views(one_face@) =~= all_texts(one));
    }
    let ghost h = rot_all(rot2_r_rules(), one, d);
    let half = rotate_all(&one_face, 1, dim, Ghost(one), Ghost(rot2_r_rules()));
    let mut two = one_face;
    join(&mut two, half);
    let ghost tw = one + h;
    proof {
        lemma_join(one, h, d);
    }
    let ghost qr = rot_all(rot_r_rules(), tw, d);
    let ghost qd = rot_all(rot_d_rules(), tw, d);
    let quarter_r = rotate_all(&two, 2, dim, Ghost(tw), Ghost(rot_r_rules()));
    let quarter_d = rotate_all(&two, 3, dim, Ghost(tw), Ghost(rot_d_rules()));
    let mut res = two;
    join(&mut res, quarter_r);
    join(&mut res, quarter_d);
    proof {
        lemma_join(tw, qr, d);
        lemma_join(tw + qr, qd, d);
    }
    res
}

} // verus!
