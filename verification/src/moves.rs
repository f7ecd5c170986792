//! Move texts such as `r0`, `-d3`, `f12`: an optional `-` (counter-clockwise),
//! a face letter, and a layer index.
use vstd::prelude::*;
use crate::text::{chars_of, decimal, decimal_chars, extend_chars, parse_usize_from, parses_as_usize, string_of, usize_value};

verus! {

/// The move `side<i>`, or `-side<i>` when `neg`.
pub open spec fn layer_move(neg: bool, side: char, i: nat) -> Seq<char> {
    if neg {
        seq!['-', side] + decimal(i)
    } else {
        seq![side] + decimal(i)
    }
}

/// The move text `side<i>`, or `-side<i>` when `neg`, as characters.
pub fn turn_chars(neg: bool, side: char, i: usize) -> (r: Vec<char>)
    ensures
        r@ == layer_move(neg, side, i as nat),
{
    let mut r: Vec<char> = Vec::new();
    if neg {
        r.push('-');
    }
    r.push(side);
    let d = decimal_chars(i);
    extend_chars(&mut r, &d);
    assert(r@ =~= layer_move(neg, side, i as nat));
    r
}

/// The move text `side<i>`, or `-side<i>` when `neg`.
pub fn turn(neg: bool, side: char, i: usize) -> (r: String)
    ensures
        r@ == layer_move(neg, side, i as nat),
{
    string_of(&turn_chars(neg, side, i))
}

/// The move that undoes `s`: drops a leading `-`, or adds one.
pub open spec fn rev_move_spec(s: Seq<char>) -> Seq<char> {
    if s.len() > 0 && s[0] == '-' {
        s.skip(1)
    } else {
        seq!['-'] + s
    }
}

/// Inverting a move twice gives it back, unless it begins with two `-`.
pub proof fn lemma_rev_move_twice(s: Seq<char>)
    requires
        !(s.len() >= 2 && s[0] == '-' && s[1] == '-'),
    ensures
        rev_move_spec(rev_move_spec(s)) == s,
{
    if s.len() > 0 && s[0] == '-' {
        let t = s.skip(1);
        assert(seq!['-'] + t =~= s);
    } else {
        assert((seq!['-'] + s).skip(1) =~= s);
    }
}

/// Inverse of a move text (`r3` becomes `-r3`, `-r3` becomes `r3`).
pub fn rev_move(s: &String) -> (r: String)
    ensures
        r@ == rev_move_spec(s@),
{
    let v = chars_of(s.as_str());
    let mut out: Vec<char> = Vec::new();
    if v.len() > 0 && v[0] == '-' {
        let mut i: usize = 1;
        while i < v.len()
            invariant
                1 <= i <= v.len(),
                out@ == v@.subrange(1, i as int),
            decreases v.len() - i,
        {
            out.push(v[i]);
            assert(v@.subrange(1, i + 1) =~= v@.subrange(1, i as int).push(v@[i as int]));
            i = i + 1;
        }
        assert(v@.subrange(1, v.len() as int) =~= v@.skip(1));
    } else {
        out.push('-');
        extend_chars(&mut out, &v);
        assert(out@ =~= seq!['-'] + v@);
    }
    string_of(&out)
}

/// Rule of a whole-cube rotation for the moves of one face direction: moves
/// `[-]from<k>` become `[-]to<k>`, or `[-]to<dim - 1 - k>` when the layer order
/// is mirrored.
pub struct Relabel {
    pub from_neg: bool,
    pub from: char,
    pub to_neg: bool,
    pub to: char,
    pub mirror: bool,
}

/// `s` starts with `c`, or with `-c` when `neg`.
pub open spec fn has_face(s: Seq<char>, neg: bool, c: char) -> bool {
    if neg {
        s.len() >= 2 && s[0] == '-' && s[1] == c
    } else {
        s.len() >= 1 && s[0] == c
    }
}

/// What follows the face prefix.
pub open spec fn face_tail(s: Seq<char>, neg: bool) -> Seq<char> {
    if neg {
        s.skip(2)
    } else {
        s.skip(1)
    }
}

/// `c` (or `-c` when `neg`) followed by `rest`.
pub open spec fn face_text(neg: bool, c: char, rest: Seq<char>) -> Seq<char> {
    if neg {
        seq!['-', c] + rest
    } else {
        seq![c] + rest
    }
}

/// `s` rewritten by the rule `r`.
pub open spec fn relabel_one(s: Seq<char>, r: Relabel, dim: nat) -> Seq<char> {
    let tail = face_tail(s, r.from_neg);
    face_text(
        r.to_neg,
        r.to,
        if r.mirror {
            decimal((dim - 1 - usize_value(tail)) as nat)
        } else {
            tail
        },
    )
}

/// `s` rewritten by the first rule whose prefix it has; unchanged when none applies.
pub open spec fn relabel_by(s: Seq<char>, rules: Seq<Relabel>, dim: nat) -> Seq<char>
    decreases rules.len(),
{
    if rules.len() == 0 {
        s
    } else if has_face(s, rules[0].from_neg, rules[0].from) {
        relabel_one(s, rules[0], dim)
    } else {
        relabel_by(s, rules.skip(1), dim)
    }
}

/// The rule that applies to `s` can be carried out: a mirrored layer index
/// must be a number no greater than `dim - 1`.
pub open spec fn relabel_ok(s: Seq<char>, rules: Seq<Relabel>, dim: nat) -> bool
    decreases rules.len(),
{
    if rules.len() == 0 {
        true
    } else if has_face(s, rules[0].from_neg, rules[0].from) {
        rules[0].mirror ==> {
            let tail = face_tail(s, rules[0].from_neg);
            dim >= 1 && parses_as_usize(tail) && usize_value(tail) <= dim - 1
        }
    } else {
        relabel_ok(s, rules.skip(1), dim)
    }
}

fn relabel_chars(v: &Vec<char>, rules: &Vec<Relabel>, dim: usize) -> (r: Vec<char>)
    requires
        relabel_ok(v@, rules@, dim as nat),
    ensures
        r@ == relabel_by(v@, rules@, dim as nat),
{
    let mut k: usize = 0;
    assert(rules@.skip(0) =~= rules@);
    while k < rules.len()
        invariant
            k <= rules.len(),
            relabel_by(v@, rules@, dim as nat) == relabel_by(v@, rules@.skip(k as int), dim as nat),
            relabel_ok(v@, rules@.skip(k as int), dim as nat),
        decreases rules.len() - k,
    {
        let rule = &rules[k];
        assert(rules@.skip(k as int)[0] == rules@[k as int]);
        let hit = if rule.from_neg {
            v.len() >= 2 && v[0] == '-' && v[1] == rule.from
        } else {
            v.len() >= 1 && v[0] == rule.from
        };
        if hit {
            let start: usize = if rule.from_neg { 2 } else { 1 };
            let mut out: Vec<char> = Vec::new();
            if rule.to_neg {
                out.push('-');
            }
            out.push(rule.to);
            let ghost prefix = out@;
            let ghost tail = v@.skip(start as int);
            if rule.mirror {
                let idx = parse_usize_from(v, start);
                let digits = decimal_chars(dim - 1 - idx);
                extend_chars(&mut out, &digits);
            } else {
                let mut i = start;
                while i < v.len()
                    invariant
                        start <= i <= v.len(),
                        out@ == prefix + v@.subrange(start as int, i as int),
                    decreases v.len() - i,
                {
                    out.push(v[i]);
                    assert(v@.subrange(start as int, i + 1) =~= v@.subrange(start as int, i as int).push(v@[i as int]));
                    i = i + 1;
                }
                assert(v@.subrange(start as int, v.len() as int) =~= tail);
            }
            assert(out@ =~= relabel_one(v@, rules@[k as int], dim as nat));
            return out;
        }
        assert(rules@.skip(k as int).skip(1) =~= rules@.skip(k + 1));
        k = k + 1;
    }
    assert(rules@.skip(k as int) =~= Seq::<Relabel>::empty());
    v.clone()
}

} // verus!

verus! {

/// Rules of a quarter turn of the whole cube about the `f` axis.
pub open spec fn rot_f_rules() -> Seq<Relabel> {
    seq![
        Relabel { from_neg: false, from: 'r', to_neg: false, to: 'd', mirror: false },
        Relabel { from_neg: true, from: 'r', to_neg: true, to: 'd', mirror: false },
        Relabel { from_neg: false, from: 'd', to_neg: true, to: 'r', mirror: true },
        Relabel { from_neg: true, from: 'd', to_neg: false, to: 'r', mirror: true },
    ]
}

/// Rules that mirror and invert the `r` and `f` moves and keep the `d`
/// moves: a half turn of the whole cube about the `d` axis, which the
/// relabellings named after the `f` axis use as well.
pub open spec fn rot2_f_rules() -> Seq<Relabel> {
    seq![
        Relabel { from_neg: false, from: 'r', to_neg: true, to: 'r', mirror: true },
        Relabel { from_neg: true, from: 'r', to_neg: false, to: 'r', mirror: true },
        Relabel { from_neg: false, from: 'f', to_neg: true, to: 'f', mirror: true },
        Relabel { from_neg: true, from: 'f', to_neg: false, to: 'f', mirror: true },
    ]
}

/// Rules of a quarter turn of the whole cube about the `d` axis.
pub open spec fn rot_d_rules() -> Seq<Relabel> {
    seq![
        Relabel { from_neg: false, from: 'r', to_neg: false, to: 'f', mirror: false },
        Relabel { from_neg: true, from: 'r', to_neg: true, to: 'f', mirror: false },
        Relabel { from_neg: false, from: 'f', to_neg: true, to: 'r', mirror: true },
        Relabel { from_neg: true, from: 'f', to_neg: false, to: 'r', mirror: true },
    ]
}

/// Rules of a quarter turn of the whole cube about the `r` axis.
pub open spec fn rot_r_rules() -> Seq<Relabel> {
    seq![
        Relabel { from_neg: false, from: 'f', to_neg: false, to: 'd', mirror: false },
        Relabel { from_neg: true, from: 'f', to_neg: true, to: 'd', mirror: false },
        Relabel { from_neg: false, from: 'd', to_neg: true, to: 'f', mirror: true },
        Relabel { from_neg: true, from: 'd', to_neg: false, to: 'f', mirror: true },
    ]
}

/// Rules of a half turn of the whole cube about the `r` axis.
pub open spec fn rot2_r_rules() -> Seq<Relabel> {
    seq![
        Relabel { from_neg: false, from: 'f', to_neg: true, to: 'f', mirror: true },
        Relabel { from_neg: true, from: 'f', to_neg: false, to: 'f', mirror: true },
        Relabel { from_neg: false, from: 'd', to_neg: true, to: 'd', mirror: true },
        Relabel { from_neg: true, from: 'd', to_neg: false, to: 'd', mirror: true },
    ]
}

fn rule(from_neg: bool, from: char, to_neg: bool, to: char, mirror: bool) -> (r: Relabel)
    ensures
        r == (Relabel { from_neg, from, to_neg, to, mirror }),
{
    Relabel { from_neg, from, to_neg, to, mirror }
}

fn four_rules(a: Relabel, b: Relabel, c: Relabel, d: Relabel) -> (v: Vec<Relabel>)
    ensures
        v@ == seq![a, b, c, d],
{
    let mut v: Vec<Relabel> = Vec::new();
    v.push(a);
    v.push(b);
    v.push(c);
    v.push(d);
    assert(v@ =~= seq![a, b, c, d]);
    v
}

fn rot_f_rule_vec() -> (v: Vec<Relabel>)
    ensures
        v@ == rot_f_rules(),
{
    four_rules(
        rule(false, 'r', false, 'd', false),
        rule(true, 'r', true, 'd', false),
        rule(false, 'd', true, 'r', true),
        rule(true, 'd', false, 'r', true),
    )
}

fn rot2_f_rule_vec() -> (v: Vec<Relabel>)
    ensures
        v@ == rot2_f_rules(),
{
    four_rules(
        rule(false, 'r', true, 'r', true),
        rule(true, 'r', false, 'r', true),
        rule(false, 'f', true, 'f', true),
        rule(true, 'f', false, 'f', true),
    )
}

fn rot_d_rule_vec() -> (v: Vec<Relabel>)
    ensures
        v@ == rot_d_rules(),
{
    four_rules(
        rule(false, 'r', false, 'f', false),
        rule(true, 'r', true, 'f', false),
        rule(false, 'f', true, 'r', true),
        rule(true, 'f', false, 'r', true),
    )
}

fn rot_r_rule_vec() -> (v: Vec<Relabel>)
    ensures
        v@ == rot_r_rules(),
{
    four_rules(
        rule(false, 'f', false, 'd', false),
        rule(true, 'f', true, 'd', false),
        rule(false, 'd', true, 'f', true),
        rule(true, 'd', false, 'f', true),
    )
}

fn rot2_r_rule_vec() -> (v: Vec<Relabel>)
    ensures
        v@ == rot2_r_rules(),
{
    four_rules(
        rule(false, 'f', true, 'f', true),
        rule(true, 'f', false, 'f', true),
        rule(false, 'd', true, 'd', true),
        rule(true, 'd', false, 'd', true),
    )
}

fn relabel_string(s: &String, rules: &Vec<Relabel>, dim: usize) -> (r: String)
    requires
        relabel_ok(s@, rules@, dim as nat),
    ensures
        r@ == relabel_by(s@, rules@, dim as nat),
{
    let v = chars_of(s.as_str());
    string_of(&relabel_chars(&v, rules, dim))
}

/// A move as seen after a quarter turn of the whole cube about the `f` axis.
pub fn rot_move_f(s: &String, dim: usize) -> (r: String)
    requires
        relabel_ok(s@, rot_f_rules(), dim as nat),
    ensures
        r@ == relabel_by(s@, rot_f_rules(), dim as nat),
{
    relabel_string(s, &rot_f_rule_vec(), dim)
}

/// A move relabelled by the half-turn rules `rot2_f_rules`: `r` and `f`
/// moves become their mirrored inverses, `d` moves stay (the same
/// relabelling as `rot2_move_d`).
pub fn rot2_move_f(s: &String, dim: usize) -> (r: String)
    requires
        relabel_ok(s@, rot2_f_rules(), dim as nat),
    ensures
        r@ == relabel_by(s@, rot2_f_rules(), dim as nat),
{
    relabel_string(s, &rot2_f_rule_vec(), dim)
}

/// A move as seen after a quarter turn of the whole cube about the `d` axis.
pub fn rot_move_d(s: &String, dim: usize) -> (r: String)
    requires
        relabel_ok(s@, rot_d_rules(), dim as nat),
    ensures
        r@ == relabel_by(s@, rot_d_rules(), dim as nat),
{
    relabel_string(s, &rot_d_rule_vec(), dim)
}

/// A move as seen after a half turn of the whole cube about the `d` axis
/// (the same relabelling as for the `f` axis).
pub fn rot2_move_d(s: &String, dim: usize) -> (r: String)
    requires
        relabel_ok(s@, rot2_f_rules(), dim as nat),
    ensures
        r@ == relabel_by(s@, rot2_f_rules(), dim as nat),
{
    relabel_string(s, &rot2_f_rule_vec(), dim)
}

/// A move as seen after a quarter turn of the whole cube about the `r` axis.
pub fn rot_move_r(s: &String, dim: usize) -> (r: String)
    requires
        relabel_ok(s@, rot_r_rules(), dim as nat),
    ensures
        r@ == relabel_by(s@, rot_r_rules(), dim as nat),
{
    relabel_string(s, &rot_r_rule_vec(), dim)
}

/// A move as seen after a half turn of the whole cube about the `r` axis.
pub fn rot2_move_r(s: &String, dim: usize) -> (r: String)
    requires
        relabel_ok(s@, rot2_r_rules(), dim as nat),
    ensures
        r@ == relabel_by(s@, rot2_r_rules(), dim as nat),
{
    relabel_string(s, &rot2_r_rule_vec(), dim)
}

/// Every move of `seq` can be relabelled by `rules`.
pub open spec fn all_relabel_ok(seq: Seq<String>, rules: Seq<Relabel>, dim: nat) -> bool {
    forall|i: int| 0 <= i < seq.len() ==> relabel_ok(#[trigger] seq[i]@, rules, dim)
}

/// `out` is `seq` with each move relabelled by `rules`.
pub open spec fn relabelled_all(
    out: Seq<String>,
    seq: Seq<String>,
    rules: Seq<Relabel>,
    dim: nat,
) -> bool {
    &&& out.len() == seq.len()
    &&& forall|i: int| 0 <= i < seq.len() ==> #[trigger] out[i]@ == relabel_by(seq[i]@, rules, dim)
}

fn relabel_sequence(seq: &Vec<String>, rules: &Vec<Relabel>, dim: usize) -> (r: Vec<String>)
    requires
        all_relabel_ok(seq@, rules@, dim as nat),
    ensures
        relabelled_all(r@, seq@, rules@, dim as nat),
{
    let mut out: Vec<String> = Vec::new();
    let mut i: usize = 0;
    while i < seq.len()
        invariant
            i <= seq.len(),
            all_relabel_ok(seq@, rules@, dim as nat),
            relabelled_all(out@, seq@.take(i as int), rules@, dim as nat),
        decreases seq.len() - i,
    {
        assert(relabel_ok(seq@[i as int]@, rules@, dim as nat));
        out.push(relabel_string(&seq[i], rules, dim));
        i = i + 1;
    }
    assert(seq@.take(seq.len() as int) =~= seq@);
    out
}

/// `rot_move_f` applied to every move of a sequence.
pub fn rot_sequence_f(seq: &Vec<String>, dim: usize) -> (r: Vec<String>)
    requires
        all_relabel_ok(seq@, rot_f_rules(), dim as nat),
    ensures
        relabelled_all(r@, seq@, rot_f_rules(), dim as nat),
{
    relabel_sequence(seq, &rot_f_rule_vec(), dim)
}

/// `rot2_move_f` applied to every move of a sequence.
pub fn rot2_sequence_f(seq: &Vec<String>, dim: usize) -> (r: Vec<String>)
    requires
        all_relabel_ok(seq@, rot2_f_rules(), dim as nat),
    ensures
        relabelled_all(r@, seq@, rot2_f_rules(), dim as nat),
{
    relabel_sequence(seq, &rot2_f_rule_vec(), dim)
}

/// `rot_move_d` applied to every move of a sequence.
pub fn rot_sequence_d(seq: &Vec<String>, dim: usize) -> (r: Vec<String>)
    requires
        all_relabel_ok(seq@, rot_d_rules(), dim as nat),
    ensures
        relabelled_all(r@, seq@, rot_d_rules(), dim as nat),
{
    relabel_sequence(seq, &rot_d_rule_vec(), dim)
}

/// `rot2_move_d` applied to every move of a sequence.
pub fn rot2_sequence_d(seq: &Vec<String>, dim: usize) -> (r: Vec<String>)
    requires
        all_relabel_ok(seq@, rot2_f_rules(), dim as nat),
    ensures
        relabelled_all(r@, seq@, rot2_f_rules(), dim as nat),
{
    relabel_sequence(seq, &rot2_f_rule_vec(), dim)
}

/// `rot_move_r` applied to every move of a sequence.
pub fn rot_sequence_r(seq: &Vec<String>, dim: usize) -> (r: Vec<String>)
    requires
        all_relabel_ok(seq@, rot_r_rules(), dim as nat),
    ensures
        relabelled_all(r@, seq@, rot_r_rules(), dim as nat),
{
    relabel_sequence(seq, &rot_r_rule_vec(), dim)
}

/// `rot2_move_r` applied to every move of a sequence.
pub fn rot2_sequence_r(seq: &Vec<String>, dim: usize) -> (r: Vec<String>)
    requires
        all_relabel_ok(seq@, rot2_r_rules(), dim as nat),
    ensures
        relabelled_all(r@, seq@, rot2_r_rules(), dim as nat),
{
    relabel_sequence(seq, &rot2_r_rule_vec(), dim)
}

/// Where the rules send the layer move `[-]c<k>`: the sign, face and layer
/// of the first rule that applies, the move itself when none does.
pub open spec fn relabel_layer(rules: Seq<Relabel>, neg: bool, c: char, k: nat, dim: nat) -> (bool, char, nat)
    decreases rules.len(),
{
    if rules.len() == 0 {
        (neg, c, k)
    } else if rules[0].from_neg == neg && rules[0].from == c {
        (rules[0].to_neg, rules[0].to, if rules[0].mirror { (dim - 1 - k) as nat } else { k })
    } else {
        relabel_layer(rules.skip(1), neg, c, k, dim)
    }
}

/// A face letter of the cube's moves.
pub open spec fn move_face(c: char) -> bool {
    c == 'r' || c == 'd' || c == 'f'
}

/// Relabelling a layer move `[-]c<k>` with `k < dim` gives the layer move
/// that `relabel_layer` names, and can always be carried out.
pub proof fn lemma_relabel_layer(rules: Seq<Relabel>, neg: bool, c: char, k: nat, dim: nat)
    requires
        c != '-',
        k < dim <= usize::MAX,
        forall|i: int| 0 <= i < rules.len() ==> #[trigger] rules[i].from != '-',
    ensures
        relabel_ok(layer_move(neg, c, k), rules, dim),
        relabel_by(layer_move(neg, c, k), rules, dim) == layer_move(
            relabel_layer(rules, neg, c, k, dim).0,
            relabel_layer(rules, neg, c, k, dim).1,
            relabel_layer(rules, neg, c, k, dim).2,
        ),
    decreases rules.len(),
{
    let s = layer_move(neg, c, k);
    crate::text::lemma_decimal_parses(k);
    crate::text::lemma_decimal_digits(k);
    if rules.len() > 0 {
        let r = rules[0];
        assert(r.from != '-');
        if neg {
            assert(s[0] == '-' && s[1] == c);
        } else {
            assert(s[0] == c);
        }
        assert(has_face(s, r.from_neg, r.from) <==> (r.from_neg == neg && r.from == c));
        if r.from_neg == neg && r.from == c {
            assert(face_tail(s, neg) =~= decimal(k));
            assert(relabel_one(s, r, dim) =~= layer_move(r.to_neg, r.to, if r.mirror { (dim - 1 - k) as nat } else { k }));
        } else {
            assert forall|i: int| 0 <= i < rules.skip(1).len() implies #[trigger] rules.skip(1)[i].from != '-' by {
                assert(rules.skip(1)[i] == rules[i + 1]);
            }
            lemma_relabel_layer(rules.skip(1), neg, c, k, dim);
        }
    } else {
        assert(s == layer_move(neg, c, k));
    }
}

proof fn lemma_rules_lettered(rules: Seq<Relabel>)
    requires
        rules.len() == 4,
        rules[0].from != '-' && rules[1].from != '-' && rules[2].from != '-' && rules[3].from != '-',
    ensures
        forall|i: int| 0 <= i < rules.len() ==> #[trigger] rules[i].from != '-',
{
}

/// Inverting a layer move flips its sign.
pub proof fn lemma_rev_layer(neg: bool, c: char, k: nat)
    requires
        c != '-',
    ensures
        rev_move_spec(layer_move(neg, c, k)) == layer_move(!neg, c, k),
{
    let s = layer_move(neg, c, k);
    if neg {
        assert(s.skip(1) =~= layer_move(false, c, k));
    } else {
        assert(seq!['-'] + s =~= layer_move(true, c, k));
    }
}

/// Layer moves with different signs, faces or layers differ.
proof fn lemma_layer_distinct(n1: bool, c1: char, k1: nat, n2: bool, c2: char, k2: nat)
    requires
        c1 != '-',
        c2 != '-',
        n1 != n2 || c1 != c2,
    ensures
        layer_move(n1, c1, k1) != layer_move(n2, c2, k2),
{
    let a = layer_move(n1, c1, k1);
    let b = layer_move(n2, c2, k2);
    crate::text::lemma_decimal_digits(k1);
    crate::text::lemma_decimal_digits(k2);
    if n1 == n2 {
        if n1 {
            assert(a[1] != b[1]);
        } else {
            assert(a[0] != b[0]);
        }
    } else if n1 {
        assert(a[0] == '-');
        assert(b[0] == c2);
    } else {
        assert(a[0] == c1);
        assert(b[0] == '-');
    }
}

/// Four quarter turns of the whole cube about the `f` axis give every
/// layer move `[-]c<k>` (`c` one of `r`, `d`, `f`, `k < dim`) back, each
/// step can be carried out, and one quarter turn leaves the move as it is
/// exactly when its face is `f`.
pub proof fn lemma_rot_f_order_four(neg: bool, c: char, k: nat, dim: nat)
    requires
        move_face(c),
        k < dim <= usize::MAX,
    ensures
        ({
            let s = layer_move(neg, c, k);
            let s1 = relabel_by(s, rot_f_rules(), dim);
            let s2 = relabel_by(s1, rot_f_rules(), dim);
            let s3 = relabel_by(s2, rot_f_rules(), dim);
            &&& relabel_ok(s, rot_f_rules(), dim)
            &&& relabel_ok(s1, rot_f_rules(), dim)
            &&& relabel_ok(s2, rot_f_rules(), dim)
            &&& relabel_ok(s3, rot_f_rules(), dim)
            &&& relabel_by(s3, rot_f_rules(), dim) == s
            &&& (s1 == s <==> c == 'f')
        }),
{
    let rs = rot_f_rules();
    lemma_rules_lettered(rs);
    reveal_with_fuel(relabel_layer, 5);
    let t1 = relabel_layer(rs, neg, c, k, dim);
    lemma_relabel_layer(rs, neg, c, k, dim);
    assert(move_face(t1.1) && t1.2 < dim);
    let t2 = relabel_layer(rs, t1.0, t1.1, t1.2, dim);
    lemma_relabel_layer(rs, t1.0, t1.1, t1.2, dim);
    assert(move_face(t2.1) && t2.2 < dim);
    let t3 = relabel_layer(rs, t2.0, t2.1, t2.2, dim);
    lemma_relabel_layer(rs, t2.0, t2.1, t2.2, dim);
    assert(move_face(t3.1) && t3.2 < dim);
    let t4 = relabel_layer(rs, t3.0, t3.1, t3.2, dim);
    lemma_relabel_layer(rs, t3.0, t3.1, t3.2, dim);
    assert(t4 == (neg, c, k));
    if c != 'f' {
        lemma_layer_distinct(t1.0, t1.1, t1.2, neg, c, k);
    }
}

/// Where the rules send the move `[-]c` followed by the layer text
/// `tail`: the sign and face of the first rule that applies, and the tail
/// kept, or the mirrored layer written out when the rule mirrors; the move
/// itself when no rule applies.
pub open spec fn relabel_text(rules: Seq<Relabel>, neg: bool, c: char, tail: Seq<char>, dim: nat) -> (bool, char, Seq<char>)
    decreases rules.len(),
{
    if rules.len() == 0 {
        (neg, c, tail)
    } else if rules[0].from_neg == neg && rules[0].from == c {
        (rules[0].to_neg, rules[0].to, if rules[0].mirror { decimal((dim - 1 - usize_value(tail)) as nat) } else { tail })
    } else {
        relabel_text(rules.skip(1), neg, c, tail, dim)
    }
}

proof fn lemma_relabel_text(rules: Seq<Relabel>, neg: bool, c: char, tail: Seq<char>, dim: nat)
    requires
        c != '-',
        parses_as_usize(tail),
        usize_value(tail) < dim,
        forall|i: int| 0 <= i < rules.len() ==> #[trigger] rules[i].from != '-',
    ensures
        relabel_ok(face_text(neg, c, tail), rules, dim),
        relabel_by(face_text(neg, c, tail), rules, dim) == face_text(
            relabel_text(rules, neg, c, tail, dim).0,
            relabel_text(rules, neg, c, tail, dim).1,
            relabel_text(rules, neg, c, tail, dim).2,
        ),
    decreases rules.len(),
{
    let s = face_text(neg, c, tail);
    if rules.len() > 0 {
        let r = rules[0];
        assert(r.from != '-');
        if neg {
            assert(s[0] == '-' && s[1] == c);
        } else {
            assert(s[0] == c);
        }
        assert(has_face(s, r.from_neg, r.from) <==> (r.from_neg == neg && r.from == c));
        if r.from_neg == neg && r.from == c {
            assert(face_tail(s, neg) =~= tail);
        } else {
            assert forall|i: int| 0 <= i < rules.skip(1).len() implies #[trigger] rules.skip(1)[i].from != '-' by {
                assert(rules.skip(1)[i] == rules[i + 1]);
            }
            lemma_relabel_text(rules.skip(1), neg, c, tail, dim);
        }
    }
}

proof fn lemma_rev_text(neg: bool, c: char, tail: Seq<char>)
    requires
        c != '-',
    ensures
        rev_move_spec(face_text(neg, c, tail)) == face_text(!neg, c, tail),
{
    let s = face_text(neg, c, tail);
    if neg {
        assert(s.skip(1) =~= face_text(false, c, tail));
    } else {
        assert(seq!['-'] + s =~= face_text(true, c, tail));
    }
}

/// Rotating the inverse of a move about the `d` axis gives the inverse of
/// the rotated move, for any layer text that reads as a layer below `dim`
/// (leading zeros included).
pub proof fn lemma_rot_d_rev(neg: bool, c: char, tail: Seq<char>, dim: nat)
    requires
        move_face(c),
        parses_as_usize(tail),
        usize_value(tail) < dim,
    ensures
        relabel_ok(rev_move_spec(face_text(neg, c, tail)), rot_d_rules(), dim),
        relabel_by(rev_move_spec(face_text(neg, c, tail)), rot_d_rules(), dim) == rev_move_spec(
            relabel_by(face_text(neg, c, tail), rot_d_rules(), dim),
        ),
{
    let rs = rot_d_rules();
    lemma_rules_lettered(rs);
    reveal_with_fuel(relabel_text, 5);
    lemma_rev_text(neg, c, tail);
    lemma_relabel_text(rs, neg, c, tail, dim);
    lemma_relabel_text(rs, !neg, c, tail, dim);
    let t = relabel_text(rs, neg, c, tail, dim);
    assert(t.1 != '-');
    lemma_rev_text(t.0, t.1, t.2);
}

/// A half turn of the whole cube about the `d` axis relabels a move as two
/// quarter turns about it do, for any layer text that reads as a layer
/// below `dim` (leading zeros included).
pub proof fn lemma_rot2_d_twice(neg: bool, c: char, tail: Seq<char>, dim: nat)
    requires
        move_face(c),
        parses_as_usize(tail),
        usize_value(tail) < dim <= usize::MAX,
    ensures
        relabel_ok(face_text(neg, c, tail), rot2_f_rules(), dim),
        relabel_ok(relabel_by(face_text(neg, c, tail), rot_d_rules(), dim), rot_d_rules(), dim),
        relabel_by(face_text(neg, c, tail), rot2_f_rules(), dim) == relabel_by(
            relabel_by(face_text(neg, c, tail), rot_d_rules(), dim),
            rot_d_rules(),
            dim,
        ),
{
    let rs = rot_d_rules();
    lemma_rules_lettered(rs);
    lemma_rules_lettered(rot2_f_rules());
    reveal_with_fuel(relabel_text, 5);
    let k = usize_value(tail);
    crate::text::lemma_decimal_parses((dim - 1 - k) as nat);
    lemma_relabel_text(rs, neg, c, tail, dim);
    let t = relabel_text(rs, neg, c, tail, dim);
    assert(move_face(t.1) && parses_as_usize(t.2) && usize_value(t.2) < dim);
    lemma_relabel_text(rs, t.0, t.1, t.2, dim);
    lemma_relabel_text(rot2_f_rules(), neg, c, tail, dim);
}

/// A half turn of the whole cube about the `r` axis relabels a move as two
/// quarter turns about it do, for any layer text that reads as a layer
/// below `dim` (leading zeros included).
pub proof fn lemma_rot2_r_twice(neg: bool, c: char, tail: Seq<char>, dim: nat)
    requires
        move_face(c),
        parses_as_usize(tail),
        usize_value(tail) < dim <= usize::MAX,
    ensures
        relabel_ok(face_text(neg, c, tail), rot2_r_rules(), dim),
        relabel_ok(relabel_by(face_text(neg, c, tail), rot_r_rules(), dim), rot_r_rules(), dim),
        relabel_by(face_text(neg, c, tail), rot2_r_rules(), dim) == relabel_by(
            relabel_by(face_text(neg, c, tail), rot_r_rules(), dim),
            rot_r_rules(),
            dim,
        ),
{
    let rs = rot_r_rules();
    lemma_rules_lettered(rs);
    lemma_rules_lettered(rot2_r_rules());
    reveal_with_fuel(relabel_text, 5);
    let k = usize_value(tail);
    crate::text::lemma_decimal_parses((dim - 1 - k) as nat);
    lemma_relabel_text(rs, neg, c, tail, dim);
    let t = relabel_text(rs, neg, c, tail, dim);
    assert(move_face(t.1) && parses_as_usize(t.2) && usize_value(t.2) < dim);
    lemma_relabel_text(rs, t.0, t.1, t.2, dim);
    lemma_relabel_text(rot2_r_rules(), neg, c, tail, dim);
}

} // verus!
