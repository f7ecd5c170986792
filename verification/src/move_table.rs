//! Reading a puzzle's move table: the JSON text of the move permutations
//! (written with single quotes) is parsed, and each move `k` gets its
//! inverse `-k`, the inverse permutation.
use vstd::prelude::*;
use crate::perm::{action_of, apply_named, apply_pairs, lemma_action_applies_perm, ActionTable, MoveTable};
use crate::pieces::string_views;
use crate::text::{chars_of, string_of};

verus! {

/// `s` with every `'` replaced by `"`.
pub open spec fn json_quotes_spec(s: Seq<char>) -> Seq<char> {
    Seq::new(s.len(), |i: int| if s[i] == '\'' { '"' } else { s[i] })
}

/// Replaces every `'` with `"`.
pub fn json_quotes(s: &str) -> (r: String)
    ensures
        r@ == json_quotes_spec(s@),
{
    let v = chars_of(s);
    let mut out: Vec<char> = Vec::new();
    let mut i: usize = 0;
    while i < v.len()
        invariant
            i <= v.len(),
            v@ == s@,
            out@ == json_quotes_spec(s@).take(i as int),
        decreases v.len() - i,
    {
        out.push(if v[i] == '\'' { '"' } else { v[i] });
        assert(out@ =~= json_quotes_spec(s@).take(i + 1));
        i = i + 1;
    }
    assert(out@ =~= json_quotes_spec(s@));
    string_of(&out)
}

/// No two moves of the table have the same name.
pub open spec fn distinct_names(t: MoveTable) -> bool {
    forall|i: int, j: int| 0 <= i < j < t.names.len() ==> t.names[i]@ != t.names[j]@
}

/// What `serde_json::from_str` reads from `text` as a map from move names
/// to permutations (`HashMap<String, Vec<i16>>`), by the views of its keys
/// and values; `None` when the text does not parse.
pub uninterp spec fn json_moves(text: Seq<char>) -> Option<Map<Seq<char>, Seq<i16>>>;

/// The map from the names of a table to their permutations.
pub open spec fn table_map(t: MoveTable) -> Map<Seq<char>, Seq<i16>> {
    Map::new(
        |k: Seq<char>| exists|i: int| 0 <= i < t.names.len() && #[trigger] t.names[i]@ == k,
        |k: Seq<char>| t.perms[choose|i: int| 0 <= i < t.names.len() && #[trigger] t.names[i]@ == k]@,
    )
}

/// `serde_json::from_str` into a map from move names to permutations
/// (`HashMap<String, Vec<i16>>`), its entries listed in the map's order;
/// `None` exactly when the text does not parse. Claims that names and
/// permutations pair up, that no name occurs twice (a map's keys are
/// unique), and that the entries are those of the map the text gives
/// (`json_moves`); the order in which the map lists them depends on the
/// map's hasher, which each process seeds, and is not stated.
#[verifier::external_body]
fn parse_move_json(text: &str) -> (r: Option<MoveTable>)
    ensures
        r is Some <==> json_moves(text@) is Some,
        r matches Some(t) ==> t.wf() && distinct_names(t) && json_moves(text@) == Some(table_map(t)),
{
    match serde_json::from_str::<std::collections::HashMap<String, Vec<i16>>>(text) {
        Ok(m) => {
            let (names, perms): (Vec<String>, Vec<Vec<i16>>) = m.into_iter().unzip();
            Some(MoveTable { names, perms })
        },
        Err(_) => None,
    }
}

/// The first `m` positions of the inverse of `v`: starting from zeros,
/// position `v[j]` gets `j`, for `j < m` in order.
pub open spec fn inv_prefix(v: Seq<i16>, m: int) -> Seq<i16>
    decreases m,
{
    if m <= 0 {
        Seq::new(v.len(), |i: int| 0i16)
    } else {
        inv_prefix(v, m - 1).update(v[m - 1] as int, (m - 1) as i16)
    }
}

/// The inverse permutation of `v`.
pub open spec fn inverse_spec(v: Seq<i16>) -> Seq<i16> {
    inv_prefix(v, v.len() as int)
}

/// Every entry of `v` is a position of `v`, and `v` is not longer than an
/// `i16` can count.
pub open spec fn perm_entries_ok(v: Seq<i16>) -> bool {
    &&& v.len() <= 32768
    &&& forall|i: int| 0 <= i < v.len() ==> 0 <= #[trigger] v[i] < v.len()
}

proof fn lemma_inv_prefix_len(v: Seq<i16>, m: int)
    requires
        perm_entries_ok(v),
        0 <= m <= v.len(),
    ensures
        inv_prefix(v, m).len() == v.len(),
    decreases m,
{
    if m > 0 {
        lemma_inv_prefix_len(v, m - 1);
        assert(0 <= v[m - 1] < v.len());
    }
}

/// The inverse of a permutation whose entries are its positions; `None`
/// when an entry is not (or the permutation is too long for `i16`).
pub fn inverse_perm(v: &Vec<i16>) -> (r: Option<Vec<i16>>)
    ensures
        match r {
            Some(u) => perm_entries_ok(v@) && u@ == inverse_spec(v@),
            None => !perm_entries_ok(v@),
        },
{
    if v.len() > 32768 {
        return None;
    }
    let mut k: usize = 0;
    while k < v.len()
        invariant
            k <= v.len() <= 32768,
            forall|i: int| 0 <= i < k ==> 0 <= #[trigger] v@[i] < v.len(),
        decreases v.len() - k,
    {
        if v[k] < 0 || v[k] as usize >= v.len() {
            return None;
        }
        k = k + 1;
    }
    let mut u: Vec<i16> = Vec::new();
    let mut i: usize = 0;
    while i < v.len()
        invariant
            i <= v.len(),
            u@ == Seq::new(i as nat, |t: int| 0i16),
        decreases v.len() - i,
    {
        u.push(0);
        assert(u@ =~= Seq::new((i + 1) as nat, |t: int| 0i16));
        i = i + 1;
    }
    assert(u@ =~= inv_prefix(v@, 0));
    let mut j: usize = 0;
    while j < v.len()
        invariant
            j <= v.len() <= 32768,
            perm_entries_ok(v@),
            u@ == inv_prefix(v@, j as int),
            u.len() == v.len(),
        decreases v.len() - j,
    {
        assert(0 <= v@[j as int] < v.len());
        u.set(v[j] as usize, j as i16);
        proof {
            lemma_inv_prefix_len(v@, j + 1);
        }
        j = j + 1;
    }
    Some(u)
}

/// The move that undoes `name`: `-name`.
pub open spec fn inv_name(name: Seq<char>) -> Seq<char> {
    seq!['-'] + name
}

/// Move `k`'s name is the inverse name of some move of the table (which
/// replaces it).
pub open spec fn shadowed(t: MoveTable, k: int) -> bool {
    exists|j: int| 0 <= j < t.names.len() && t.names[k]@ == inv_name(#[trigger] t.names[j]@)
}

/// The moves `0..m` of `t` that no inverse replaces, as names and permutations.
pub open spec fn kept_entries(t: MoveTable, m: int) -> Seq<(Seq<char>, Seq<i16>)>
    decreases m,
{
    if m <= 0 {
        Seq::empty()
    } else {
        let p = kept_entries(t, m - 1);
        if shadowed(t, m - 1) {
            p
        } else {
            p.push((t.names[m - 1]@, t.perms[m - 1]@))
        }
    }
}

/// The inverses of moves `0..m`.
pub open spec fn inverse_entries(t: MoveTable, m: int) -> Seq<(Seq<char>, Seq<i16>)> {
    Seq::new(m as nat, |j: int| (inv_name(t.names[j]@), inverse_spec(t.perms[j]@)))
}

/// The table with the inverses: the moves that no inverse replaces, then
/// the inverse of every move.
pub open spec fn with_inverses_spec(t: MoveTable) -> Seq<(Seq<char>, Seq<i16>)> {
    kept_entries(t, t.names.len() as int) + inverse_entries(t, t.names.len() as int)
}

/// The entries of a table, as names and permutations.
pub open spec fn table_entries(t: MoveTable) -> Seq<(Seq<char>, Seq<i16>)> {
    Seq::new(t.names@.len(), |i: int| (t.names[i]@, t.perms[i]@))
}

fn is_inverse_name(a: &Vec<char>, b: &Vec<char>) -> (r: bool)
    ensures
        r == (a@ == inv_name(b@)),
{
    if a.len() == 0 || a.len() - 1 != b.len() || a[0] != '-' {
        assert(a@ != inv_name(b@)) by {
            if a@ == inv_name(b@) {
                assert(a@[0] == '-');
            }
        }
        return false;
    }
    let mut i: usize = 0;
    while i < b.len()
        invariant
            i <= b.len(),
            a.len() == b.len() + 1,
            forall|t: int| 0 <= t < i ==> a@[t + 1] == b@[t],
        decreases b.len() - i,
    {
        if a[i + 1] != b[i] {
            assert(a@ != inv_name(b@)) by {
                if a@ == inv_name(b@) {
                    assert(inv_name(b@)[i + 1] == b@[i as int]);
                }
            }
            return false;
        }
        i = i + 1;
    }
    assert(a@ =~= inv_name(b@));
    true
}

/// Each move of `t` with its inverse `-name` added, a move of `t` being
/// replaced when its name is the inverse name of another (as inserting into
/// a map does); `None` when a permutation's entries are not its positions.
pub fn add_inverse_moves(t: &MoveTable) -> (r: Option<MoveTable>)
    requires
        t.wf(),
    ensures
        match r {
            Some(m) => m.wf() && table_entries(m) == with_inverses_spec(*t) && forall|k: int|
                0 <= k < t.perms.len() ==> perm_entries_ok(#[trigger] t.perms[k]@),
            None => exists|k: int| 0 <= k < t.perms.len() && !perm_entries_ok(#[trigger] t.perms[k]@),
        },
{
    let n = t.names.len();
    let mut texts: Vec<Vec<char>> = Vec::new();
    let mut i: usize = 0;
    while i < n
        invariant
            i <= n == t.names.len(),
            texts.len() == i,
            forall|j: int| 0 <= j < i ==> #[trigger] texts@[j]@ == t.names[j]@,
        decreases n - i,
    {
        texts.push(chars_of(t.names[i].as_str()));
        i = i + 1;
    }
    let mut names: Vec<String> = Vec::new();
    let mut perms: Vec<Vec<i16>> = Vec::new();
    let mut k: usize = 0;
    while k < n
        invariant
            k <= n == t.names.len(),
            t.wf(),
            texts.len() == n,
            forall|j: int| 0 <= j < n ==> #[trigger] texts@[j]@ == t.names[j]@,
            names.len() == perms.len(),
            table_entries(MoveTable { names, perms }) == kept_entries(*t, k as int),
        decreases n - k,
    {
        let mut shadow = false;
        let mut j: usize = 0;
        while j < n && !shadow
            invariant
                j <= n == t.names.len(),
                k < n,
                texts.len() == n,
                forall|q: int| 0 <= q < n ==> #[trigger] texts@[q]@ == t.names[q]@,
                shadow ==> shadowed(*t, k as int),
                !shadow ==> forall|q: int| 0 <= q < j ==> t.names[k as int]@ != inv_name(#[trigger] t.names[q]@),
            decreases n - j,
        {
            if is_inverse_name(&texts[k], &texts[j]) {
                shadow = true;
                assert(t.names[k as int]@ == inv_name(t.names[j as int]@));
            }
            j = j + 1;
        }
        let ghost before = table_entries(MoveTable { names, perms });
        if !shadow {
            names.push(string_of(&texts[k]));
            perms.push(copy_perm(&t.perms[k]));
            assert(table_entries(MoveTable { names, perms }) =~= before.push((t.names[k as int]@, t.perms[k as int]@)));
        }
        k = k + 1;
    }
    let ghost kept_len = names.len() as int;
    let mut j: usize = 0;
    while j < n
        invariant
            j <= n == t.names.len(),
            t.wf(),
            texts.len() == n,
            forall|q: int| 0 <= q < n ==> #[trigger] texts@[q]@ == t.names[q]@,
            names.len() == perms.len(),
            table_entries(MoveTable { names, perms }) == kept_entries(*t, n as int) + inverse_entries(*t, j as int),
            forall|q: int| 0 <= q < j ==> perm_entries_ok(#[trigger] t.perms[q]@),
        decreases n - j,
    {
        let inv = match inverse_perm(&t.perms[j]) {
            Some(u) => u,
            None => {
                return None;
            },
        };
        let mut name: Vec<char> = Vec::new();
        name.push('-');
        let src = &texts[j];
        let mut q: usize = 0;
        while q < src.len()
            invariant
                q <= src.len(),
                name@ == seq!['-'] + src@.take(q as int),
            decreases src.len() - q,
        {
            name.push(src[q]);
            assert(name@ =~= seq!['-'] + src@.take(q + 1));
            q = q + 1;
        }
        assert(src@.take(src.len() as int) =~= src@);
        let ghost before = table_entries(MoveTable { names, perms });
        names.push(string_of(&name));
        perms.push(inv);
        assert(table_entries(MoveTable { names, perms }) =~= before.push((inv_name(t.names[j as int]@), inverse_spec(t.perms[j as int]@))));
        assert(inverse_entries(*t, j + 1) =~= inverse_entries(*t, j as int).push((inv_name(t.names[j as int]@), inverse_spec(t.perms[j as int]@))));
        j = j + 1;
    }
    Some(MoveTable { names, perms })
}

fn copy_perm(v: &Vec<i16>) -> (r: Vec<i16>)
    ensures
        r@ == v@,
{
    let mut r: Vec<i16> = Vec::new();
    let mut i: usize = 0;
    while i < v.len()
        invariant
            i <= v.len(),
            r@ == v@.take(i as int),
        decreases v.len() - i,
    {
        r.push(v[i]);
        assert(r@ =~= v@.take(i + 1));
        i = i + 1;
    }
    assert(r@ =~= v@);
    r
}

/// A row of the puzzle-info table: the move permutations of a puzzle as the
/// table writes them (JSON with single quotes), each with its inverse
/// added. `None` exactly when the text does not parse or a permutation's
/// entries are not its positions.
pub fn load_moves_record(text: &str) -> (r: Option<MoveTable>)
    ensures
        r matches Some(m) ==> m.wf() && exists|t: MoveTable|
            t.wf() && distinct_names(t) && json_moves(json_quotes_spec(text@)) == Some(table_map(t)) && table_entries(m)
                == with_inverses_spec(t),
        r is None <==> (json_moves(json_quotes_spec(text@)) is None || exists|k: Seq<char>|
            json_moves(json_quotes_spec(text@))->0.contains_key(k) && !perm_entries_ok(
                #[trigger] json_moves(json_quotes_spec(text@))->0[k],
            )),
{
    let quoted = json_quotes(text);
    match parse_move_json(quoted.as_str()) {
        Some(t) => {
            let ghost mp = table_map(t);
            match add_inverse_moves(&t) {
                Some(m) => {
                    proof {
                        assert forall|k: Seq<char>| mp.contains_key(k) implies perm_entries_ok(#[trigger] mp[k]) by {
                            let i = choose|i: int| 0 <= i < t.names.len() && #[trigger] t.names[i]@ == k;
                            assert(perm_entries_ok(t.perms[i]@));
                        }
                        assert(json_moves(json_quotes_spec(text@)) == Some(mp));
                    }
                    Some(m)
                },
                None => {
                    proof {
                        let k = choose|k: int| 0 <= k < t.perms.len() && !perm_entries_ok(#[trigger] t.perms[k]@);
                        let key = t.names[k]@;
                        assert(mp.contains_key(key));
                        let i = choose|i: int| 0 <= i < t.names.len() && #[trigger] t.names[i]@ == key;
                        assert(i == k) by {
                            if i != k {
                                if i < k {
                                    assert(t.names[i]@ != t.names[k]@);
                                } else {
                                    assert(t.names[k]@ != t.names[i]@);
                                }
                            }
                        }
                        assert(!perm_entries_ok(mp[key]));
                        assert(json_moves(json_quotes_spec(text@))->0[key] == mp[key]);
                        assert(json_moves(json_quotes_spec(text@))->0.contains_key(key));
                    }
                    None
                },
            }
        },
        None => None,
    }
}

/// `v` is a permutation of its positions: entries in range, no two equal,
/// every position hit.
pub open spec fn is_permutation(v: Seq<i16>) -> bool {
    &&& perm_entries_ok(v)
    &&& forall|i: int, j: int| 0 <= i < j < v.len() ==> v[i] != v[j]
    &&& forall|x: int| 0 <= x < v.len() ==> #[trigger] hits(v, x)
}

/// Some entry of `v` is `x`.
pub open spec fn hits(v: Seq<i16>, x: int) -> bool {
    exists|j: int| 0 <= j < v.len() && #[trigger] v[j] == x
}

proof fn lemma_inv_prefix_at(v: Seq<i16>, m: int, j: int)
    requires
        is_permutation(v),
        0 <= j < m <= v.len(),
    ensures
        inv_prefix(v, m)[v[j] as int] == j,
    decreases m,
{
    lemma_inv_prefix_len(v, m - 1);
    assert(0 <= v[m - 1] < v.len());
    assert(0 <= v[j] < v.len());
    if m - 1 > j {
        assert(v[j] != v[m - 1]);
        lemma_inv_prefix_at(v, m - 1, j);
    }
}

/// The inverse of a permutation undoes it, both ways round.
pub proof fn lemma_inverse_spec(v: Seq<i16>)
    requires
        is_permutation(v),
    ensures
        inverse_spec(v).len() == v.len(),
        forall|j: int| 0 <= j < v.len() ==> #[trigger] inverse_spec(v)[v[j] as int] == j,
        forall|x: int| 0 <= x < v.len() ==> 0 <= #[trigger] inverse_spec(v)[x] < v.len() && v[inverse_spec(v)[x] as int] == x,
{
    let u = inverse_spec(v);
    lemma_inv_prefix_len(v, v.len() as int);
    assert forall|j: int| 0 <= j < v.len() implies #[trigger] u[v[j] as int] == j by {
        lemma_inv_prefix_at(v, v.len() as int, j);
    }
    assert forall|x: int| 0 <= x < v.len() implies 0 <= #[trigger] u[x] < v.len() && v[u[x] as int] == x by {
        assert(hits(v, x));
        let j = choose|j: int| 0 <= j < v.len() && #[trigger] v[j] == x;
        lemma_inv_prefix_at(v, v.len() as int, j);
    }
}

proof fn lemma_kept_from(t: MoveTable, m: int)
    requires
        0 <= m <= t.names.len(),
        t.wf(),
    ensures
        forall|idx: int| 0 <= idx < kept_entries(t, m).len() ==> exists|j: int|
            0 <= j < m && !shadowed(t, j) && #[trigger] kept_entries(t, m)[idx] == (t.names[j]@, t.perms[j]@),
    decreases m,
{
    if m > 0 {
        lemma_kept_from(t, m - 1);
        let p = kept_entries(t, m - 1);
        assert forall|idx: int| 0 <= idx < kept_entries(t, m).len() implies exists|j: int|
            0 <= j < m && !shadowed(t, j) && #[trigger] kept_entries(t, m)[idx] == (t.names[j]@, t.perms[j]@) by {
            if idx < p.len() {
                assert(kept_entries(t, m)[idx] == p[idx]);
                let j = choose|j: int| 0 <= j < m - 1 && !shadowed(t, j) && #[trigger] p[idx] == (t.names[j]@, t.perms[j]@);
                assert(0 <= j < m && !shadowed(t, j) && kept_entries(t, m)[idx] == (t.names[j]@, t.perms[j]@));
            } else {
                assert(kept_entries(t, m)[idx] == (t.names[m - 1]@, t.perms[m - 1]@));
            }
        }
    }
}

proof fn lemma_kept_has(t: MoveTable, m: int, k: int)
    requires
        0 <= k < m <= t.names.len(),
        !shadowed(t, k),
    ensures
        exists|idx: int| 0 <= idx < kept_entries(t, m).len() && #[trigger] kept_entries(t, m)[idx] == (t.names[k]@, t.perms[k]@),
    decreases m,
{
    if k < m - 1 {
        lemma_kept_has(t, m - 1, k);
        let idx = choose|idx: int| 0 <= idx < kept_entries(t, m - 1).len() && #[trigger] kept_entries(t, m - 1)[idx] == (t.names[k]@, t.perms[k]@);
        assert(kept_entries(t, m)[idx] == kept_entries(t, m - 1)[idx]);
    } else {
        let idx = kept_entries(t, m - 1).len() as int;
        assert(kept_entries(t, m)[idx] == (t.names[k]@, t.perms[k]@));
    }
}

/// A move followed by its inverse leaves any state as it was: in the table
/// with inverses, move `k` of `t` (when no inverse replaced it, the names
/// of `t` are distinct, and its permutation permutes the state's positions)
/// and then `-k` give the state back.
pub proof fn lemma_inverse_move_undoes(t: MoveTable, m: MoveTable, a: ActionTable, s: Seq<usize>, k: int)
    requires
        t.wf(),
        distinct_names(t),
        0 <= k < t.names.len(),
        !shadowed(t, k),
        is_permutation(t.perms[k]@),
        t.perms[k]@.len() == s.len(),
        m.wf(),
        table_entries(m) == with_inverses_spec(t),
        a.wf(),
        string_views(a.names@) == string_views(m.names@),
        forall|i: int| 0 <= i < a.actions.len() ==> #[trigger] a.actions[i]@ == action_of(m.perms[i]@),
    ensures
        apply_named(a, s, seq![t.names[k]@, inv_name(t.names[k]@)]) == s,
{
    let nk = t.names[k]@;
    let pk = t.perms[k]@;
    let n = t.names.len() as int;
    let kept = kept_entries(t, n);
    let all = with_inverses_spec(t);
    lemma_kept_from(t, n);
    lemma_kept_has(t, n, k);
    assert(table_entries(m).len() == m.names.len());
    assert(a.names.len() == m.names.len()) by {
        assert(string_views(a.names@).len() == a.names@.len());
        assert(string_views(m.names@).len() == m.names@.len());
    }
    assert forall|i: int| 0 <= i < a.names.len() implies #[trigger] a.names[i]@ == all[i].0 by {
        assert(string_views(a.names@)[i] == string_views(m.names@)[i]);
        assert(table_entries(m)[i] == (m.names[i]@, m.perms[i]@));
    }
    // every entry named `nk` is move `k`
    assert forall|i: int| 0 <= i < all.len() && #[trigger] all[i].0 == nk implies all[i].1 == pk by {
        if i < kept.len() {
            assert(all[i] == kept[i]);
            let j = choose|j: int| 0 <= j < n && !shadowed(t, j) && #[trigger] kept[i] == (t.names[j]@, t.perms[j]@);
            if j != k {
                if j < k {
                    assert(t.names[j]@ != t.names[k]@);
                } else {
                    assert(t.names[k]@ != t.names[j]@);
                }
            }
        } else {
            let j = i - kept.len();
            assert(all[i] == (inv_name(t.names[j]@), inverse_spec(t.perms[j]@)));
            assert(shadowed(t, k));
        }
    }
    // every entry named `-nk` is the inverse of move `k`
    assert forall|i: int| 0 <= i < all.len() && #[trigger] all[i].0 == inv_name(nk) implies all[i].1 == inverse_spec(pk) by {
        if i < kept.len() {
            assert(all[i] == kept[i]);
            let j = choose|j: int| 0 <= j < n && !shadowed(t, j) && #[trigger] kept[i] == (t.names[j]@, t.perms[j]@);
            assert(shadowed(t, j));
        } else {
            let j = i - kept.len();
            assert(all[i] == (inv_name(t.names[j]@), inverse_spec(t.perms[j]@)));
            assert(t.names[j]@ =~= inv_name(t.names[j]@).skip(1));
            assert(nk =~= inv_name(nk).skip(1));
            if j != k {
                if j < k {
                    assert(t.names[j]@ != t.names[k]@);
                } else {
                    assert(t.names[k]@ != t.names[j]@);
                }
            }
        }
    }
    let idx1 = choose|idx: int| 0 <= idx < kept.len() && #[trigger] kept[idx] == (nk, pk);
    assert(all[idx1] == (nk, pk));
    assert(a.names[idx1]@ == nk);
    assert(a.knows(nk));
    crate::perm::lemma_first_exists(a, nk);
    let f1 = choose|f: int| a.is_first(nk, f);
    assert(a.names[f1]@ == nk);
    assert(all[f1].0 == nk);
    assert(all[f1].1 == pk);
    assert(table_entries(m)[f1] == (m.names[f1]@, m.perms[f1]@));
    assert(a.named(nk) == action_of(pk));
    let idx2 = kept.len() + k;
    assert(all[idx2] == (inv_name(nk), inverse_spec(pk)));
    assert(a.names[idx2]@ == inv_name(nk));
    assert(a.knows(inv_name(nk)));
    crate::perm::lemma_first_exists(a, inv_name(nk));
    let f2 = choose|f: int| a.is_first(inv_name(nk), f);
    assert(a.names[f2]@ == inv_name(nk));
    assert(all[f2].0 == inv_name(nk));
    assert(all[f2].1 == inverse_spec(pk));
    assert(table_entries(m)[f2] == (m.names[f2]@, m.perms[f2]@));
    assert(a.named(inv_name(nk)) == action_of(inverse_spec(pk)));
    // the two moves, as permutations
    let moves = seq![nk, inv_name(nk)];
    assert(moves.drop_last() =~= seq![nk]);
    assert(moves.drop_last().drop_last() =~= Seq::<Seq<char>>::empty());
    let s1 = apply_pairs(s, s, action_of(pk));
    lemma_inverse_spec(pk);
    assert forall|i: int| 0 <= i < pk.len() implies (#[trigger] pk[i] as usize) < s.len() by {}
    lemma_action_applies_perm(pk, s);
    let u = inverse_spec(pk);
    assert(s1.len() == s.len());
    assert forall|i: int| 0 <= i < u.len() implies (#[trigger] u[i] as usize) < s1.len() by {}
    lemma_action_applies_perm(u, s1);
    let s2 = apply_pairs(s1, s1, action_of(u));
    assert(s2 =~= s) by {
        assert forall|i: int| 0 <= i < s.len() implies s2[i] == s[i] by {
            assert(0 <= u[i] < pk.len());
            assert(pk[u[i] as int] == i);
        }
    }
    assert(seq![nk].drop_last() =~= Seq::<Seq<char>>::empty());
    assert(seq![nk].last() == nk);
    assert(apply_named(a, s, Seq::<Seq<char>>::empty()) == s);
    assert(apply_named(a, s, seq![nk]) == s1);
    assert(moves.last() == inv_name(nk));
    assert(apply_named(a, s, moves) == s2);
}

} // verus!
