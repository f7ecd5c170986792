//! Puzzle states written as piece names joined by `;`, and their integer form.
use vstd::prelude::*;
use crate::text::{
    chars_of, join_chars, join_seq, lemma_join_split, split_chars, split_seq, string_of, views,
};

verus! {

/// Distinct parts in order of first appearance.
pub open spec fn distinct_pieces(parts: Seq<Seq<char>>) -> Seq<Seq<char>>
    decreases parts.len(),
{
    if parts.len() == 0 {
        Seq::<Seq<char>>::empty()
    } else {
        let d = distinct_pieces(parts.drop_last());
        if d.contains(parts.last()) {
            d
        } else {
            d.push(parts.last())
        }
    }
}

/// The views of a vector of strings.
pub open spec fn string_views(v: Seq<String>) -> Seq<Seq<char>> {
    v.map_values(|s: String| s@)
}

/// Piece names and their ids: the id of a piece is its position in `names`.
pub struct PieceMap {
    pub names: Vec<String>,
}

impl PieceMap {
    /// The names, as character sequences.
    pub open spec fn keys(&self) -> Seq<Seq<char>> {
        string_views(self.names@)
    }

    /// No name occurs twice.
    pub open spec fn wf(&self) -> bool {
        self.keys().no_duplicates()
    }

    /// `id` is the id of `piece`.
    pub open spec fn maps(&self, piece: Seq<char>, id: int) -> bool {
        0 <= id < self.keys().len() && self.keys()[id] == piece
    }

    /// Id of `piece`, if it has one.
    pub fn get(&self, piece: &String) -> (r: Option<usize>)
        ensures
            match r {
                Some(id) => self.maps(piece@, id as int),
                None => !self.keys().contains(piece@),
            },
    {
        let mut i: usize = 0;
        while i < self.names.len()
            invariant
                i <= self.names.len(),
                forall|j: int| 0 <= j < i ==> self.keys()[j] != piece@,
            decreases self.names.len() - i,
        {
            if self.names[i] == *piece {
                return Some(i);
            }
            i = i + 1;
        }
        None
    }
}

fn strings_of(parts: &Vec<Vec<char>>) -> (r: Vec<String>)
    ensures
        string_views(r@) == views(parts@),
{
    let mut r: Vec<String> = Vec::new();
    let mut i: usize = 0;
    while i < parts.len()
        invariant
            i <= parts.len(),
            string_views(r@) == views(parts@).take(i as int),
        decreases parts.len() - i,
    {
        let s = string_of(&parts[i]);
        let ghost before = string_views(r@);
        let ghost sv = s@;
        r.push(s);
        assert(string_views(r@) =~= before.push(sv));
        assert(views(parts@).take(i + 1) =~= views(parts@).take(i as int).push(parts@[i as int]@));
        assert(string_views(r@) =~= views(parts@).take(i + 1));
        i = i + 1;
    }
    assert(views(parts@).take(parts.len() as int) =~= views(parts@));
    r
}

/// The pieces of a state (names joined by `;`), each named once, in order of
/// first appearance, with the map from a name to its position.
pub fn gen_piece_map(state: &str) -> (r: (PieceMap, Vec<String>))
    ensures
        r.0.wf(),
        r.0.keys() == distinct_pieces(split_seq(state@, ';')),
        string_views(r.1@) == distinct_pieces(split_seq(state@, ';')),
{
    let text = chars_of(state);
    let parts = split_chars(&text, ';');
    let ghost ps = views(parts@);
    let mut map = PieceMap { names: Vec::new() };
    let mut list: Vec<String> = Vec::new();
    let mut i: usize = 0;
    while i < parts.len()
        invariant
            i <= parts.len(),
            ps == views(parts@),
            map.keys() == distinct_pieces(ps.take(i as int)),
            string_views(list@) == map.keys(),
            map.wf(),
        decreases parts.len() - i,
    {
        let piece = string_of(&parts[i]);
        assert(ps.take(i + 1).drop_last() =~= ps.take(i as int));
        assert(ps.take(i + 1).last() == piece@);
        match map.get(&piece) {
            Some(_) => {},
            None => {
                let ghost before = map.keys();
                let copy = piece.clone();
                map.names.push(piece);
                list.push(copy);
                assert(map.keys() =~= before.push(piece@));
                assert(string_views(list@) =~= before.push(piece@));
                assert(map.keys().no_duplicates()) by {
                    assert forall|a: int, b: int|
                        0 <= a < map.keys().len() && 0 <= b < map.keys().len() && a != b implies
                        map.keys()[a] != map.keys()[b] by {
                        if a < before.len() && b < before.len() {
                        } else if a == before.len() {
                            assert(map.keys()[b] == before[b]);
                        } else {
                            assert(map.keys()[a] == before[a]);
                        }
                    }
                }
            },
        }
        i = i + 1;
    }
    assert(ps.take(parts.len() as int) =~= ps);
    (map, list)
}

/// Every piece of `state` has an id in `map`.
pub open spec fn all_known(state: Seq<char>, map: PieceMap) -> bool {
    forall|k: int|
        0 <= k < split_seq(state, ';').len() ==> #[trigger] map.keys().contains(
            split_seq(state, ';')[k],
        )
}

/// The ids of the pieces of `state`, in order.
pub fn state_to_list(state: &str, piece_map: &PieceMap) -> (r: Vec<usize>)
    requires
        all_known(state@, *piece_map),
    ensures
        r.len() == split_seq(state@, ';').len(),
        forall|k: int| 0 <= k < r.len() ==> piece_map.maps(split_seq(state@, ';')[k], #[trigger] r[k] as int),
{
    let text = chars_of(state);
    let parts = split_chars(&text, ';');
    let ghost ps = views(parts@);
    let mut r: Vec<usize> = Vec::new();
    let mut i: usize = 0;
    while i < parts.len()
        invariant
            i <= parts.len(),
            ps == views(parts@),
            ps == split_seq(state@, ';'),
            all_known(state@, *piece_map),
            r.len() == i,
            forall|k: int| 0 <= k < i ==> piece_map.maps(ps[k], #[trigger] r[k] as int),
        decreases parts.len() - i,
    {
        let piece = string_of(&parts[i]);
        assert(ps[i as int] == piece@);
        assert(piece_map.keys().contains(ps[i as int]));
        let id = piece_map.get(&piece);
        match id {
            Some(v) => {
                r.push(v);
            },
            None => {
                assert(false);
            },
        }
        i = i + 1;
    }
    r
}

/// The ids of the pieces of `state`, in order; `None` when a piece has no id.
pub fn state_ids(state: &str, piece_map: &PieceMap) -> (r: Option<Vec<usize>>)
    ensures
        match r {
            Some(v) => v.len() == split_seq(state@, ';').len() && forall|k: int|
                0 <= k < v.len() ==> piece_map.maps(split_seq(state@, ';')[k], #[trigger] v[k] as int),
            None => !all_known(state@, *piece_map),
        },
{
    let text = chars_of(state);
    let parts = split_chars(&text, ';');
    let ghost ps = views(parts@);
    let mut r: Vec<usize> = Vec::new();
    let mut i: usize = 0;
    while i < parts.len()
        invariant
            i <= parts.len(),
            ps == views(parts@),
            ps == split_seq(state@, ';'),
            r.len() == i,
            forall|k: int| 0 <= k < i ==> piece_map.maps(ps[k], #[trigger] r[k] as int),
        decreases parts.len() - i,
    {
        let piece = string_of(&parts[i]);
        assert(ps[i as int] == piece@);
        match piece_map.get(&piece) {
            Some(v) => {
                r.push(v);
            },
            None => {
                assert(!piece_map.keys().contains(split_seq(state@, ';')[i as int]));
                return None;
            },
        }
        i = i + 1;
    }
    Some(r)
}

/// The names of the pieces with ids `list`.
pub open spec fn names_of(list: Seq<usize>, piece_list: Seq<String>) -> Seq<Seq<char>> {
    list.map_values(|i: usize| piece_list[i as int]@)
}

/// The state whose pieces have ids `list`: their names joined by `;`.
pub fn list_to_state(list: &Vec<usize>, piece_list: &Vec<String>) -> (r: String)
    requires
        forall|k: int| 0 <= k < list.len() ==> #[trigger] list[k] < piece_list.len(),
    ensures
        r@ == join_seq(names_of(list@, piece_list@), ';'),
{
    let mut parts: Vec<Vec<char>> = Vec::new();
    let mut i: usize = 0;
    while i < list.len()
        invariant
            i <= list.len(),
            forall|k: int| 0 <= k < list.len() ==> #[trigger] list[k] < piece_list.len(),
            views(parts@) == names_of(list@, piece_list@).take(i as int),
        decreases list.len() - i,
    {
        let name = chars_of(piece_list[list[i]].as_str());
        let ghost before = views(parts@);
        let ghost nv = name@;
        parts.push(name);
        assert(views(parts@) =~= before.push(nv));
        assert(names_of(list@, piece_list@).take(i + 1) =~= names_of(list@, piece_list@).take(
            i as int,
        ).push(nv));
        assert(views(parts@) =~= names_of(list@, piece_list@).take(i + 1));
        i = i + 1;
    }
    assert(names_of(list@, piece_list@).take(list.len() as int) =~= names_of(list@, piece_list@));
    let joined = join_chars(&parts, ';');
    string_of(&joined)
}

/// Writing a state as ids and back gives the same state, when the names are
/// those of the map.
pub proof fn lemma_state_round_trip(
    state: Seq<char>,
    map: PieceMap,
    ids: Seq<usize>,
    piece_list: Seq<String>,
)
    requires
        string_views(piece_list) == map.keys(),
        ids.len() == split_seq(state, ';').len(),
        forall|k: int| 0 <= k < ids.len() ==> map.maps(split_seq(state, ';')[k], #[trigger] ids[k] as int),
    ensures
        join_seq(names_of(ids, piece_list), ';') == state,
{
    let ps = split_seq(state, ';');
    assert(names_of(ids, piece_list) =~= ps) by {
        assert forall|k: int| 0 <= k < ids.len() implies names_of(ids, piece_list)[k] == ps[k] by {
            assert(map.maps(ps[k], ids[k] as int));
            assert(string_views(piece_list)[ids[k] as int] == piece_list[ids[k] as int]@);
        }
    }
    lemma_join_split(state, ';');
}

} // verus!
