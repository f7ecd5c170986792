//! The two search tables of the four-face stage: for the corner pieces and
//! for the edge pieces, each a shortest-path tree over all positions with
//! four stickers of each class, rooted at the solved position.
use vstd::prelude::*;
use std::collections::HashMap;
use crate::four_faces::{four_class_packs, gen_perm_map_four_faces_impl, pack_perm_for_four_faces, packed_bits, sticker_move};
use crate::search::{cheapest_tables, dijkstra_packed, leaves_map, map_indexes, move_costs_ok, path_tables, table_view};
use crate::four_faces::permuted_bits;

verus! {

broadcast use vstd::std_specs::hash::group_hash_axioms;

/// The moves of the corner stage on the 16 stickers, with their costs in turns.
pub open spec fn four_corner_move_table() -> Seq<(Seq<usize>, i32)> {
    seq![
        (seq![0, 1, 2, 3, 5, 6, 7, 4, 8, 9, 10, 11, 12, 13, 14, 15], 1),
        (seq![0, 1, 2, 3, 7, 4, 5, 6, 8, 9, 10, 11, 12, 13, 14, 15], 1),
        (seq![0, 1, 2, 3, 4, 5, 6, 7, 9, 10, 11, 8, 12, 13, 14, 15], 1),
        (seq![0, 1, 2, 3, 4, 5, 6, 7, 11, 8, 9, 10, 12, 13, 14, 15], 1),
        (seq![0, 1, 2, 3, 4, 5, 6, 7, 8, 9, 10, 11, 13, 14, 15, 12], 1),
        (seq![0, 1, 2, 3, 4, 5, 6, 7, 8, 9, 10, 11, 15, 12, 13, 14], 1),
        (seq![1, 2, 3, 0, 4, 5, 6, 7, 8, 9, 10, 11, 12, 13, 14, 15], 1),
        (seq![3, 0, 1, 2, 4, 5, 6, 7, 8, 9, 10, 11, 12, 13, 14, 15], 1),
        (seq![0, 1, 2, 3, 7, 5, 6, 15, 8, 9, 10, 11, 12, 13, 4, 14], 3),
        (seq![0, 1, 2, 3, 15, 5, 6, 14, 8, 9, 10, 11, 12, 13, 7, 4], 4),
        (seq![0, 1, 2, 3, 14, 5, 6, 4, 8, 9, 10, 11, 12, 13, 15, 7], 3),
        (seq![0, 1, 2, 3, 4, 13, 5, 7, 8, 9, 10, 11, 6, 12, 14, 15], 3),
        (seq![0, 1, 2, 3, 4, 12, 13, 7, 8, 9, 10, 11, 5, 6, 14, 15], 4),
        (seq![0, 1, 2, 3, 4, 6, 12, 7, 8, 9, 10, 11, 13, 5, 14, 15], 3),
        (seq![0, 1, 2, 3, 4, 5, 6, 7, 11, 9, 10, 13, 8, 12, 14, 15], 3),
        (seq![0, 1, 2, 3, 4, 5, 6, 7, 13, 9, 10, 12, 11, 8, 14, 15], 4),
        (seq![0, 1, 2, 3, 4, 5, 6, 7, 12, 9, 10, 8, 13, 11, 14, 15], 3),
        (seq![0, 1, 2, 3, 4, 5, 6, 7, 8, 15, 9, 11, 12, 13, 10, 14], 3),
        (seq![0, 1, 2, 3, 4, 5, 6, 7, 8, 14, 15, 11, 12, 13, 9, 10], 4),
        (seq![0, 1, 2, 3, 4, 5, 6, 7, 8, 10, 14, 11, 12, 13, 15, 9], 3),
        (seq![10, 0, 2, 3, 4, 5, 6, 7, 8, 1, 9, 11, 12, 13, 14, 15], 3),
        (seq![9, 10, 2, 3, 4, 5, 6, 7, 8, 0, 1, 11, 12, 13, 14, 15], 4),
        (seq![1, 9, 2, 3, 4, 5, 6, 7, 8, 10, 0, 11, 12, 13, 14, 15], 3),
        (seq![0, 1, 8, 2, 4, 5, 6, 7, 11, 9, 10, 3, 12, 13, 14, 15], 3),
        (seq![0, 1, 11, 8, 4, 5, 6, 7, 3, 9, 10, 2, 12, 13, 14, 15], 4),
        (seq![0, 1, 3, 11, 4, 5, 6, 7, 2, 9, 10, 8, 12, 13, 14, 15], 3),
        (seq![0, 1, 6, 2, 4, 3, 5, 7, 8, 9, 10, 11, 12, 13, 14, 15], 3),
        (seq![0, 1, 5, 6, 4, 2, 3, 7, 8, 9, 10, 11, 12, 13, 14, 15], 4),
        (seq![0, 1, 3, 5, 4, 6, 2, 7, 8, 9, 10, 11, 12, 13, 14, 15], 3),
        (seq![4, 0, 2, 3, 7, 5, 6, 1, 8, 9, 10, 11, 12, 13, 14, 15], 3),
        (seq![7, 4, 2, 3, 1, 5, 6, 0, 8, 9, 10, 11, 12, 13, 14, 15], 4),
        (seq![1, 7, 2, 3, 0, 5, 6, 4, 8, 9, 10, 11, 12, 13, 14, 15], 3),
        (seq![0, 1, 2, 3, 7, 5, 6, 8, 11, 9, 10, 4, 12, 13, 14, 15], 5),
        (seq![0, 1, 2, 3, 8, 5, 6, 11, 4, 9, 10, 7, 12, 13, 14, 15], 6),
        (seq![0, 1, 2, 3, 11, 5, 6, 4, 7, 9, 10, 8, 12, 13, 14, 15], 5),
        (seq![0, 1, 2, 3, 4, 10, 5, 7, 8, 6, 9, 11, 12, 13, 14, 15], 5),
        (seq![0, 1, 2, 3, 4, 9, 10, 7, 8, 5, 6, 11, 12, 13, 14, 15], 6),
        (seq![0, 1, 2, 3, 4, 6, 9, 7, 8, 10, 5, 11, 12, 13, 14, 15], 5),
        (seq![13, 0, 2, 3, 4, 5, 6, 7, 8, 9, 10, 11, 1, 12, 14, 15], 5),
        (seq![12, 13, 2, 3, 4, 5, 6, 7, 8, 9, 10, 11, 0, 1, 14, 15], 6),
        (seq![1, 12, 2, 3, 4, 5, 6, 7, 8, 9, 10, 11, 13, 0, 14, 15], 5),
        (seq![0, 1, 15, 2, 4, 5, 6, 7, 8, 9, 10, 11, 12, 13, 3, 14], 5),
        (seq![0, 1, 14, 15, 4, 5, 6, 7, 8, 9, 10, 11, 12, 13, 2, 3], 6),
        (seq![0, 1, 3, 14, 4, 5, 6, 7, 8, 9, 10, 11, 12, 13, 15, 2], 5),
    ]
}

/// The corner stage moves as vectors.
fn four_corner_moves() -> (r: Vec<(Vec<usize>, i32)>)
    ensures
        table_view(r@) == four_corner_move_table(),
{
    let r: Vec<(Vec<usize>, i32)> = vec![
        (vec![0, 1, 2, 3, 5, 6, 7, 4, 8, 9, 10, 11, 12, 13, 14, 15], 1),
        (vec![0, 1, 2, 3, 7, 4, 5, 6, 8, 9, 10, 11, 12, 13, 14, 15], 1),
        (vec![0, 1, 2, 3, 4, 5, 6, 7, 9, 10, 11, 8, 12, 13, 14, 15], 1),
        (vec![0, 1, 2, 3, 4, 5, 6, 7, 11, 8, 9, 10, 12, 13, 14, 15], 1),
        (vec![0, 1, 2, 3, 4, 5, 6, 7, 8, 9, 10, 11, 13, 14, 15, 12], 1),
        (vec![0, 1, 2, 3, 4, 5, 6, 7, 8, 9, 10, 11, 15, 12, 13, 14], 1),
        (vec![1, 2, 3, 0, 4, 5, 6, 7, 8, 9, 10, 11, 12, 13, 14, 15], 1),
        (vec![3, 0, 1, 2, 4, 5, 6, 7, 8, 9, 10, 11, 12, 13, 14, 15], 1),
        (vec![0, 1, 2, 3, 7, 5, 6, 15, 8, 9, 10, 11, 12, 13, 4, 14], 3),
        (vec![0, 1, 2, 3, 15, 5, 6, 14, 8, 9, 10, 11, 12, 13, 7, 4], 4),
        (vec![0, 1, 2, 3, 14, 5, 6, 4, 8, 9, 10, 11, 12, 13, 15, 7], 3),
        (vec![0, 1, 2, 3, 4, 13, 5, 7, 8, 9, 10, 11, 6, 12, 14, 15], 3),
        (vec![0, 1, 2, 3, 4, 12, 13, 7, 8, 9, 10, 11, 5, 6, 14, 15], 4),
        (vec![0, 1, 2, 3, 4, 6, 12, 7, 8, 9, 10, 11, 13, 5, 14, 15], 3),
        (vec![0, 1, 2, 3, 4, 5, 6, 7, 11, 9, 10, 13, 8, 12, 14, 15], 3),
        (vec![0, 1, 2, 3, 4, 5, 6, 7, 13, 9, 10, 12, 11, 8, 14, 15], 4),
        (vec![0, 1, 2, 3, 4, 5, 6, 7, 12, 9, 10, 8, 13, 11, 14, 15], 3),
        (vec![0, 1, 2, 3, 4, 5, 6, 7, 8, 15, 9, 11, 12, 13, 10, 14], 3),
        (vec![0, 1, 2, 3, 4, 5, 6, 7, 8, 14, 15, 11, 12, 13, 9, 10], 4),
        (vec![0, 1, 2, 3, 4, 5, 6, 7, 8, 10, 14, 11, 12, 13, 15, 9], 3),
        (vec![10, 0, 2, 3, 4, 5, 6, 7, 8, 1, 9, 11, 12, 13, 14, 15], 3),
        (vec![9, 10, 2, 3, 4, 5, 6, 7, 8, 0, 1, 11, 12, 13, 14, 15], 4),
        (vec![1, 9, 2, 3, 4, 5, 6, 7, 8, 10, 0, 11, 12, 13, 14, 15], 3),
        (vec![0, 1, 8, 2, 4, 5, 6, 7, 11, 9, 10, 3, 12, 13, 14, 15], 3),
        (vec![0, 1, 11, 8, 4, 5, 6, 7, 3, 9, 10, 2, 12, 13, 14, 15], 4),
        (vec![0, 1, 3, 11, 4, 5, 6, 7, 2, 9, 10, 8, 12, 13, 14, 15], 3),
        (vec![0, 1, 6, 2, 4, 3, 5, 7, 8, 9, 10, 11, 12, 13, 14, 15], 3),
        (vec![0, 1, 5, 6, 4, 2, 3, 7, 8, 9, 10, 11, 12, 13, 14, 15], 4),
        (vec![0, 1, 3, 5, 4, 6, 2, 7, 8, 9, 10, 11, 12, 13, 14, 15], 3),
        (vec![4, 0, 2, 3, 7, 5, 6, 1, 8, 9, 10, 11, 12, 13, 14, 15], 3),
        (vec![7, 4, 2, 3, 1, 5, 6, 0, 8, 9, 10, 11, 12, 13, 14, 15], 4),
        (vec![1, 7, 2, 3, 0, 5, 6, 4, 8, 9, 10, 11, 12, 13, 14, 15], 3),
        (vec![0, 1, 2, 3, 7, 5, 6, 8, 11, 9, 10, 4, 12, 13, 14, 15], 5),
        (vec![0, 1, 2, 3, 8, 5, 6, 11, 4, 9, 10, 7, 12, 13, 14, 15], 6),
        (vec![0, 1, 2, 3, 11, 5, 6, 4, 7, 9, 10, 8, 12, 13, 14, 15], 5),
        (vec![0, 1, 2, 3, 4, 10, 5, 7, 8, 6, 9, 11, 12, 13, 14, 15], 5),
        (vec![0, 1, 2, 3, 4, 9, 10, 7, 8, 5, 6, 11, 12, 13, 14, 15], 6),
        (vec![0, 1, 2, 3, 4, 6, 9, 7, 8, 10, 5, 11, 12, 13, 14, 15], 5),
        (vec![13, 0, 2, 3, 4, 5, 6, 7, 8, 9, 10, 11, 1, 12, 14, 15], 5),
        (vec![12, 13, 2, 3, 4, 5, 6, 7, 8, 9, 10, 11, 0, 1, 14, 15], 6),
        (vec![1, 12, 2, 3, 4, 5, 6, 7, 8, 9, 10, 11, 13, 0, 14, 15], 5),
        (vec![0, 1, 15, 2, 4, 5, 6, 7, 8, 9, 10, 11, 12, 13, 3, 14], 5),
        (vec![0, 1, 14, 15, 4, 5, 6, 7, 8, 9, 10, 11, 12, 13, 2, 3], 6),
        (vec![0, 1, 3, 14, 4, 5, 6, 7, 8, 9, 10, 11, 12, 13, 15, 2], 5),
    ];
    assert(table_view(r@) =~~= four_corner_move_table());
    r
}

/// The moves of the edge stage on the 16 stickers, with their costs in turns.
pub open spec fn four_edge_move_table() -> Seq<(Seq<usize>, i32)> {
    seq![
        (seq![0, 1, 2, 3, 7, 4, 5, 6, 8, 9, 10, 11, 12, 13, 14, 15], 1),
        (seq![0, 1, 2, 3, 5, 6, 7, 4, 8, 9, 10, 11, 12, 13, 14, 15], 1),
        (seq![0, 1, 2, 3, 4, 5, 6, 7, 11, 8, 9, 10, 12, 13, 14, 15], 1),
        (seq![0, 1, 2, 3, 4, 5, 6, 7, 9, 10, 11, 8, 12, 13, 14, 15], 1),
        (seq![0, 1, 2, 3, 4, 5, 6, 7, 8, 9, 10, 11, 15, 12, 13, 14], 1),
        (seq![0, 1, 2, 3, 4, 5, 6, 7, 8, 9, 10, 11, 13, 14, 15, 12], 1),
        (seq![3, 0, 1, 2, 4, 5, 6, 7, 8, 9, 10, 11, 12, 13, 14, 15], 1),
        (seq![1, 2, 3, 0, 4, 5, 6, 7, 8, 9, 10, 11, 12, 13, 14, 15], 1),
        (seq![0, 1, 2, 3, 7, 4, 14, 6, 8, 9, 10, 11, 12, 13, 15, 5], 7),
        (seq![0, 1, 2, 3, 5, 15, 7, 4, 8, 9, 10, 11, 12, 13, 6, 14], 7),
        (seq![0, 1, 2, 3, 14, 6, 7, 4, 8, 9, 10, 11, 12, 5, 13, 15], 7),
        (seq![0, 1, 2, 3, 7, 13, 5, 6, 8, 9, 10, 11, 12, 14, 4, 15], 7),
        (seq![0, 1, 3, 7, 2, 4, 5, 6, 8, 9, 10, 11, 12, 13, 14, 15], 7),
        (seq![0, 1, 4, 2, 5, 6, 7, 3, 8, 9, 10, 11, 12, 13, 14, 15], 7),
        (seq![0, 7, 1, 3, 5, 6, 2, 4, 8, 9, 10, 11, 12, 13, 14, 15], 7),
        (seq![0, 2, 6, 3, 7, 4, 5, 1, 8, 9, 10, 11, 12, 13, 14, 15], 7),
        (seq![0, 1, 2, 3, 5, 6, 12, 4, 8, 9, 10, 11, 15, 13, 14, 7], 7),
        (seq![0, 1, 2, 3, 7, 4, 5, 15, 8, 9, 10, 11, 6, 13, 14, 12], 7),
        (seq![0, 1, 2, 3, 12, 4, 5, 6, 8, 9, 10, 11, 13, 7, 14, 15], 7),
        (seq![0, 1, 2, 3, 5, 6, 7, 13, 8, 9, 10, 11, 4, 12, 14, 15], 7),
        (seq![3, 1, 2, 5, 0, 6, 7, 4, 8, 9, 10, 11, 12, 13, 14, 15], 7),
        (seq![4, 1, 2, 0, 7, 3, 5, 6, 8, 9, 10, 11, 12, 13, 14, 15], 7),
        (seq![1, 5, 2, 3, 7, 4, 0, 6, 8, 9, 10, 11, 12, 13, 14, 15], 7),
        (seq![6, 0, 2, 3, 5, 1, 7, 4, 8, 9, 10, 11, 12, 13, 14, 15], 7),
        (seq![0, 1, 2, 3, 4, 5, 6, 7, 14, 9, 10, 8, 15, 12, 13, 11], 7),
        (seq![0, 1, 2, 3, 4, 5, 6, 7, 11, 9, 10, 15, 13, 14, 8, 12], 7),
        (seq![0, 1, 2, 3, 4, 5, 6, 7, 8, 9, 14, 10, 13, 11, 15, 12], 7),
        (seq![0, 1, 2, 3, 4, 5, 6, 7, 8, 9, 11, 13, 15, 12, 10, 14], 7),
        (seq![0, 1, 2, 3, 12, 5, 6, 4, 8, 9, 10, 11, 15, 7, 13, 14], 7),
        (seq![0, 1, 2, 3, 7, 5, 6, 13, 8, 9, 10, 11, 4, 14, 15, 12], 7),
        (seq![0, 1, 2, 3, 4, 5, 12, 6, 8, 9, 10, 11, 13, 14, 15, 7], 7),
        (seq![0, 1, 2, 3, 4, 5, 7, 15, 8, 9, 10, 11, 6, 12, 13, 14], 7),
        (seq![0, 1, 2, 3, 4, 5, 6, 7, 12, 8, 10, 11, 13, 14, 15, 9], 7),
        (seq![0, 1, 2, 3, 4, 5, 6, 7, 9, 15, 10, 11, 8, 12, 13, 14], 7),
        (seq![0, 1, 2, 3, 4, 5, 6, 7, 8, 10, 12, 11, 15, 9, 13, 14], 7),
        (seq![0, 1, 2, 3, 4, 5, 6, 7, 8, 13, 9, 11, 10, 14, 15, 12], 7),
        (seq![0, 1, 2, 3, 14, 4, 6, 7, 8, 9, 10, 11, 13, 5, 15, 12], 7),
        (seq![0, 1, 2, 3, 5, 13, 6, 7, 8, 9, 10, 11, 15, 12, 4, 14], 7),
        (seq![0, 1, 2, 3, 4, 6, 14, 7, 8, 9, 10, 11, 15, 12, 13, 5], 7),
        (seq![0, 1, 2, 3, 4, 15, 5, 7, 8, 9, 10, 11, 13, 14, 6, 12], 7),
        (seq![1, 11, 2, 3, 4, 5, 6, 7, 0, 8, 9, 10, 12, 13, 14, 15], 7),
        (seq![8, 0, 2, 3, 4, 5, 6, 7, 9, 10, 11, 1, 12, 13, 14, 15], 7),
        (seq![3, 1, 2, 11, 4, 5, 6, 7, 9, 10, 0, 8, 12, 13, 14, 15], 7),
        (seq![10, 1, 2, 0, 4, 5, 6, 7, 11, 8, 9, 3, 12, 13, 14, 15], 7),
        (seq![0, 1, 2, 3, 4, 5, 6, 7, 11, 8, 12, 10, 13, 9, 14, 15], 7),
        (seq![0, 1, 2, 3, 4, 5, 6, 7, 9, 13, 11, 8, 10, 12, 14, 15], 7),
        (seq![0, 1, 2, 3, 4, 5, 6, 7, 12, 10, 11, 8, 15, 13, 14, 9], 7),
        (seq![0, 1, 2, 3, 4, 5, 6, 7, 11, 15, 9, 10, 8, 13, 14, 12], 7),
        (seq![0, 9, 1, 3, 4, 5, 6, 7, 2, 10, 11, 8, 12, 13, 14, 15], 7),
        (seq![0, 2, 8, 3, 4, 5, 6, 7, 11, 1, 9, 10, 12, 13, 14, 15], 7),
        (seq![0, 1, 3, 9, 4, 5, 6, 7, 11, 8, 2, 10, 12, 13, 14, 15], 7),
        (seq![0, 1, 10, 2, 4, 5, 6, 7, 9, 3, 11, 8, 12, 13, 14, 15], 7),
        (seq![0, 1, 2, 3, 4, 5, 6, 7, 9, 10, 14, 8, 12, 11, 13, 15], 7),
        (seq![0, 1, 2, 3, 4, 5, 6, 7, 11, 8, 9, 13, 12, 14, 10, 15], 7),
        (seq![0, 1, 2, 3, 4, 5, 6, 7, 14, 8, 9, 10, 12, 13, 15, 11], 7),
        (seq![0, 1, 2, 3, 4, 5, 6, 7, 9, 10, 11, 15, 12, 13, 8, 14], 7),
        (seq![3, 5, 1, 2, 4, 6, 0, 7, 8, 9, 10, 11, 12, 13, 14, 15], 7),
        (seq![6, 2, 3, 0, 4, 1, 5, 7, 8, 9, 10, 11, 12, 13, 14, 15], 7),
        (seq![1, 2, 3, 5, 0, 4, 6, 7, 8, 9, 10, 11, 12, 13, 14, 15], 7),
        (seq![4, 0, 1, 2, 5, 3, 6, 7, 8, 9, 10, 11, 12, 13, 14, 15], 7),
        (seq![3, 0, 1, 9, 4, 5, 6, 7, 8, 10, 2, 11, 12, 13, 14, 15], 7),
        (seq![1, 2, 10, 0, 4, 5, 6, 7, 8, 3, 9, 11, 12, 13, 14, 15], 7),
        (seq![1, 9, 3, 0, 4, 5, 6, 7, 2, 8, 10, 11, 12, 13, 14, 15], 7),
        (seq![3, 0, 8, 2, 4, 5, 6, 7, 9, 1, 10, 11, 12, 13, 14, 15], 7),
        (seq![1, 7, 3, 0, 4, 5, 2, 6, 8, 9, 10, 11, 12, 13, 14, 15], 7),
        (seq![3, 0, 6, 2, 4, 5, 7, 1, 8, 9, 10, 11, 12, 13, 14, 15], 7),
        (seq![3, 0, 1, 7, 2, 5, 6, 4, 8, 9, 10, 11, 12, 13, 14, 15], 7),
        (seq![1, 2, 4, 0, 7, 5, 6, 3, 8, 9, 10, 11, 12, 13, 14, 15], 7),
        (seq![1, 2, 3, 11, 4, 5, 6, 7, 8, 9, 0, 10, 12, 13, 14, 15], 7),
        (seq![10, 0, 1, 2, 4, 5, 6, 7, 8, 9, 11, 3, 12, 13, 14, 15], 7),
        (seq![3, 11, 1, 2, 4, 5, 6, 7, 0, 9, 10, 8, 12, 13, 14, 15], 7),
        (seq![8, 2, 3, 0, 4, 5, 6, 7, 11, 9, 10, 1, 12, 13, 14, 15], 7),
        (seq![1, 11, 2, 3, 7, 4, 14, 6, 0, 8, 9, 10, 12, 13, 15, 5], 10),
        (seq![8, 0, 2, 3, 5, 15, 7, 4, 9, 10, 11, 1, 12, 13, 6, 14], 10),
        (seq![3, 1, 2, 11, 14, 6, 7, 4, 9, 10, 0, 8, 12, 5, 13, 15], 10),
        (seq![10, 1, 2, 0, 7, 13, 5, 6, 11, 8, 9, 3, 12, 14, 4, 15], 10),
        (seq![0, 1, 3, 7, 2, 4, 5, 6, 11, 8, 12, 10, 13, 9, 14, 15], 10),
        (seq![0, 1, 4, 2, 5, 6, 7, 3, 9, 13, 11, 8, 10, 12, 14, 15], 10),
        (seq![0, 7, 1, 3, 5, 6, 2, 4, 12, 10, 11, 8, 15, 13, 14, 9], 10),
        (seq![0, 2, 6, 3, 7, 4, 5, 1, 11, 15, 9, 10, 8, 13, 14, 12], 10),
        (seq![0, 9, 1, 3, 5, 6, 12, 4, 2, 10, 11, 8, 15, 13, 14, 7], 10),
        (seq![0, 2, 8, 3, 7, 4, 5, 15, 11, 1, 9, 10, 6, 13, 14, 12], 10),
        (seq![0, 1, 3, 9, 12, 4, 5, 6, 11, 8, 2, 10, 13, 7, 14, 15], 10),
        (seq![0, 1, 10, 2, 5, 6, 7, 13, 9, 3, 11, 8, 4, 12, 14, 15], 10),
        (seq![3, 1, 2, 5, 0, 6, 7, 4, 9, 10, 14, 8, 12, 11, 13, 15], 10),
        (seq![4, 1, 2, 0, 7, 3, 5, 6, 11, 8, 9, 13, 12, 14, 10, 15], 10),
        (seq![1, 5, 2, 3, 7, 4, 0, 6, 14, 8, 9, 10, 12, 13, 15, 11], 10),
        (seq![6, 0, 2, 3, 5, 1, 7, 4, 9, 10, 11, 15, 12, 13, 8, 14], 10),
        (seq![3, 5, 1, 2, 4, 6, 0, 7, 14, 9, 10, 8, 15, 12, 13, 11], 10),
        (seq![6, 2, 3, 0, 4, 1, 5, 7, 11, 9, 10, 15, 13, 14, 8, 12], 10),
        (seq![1, 2, 3, 5, 0, 4, 6, 7, 8, 9, 14, 10, 13, 11, 15, 12], 10),
        (seq![4, 0, 1, 2, 5, 3, 6, 7, 8, 9, 11, 13, 15, 12, 10, 14], 10),
        (seq![3, 0, 1, 9, 12, 5, 6, 4, 8, 10, 2, 11, 15, 7, 13, 14], 10),
        (seq![1, 2, 10, 0, 7, 5, 6, 13, 8, 3, 9, 11, 4, 14, 15, 12], 10),
        (seq![1, 9, 3, 0, 4, 5, 12, 6, 2, 8, 10, 11, 13, 14, 15, 7], 10),
        (seq![3, 0, 8, 2, 4, 5, 7, 15, 9, 1, 10, 11, 6, 12, 13, 14], 10),
        (seq![1, 7, 3, 0, 4, 5, 2, 6, 12, 8, 10, 11, 13, 14, 15, 9], 10),
        (seq![3, 0, 6, 2, 4, 5, 7, 1, 9, 15, 10, 11, 8, 12, 13, 14], 10),
        (seq![3, 0, 1, 7, 2, 5, 6, 4, 8, 10, 12, 11, 15, 9, 13, 14], 10),
        (seq![1, 2, 4, 0, 7, 5, 6, 3, 8, 13, 9, 11, 10, 14, 15, 12], 10),
        (seq![1, 2, 3, 11, 14, 4, 6, 7, 8, 9, 0, 10, 13, 5, 15, 12], 10),
        (seq![10, 0, 1, 2, 5, 13, 6, 7, 8, 9, 11, 3, 15, 12, 4, 14], 10),
        (seq![3, 11, 1, 2, 4, 6, 14, 7, 0, 9, 10, 8, 15, 12, 13, 5], 10),
        (seq![8, 2, 3, 0, 4, 15, 5, 7, 11, 9, 10, 1, 13, 14, 6, 12], 10),
        (seq![0, 1, 2, 3, 7, 4, 11, 6, 5, 9, 10, 8, 12, 13, 14, 15], 11),
        (seq![0, 1, 2, 3, 5, 8, 7, 4, 11, 9, 10, 6, 12, 13, 14, 15], 11),
        (seq![0, 1, 2, 3, 9, 4, 5, 6, 8, 10, 7, 11, 12, 13, 14, 15], 11),
        (seq![0, 1, 2, 3, 5, 6, 7, 10, 8, 4, 9, 11, 12, 13, 14, 15], 11),
        (seq![0, 1, 2, 3, 5, 6, 9, 4, 7, 8, 10, 11, 12, 13, 14, 15], 11),
        (seq![0, 1, 2, 3, 7, 4, 5, 8, 9, 6, 10, 11, 12, 13, 14, 15], 11),
        (seq![0, 1, 2, 3, 11, 6, 7, 4, 8, 9, 5, 10, 12, 13, 14, 15], 11),
        (seq![0, 1, 2, 3, 7, 10, 5, 6, 8, 9, 11, 4, 12, 13, 14, 15], 11),
        (seq![1, 14, 2, 3, 4, 5, 6, 7, 8, 9, 10, 11, 15, 12, 13, 0], 11),
        (seq![15, 0, 2, 3, 4, 5, 6, 7, 8, 9, 10, 11, 13, 14, 1, 12], 11),
        (seq![0, 1, 3, 12, 4, 5, 6, 7, 8, 9, 10, 11, 15, 2, 13, 14], 11),
        (seq![0, 1, 13, 2, 4, 5, 6, 7, 8, 9, 10, 11, 3, 14, 15, 12], 11),
        (seq![0, 12, 1, 3, 4, 5, 6, 7, 8, 9, 10, 11, 13, 14, 15, 2], 11),
        (seq![0, 2, 15, 3, 4, 5, 6, 7, 8, 9, 10, 11, 1, 12, 13, 14], 11),
        (seq![3, 1, 2, 14, 4, 5, 6, 7, 8, 9, 10, 11, 13, 0, 15, 12], 11),
        (seq![13, 1, 2, 0, 4, 5, 6, 7, 8, 9, 10, 11, 15, 12, 3, 14], 11),
        (seq![0, 1, 2, 3, 4, 6, 11, 7, 5, 8, 9, 10, 12, 13, 14, 15], 11),
        (seq![0, 1, 2, 3, 4, 8, 5, 7, 9, 10, 11, 6, 12, 13, 14, 15], 11),
        (seq![0, 1, 2, 3, 9, 5, 6, 4, 11, 8, 7, 10, 12, 13, 14, 15], 11),
        (seq![0, 1, 2, 3, 7, 5, 6, 10, 9, 4, 11, 8, 12, 13, 14, 15], 11),
        (seq![0, 1, 2, 3, 4, 5, 9, 6, 7, 10, 11, 8, 12, 13, 14, 15], 11),
        (seq![0, 1, 2, 3, 4, 5, 7, 8, 11, 6, 9, 10, 12, 13, 14, 15], 11),
        (seq![0, 1, 2, 3, 11, 4, 6, 7, 9, 10, 5, 8, 12, 13, 14, 15], 11),
        (seq![0, 1, 2, 3, 5, 10, 6, 7, 11, 8, 9, 4, 12, 13, 14, 15], 11),
        (seq![3, 14, 1, 2, 4, 5, 6, 7, 8, 9, 10, 11, 12, 13, 15, 0], 11),
        (seq![15, 2, 3, 0, 4, 5, 6, 7, 8, 9, 10, 11, 12, 13, 1, 14], 11),
        (seq![3, 0, 1, 12, 4, 5, 6, 7, 8, 9, 10, 11, 13, 2, 14, 15], 11),
        (seq![1, 2, 13, 0, 4, 5, 6, 7, 8, 9, 10, 11, 3, 12, 14, 15], 11),
        (seq![1, 12, 3, 0, 4, 5, 6, 7, 8, 9, 10, 11, 15, 13, 14, 2], 11),
        (seq![3, 0, 15, 2, 4, 5, 6, 7, 8, 9, 10, 11, 1, 13, 14, 12], 11),
        (seq![1, 2, 3, 14, 4, 5, 6, 7, 8, 9, 10, 11, 12, 0, 13, 15], 11),
        (seq![13, 0, 1, 2, 4, 5, 6, 7, 8, 9, 10, 11, 12, 14, 3, 15], 11),
        (seq![0, 1, 2, 3, 7, 4, 5, 6, 11, 8, 9, 10, 12, 13, 14, 15], 14),
        (seq![0, 1, 2, 3, 5, 6, 7, 4, 9, 10, 11, 8, 12, 13, 14, 15], 14),
        (seq![3, 0, 1, 2, 4, 5, 6, 7, 8, 9, 10, 11, 15, 12, 13, 14], 14),
        (seq![1, 2, 3, 0, 4, 5, 6, 7, 8, 9, 10, 11, 13, 14, 15, 12], 14),
    ]
}

/// The edge stage moves as vectors.
fn four_edge_moves() -> (r: Vec<(Vec<usize>, i32)>)
    ensures
        table_view(r@) == four_edge_move_table(),
{
    let r: Vec<(Vec<usize>, i32)> = vec![
        (vec![0, 1, 2, 3, 7, 4, 5, 6, 8, 9, 10, 11, 12, 13, 14, 15], 1),
        (vec![0, 1, 2, 3, 5, 6, 7, 4, 8, 9, 10, 11, 12, 13, 14, 15], 1),
        (vec![0, 1, 2, 3, 4, 5, 6, 7, 11, 8, 9, 10, 12, 13, 14, 15], 1),
        (vec![0, 1, 2, 3, 4, 5, 6, 7, 9, 10, 11, 8, 12, 13, 14, 15], 1),
        (vec![0, 1, 2, 3, 4, 5, 6, 7, 8, 9, 10, 11, 15, 12, 13, 14], 1),
        (vec![0, 1, 2, 3, 4, 5, 6, 7, 8, 9, 10, 11, 13, 14, 15, 12], 1),
        (vec![3, 0, 1, 2, 4, 5, 6, 7, 8, 9, 10, 11, 12, 13, 14, 15], 1),
        (vec![1, 2, 3, 0, 4, 5, 6, 7, 8, 9, 10, 11, 12, 13, 14, 15], 1),
        (vec![0, 1, 2, 3, 7, 4, 14, 6, 8, 9, 10, 11, 12, 13, 15, 5], 7),
        (vec![0, 1, 2, 3, 5, 15, 7, 4, 8, 9, 10, 11, 12, 13, 6, 14], 7),
        (vec![0, 1, 2, 3, 14, 6, 7, 4, 8, 9, 10, 11, 12, 5, 13, 15], 7),
        (vec![0, 1, 2, 3, 7, 13, 5, 6, 8, 9, 10, 11, 12, 14, 4, 15], 7),
        (vec![0, 1, 3, 7, 2, 4, 5, 6, 8, 9, 10, 11, 12, 13, 14, 15], 7),
        (vec![0, 1, 4, 2, 5, 6, 7, 3, 8, 9, 10, 11, 12, 13, 14, 15], 7),
        (vec![0, 7, 1, 3, 5, 6, 2, 4, 8, 9, 10, 11, 12, 13, 14, 15], 7),
        (vec![0, 2, 6, 3, 7, 4, 5, 1, 8, 9, 10, 11, 12, 13, 14, 15], 7),
        (vec![0, 1, 2, 3, 5, 6, 12, 4, 8, 9, 10, 11, 15, 13, 14, 7], 7),
        (vec![0, 1, 2, 3, 7, 4, 5, 15, 8, 9, 10, 11, 6, 13, 14, 12], 7),
        (vec![0, 1, 2, 3, 12, 4, 5, 6, 8, 9, 10, 11, 13, 7, 14, 15], 7),
        (vec![0, 1, 2, 3, 5, 6, 7, 13, 8, 9, 10, 11, 4, 12, 14, 15], 7),
        (vec![3, 1, 2, 5, 0, 6, 7, 4, 8, 9, 10, 11, 12, 13, 14, 15], 7),
        (vec![4, 1, 2, 0, 7, 3, 5, 6, 8, 9, 10, 11, 12, 13, 14, 15], 7),
        (vec![1, 5, 2, 3, 7, 4, 0, 6, 8, 9, 10, 11, 12, 13, 14, 15], 7),
        (vec![6, 0, 2, 3, 5, 1, 7, 4, 8, 9, 10, 11, 12, 13, 14, 15], 7),
        (vec![0, 1, 2, 3, 4, 5, 6, 7, 14, 9, 10, 8, 15, 12, 13, 11], 7),
        (vec![0, 1, 2, 3, 4, 5, 6, 7, 11, 9, 10, 15, 13, 14, 8, 12], 7),
        (vec![0, 1, 2, 3, 4, 5, 6, 7, 8, 9, 14, 10, 13, 11, 15, 12], 7),
        (vec![0, 1, 2, 3, 4, 5, 6, 7, 8, 9, 11, 13, 15, 12, 10, 14], 7),
        (vec![0, 1, 2, 3, 12, 5, 6, 4, 8, 9, 10, 11, 15, 7, 13, 14], 7),
        (vec![0, 1, 2, 3, 7, 5, 6, 13, 8, 9, 10, 11, 4, 14, 15, 12], 7),
        (vec![0, 1, 2, 3, 4, 5, 12, 6, 8, 9, 10, 11, 13, 14, 15, 7], 7),
        (vec![0, 1, 2, 3, 4, 5, 7, 15, 8, 9, 10, 11, 6, 12, 13, 14], 7),
        (vec![0, 1, 2, 3, 4, 5, 6, 7, 12, 8, 10, 11, 13, 14, 15, 9], 7),
        (vec![0, 1, 2, 3, 4, 5, 6, 7, 9, 15, 10, 11, 8, 12, 13, 14], 7),
        (vec![0, 1, 2, 3, 4, 5, 6, 7, 8, 10, 12, 11, 15, 9, 13, 14], 7),
        (vec![0, 1, 2, 3, 4, 5, 6, 7, 8, 13, 9, 11, 10, 14, 15, 12], 7),
        (vec![0, 1, 2, 3, 14, 4, 6, 7, 8, 9, 10, 11, 13, 5, 15, 12], 7),
        (vec![0, 1, 2, 3, 5, 13, 6, 7, 8, 9, 10, 11, 15, 12, 4, 14], 7),
        (vec![0, 1, 2, 3, 4, 6, 14, 7, 8, 9, 10, 11, 15, 12, 13, 5], 7),
        (vec![0, 1, 2, 3, 4, 15, 5, 7, 8, 9, 10, 11, 13, 14, 6, 12], 7),
        (vec![1, 11, 2, 3, 4, 5, 6, 7, 0, 8, 9, 10, 12, 13, 14, 15], 7),
        (vec![8, 0, 2, 3, 4, 5, 6, 7, 9, 10, 11, 1, 12, 13, 14, 15], 7),
        (vec![3, 1, 2, 11, 4, 5, 6, 7, 9, 10, 0, 8, 12, 13, 14, 15], 7),
        (vec![10, 1, 2, 0, 4, 5, 6, 7, 11, 8, 9, 3, 12, 13, 14, 15], 7),
        (vec![0, 1, 2, 3, 4, 5, 6, 7, 11, 8, 12, 10, 13, 9, 14, 15], 7),
        (vec![0, 1, 2, 3, 4, 5, 6, 7, 9, 13, 11, 8, 10, 12, 14, 15], 7),
        (vec![0, 1, 2, 3, 4, 5, 6, 7, 12, 10, 11, 8, 15, 13, 14, 9], 7),
        (vec![0, 1, 2, 3, 4, 5, 6, 7, 11, 15, 9, 10, 8, 13, 14, 12], 7),
        (vec![0, 9, 1, 3, 4, 5, 6, 7, 2, 10, 11, 8, 12, 13, 14, 15], 7),
        (vec![0, 2, 8, 3, 4, 5, 6, 7, 11, 1, 9, 10, 12, 13, 14, 15], 7),
        (vec![0, 1, 3, 9, 4, 5, 6, 7, 11, 8, 2, 10, 12, 13, 14, 15], 7),
        (vec![0, 1, 10, 2, 4, 5, 6, 7, 9, 3, 11, 8, 12, 13, 14, 15], 7),
        (vec![0, 1, 2, 3, 4, 5, 6, 7, 9, 10, 14, 8, 12, 11, 13, 15], 7),
        (vec![0, 1, 2, 3, 4, 5, 6, 7, 11, 8, 9, 13, 12, 14, 10, 15], 7),
        (vec![0, 1, 2, 3, 4, 5, 6, 7, 14, 8, 9, 10, 12, 13, 15, 11], 7),
        (vec![0, 1, 2, 3, 4, 5, 6, 7, 9, 10, 11, 15, 12, 13, 8, 14], 7),
        (vec![3, 5, 1, 2, 4, 6, 0, 7, 8, 9, 10, 11, 12, 13, 14, 15], 7),
        (vec![6, 2, 3, 0, 4, 1, 5, 7, 8, 9, 10, 11, 12, 13, 14, 15], 7),
        (vec![1, 2, 3, 5, 0, 4, 6, 7, 8, 9, 10, 11, 12, 13, 14, 15], 7),
        (vec![4, 0, 1, 2, 5, 3, 6, 7, 8, 9, 10, 11, 12, 13, 14, 15], 7),
        (vec![3, 0, 1, 9, 4, 5, 6, 7, 8, 10, 2, 11, 12, 13, 14, 15], 7),
        (vec![1, 2, 10, 0, 4, 5, 6, 7, 8, 3, 9, 11, 12, 13, 14, 15], 7),
        (vec![1, 9, 3, 0, 4, 5, 6, 7, 2, 8, 10, 11, 12, 13, 14, 15], 7),
        (vec![3, 0, 8, 2, 4, 5, 6, 7, 9, 1, 10, 11, 12, 13, 14, 15], 7),
        (vec![1, 7, 3, 0, 4, 5, 2, 6, 8, 9, 10, 11, 12, 13, 14, 15], 7),
        (vec![3, 0, 6, 2, 4, 5, 7, 1, 8, 9, 10, 11, 12, 13, 14, 15], 7),
        (vec![3, 0, 1, 7, 2, 5, 6, 4, 8, 9, 10, 11, 12, 13, 14, 15], 7),
        (vec![1, 2, 4, 0, 7, 5, 6, 3, 8, 9, 10, 11, 12, 13, 14, 15], 7),
        (vec![1, 2, 3, 11, 4, 5, 6, 7, 8, 9, 0, 10, 12, 13, 14, 15], 7),
        (vec![10, 0, 1, 2, 4, 5, 6, 7, 8, 9, 11, 3, 12, 13, 14, 15], 7),
        (vec![3, 11, 1, 2, 4, 5, 6, 7, 0, 9, 10, 8, 12, 13, 14, 15], 7),
        (vec![8, 2, 3, 0, 4, 5, 6, 7, 11, 9, 10, 1, 12, 13, 14, 15], 7),
        (vec![1, 11, 2, 3, 7, 4, 14, 6, 0, 8, 9, 10, 12, 13, 15, 5], 10),
        (vec![8, 0, 2, 3, 5, 15, 7, 4, 9, 10, 11, 1, 12, 13, 6, 14], 10),
        (vec![3, 1, 2, 11, 14, 6, 7, 4, 9, 10, 0, 8, 12, 5, 13, 15], 10),
        (vec![10, 1, 2, 0, 7, 13, 5, 6, 11, 8, 9, 3, 12, 14, 4, 15], 10),
        (vec![0, 1, 3, 7, 2, 4, 5, 6, 11, 8, 12, 10, 13, 9, 14, 15], 10),
        (vec![0, 1, 4, 2, 5, 6, 7, 3, 9, 13, 11, 8, 10, 12, 14, 15], 10),
        (vec![0, 7, 1, 3, 5, 6, 2, 4, 12, 10, 11, 8, 15, 13, 14, 9], 10),
        (vec![0, 2, 6, 3, 7, 4, 5, 1, 11, 15, 9, 10, 8, 13, 14, 12], 10),
        (vec![0, 9, 1, 3, 5, 6, 12, 4, 2, 10, 11, 8, 15, 13, 14, 7], 10),
        (vec![0, 2, 8, 3, 7, 4, 5, 15, 11, 1, 9, 10, 6, 13, 14, 12], 10),
        (vec![0, 1, 3, 9, 12, 4, 5, 6, 11, 8, 2, 10, 13, 7, 14, 15], 10),
        (vec![0, 1, 10, 2, 5, 6, 7, 13, 9, 3, 11, 8, 4, 12, 14, 15], 10),
        (vec![3, 1, 2, 5, 0, 6, 7, 4, 9, 10, 14, 8, 12, 11, 13, 15], 10),
        (vec![4, 1, 2, 0, 7, 3, 5, 6, 11, 8, 9, 13, 12, 14, 10, 15], 10),
        (vec![1, 5, 2, 3, 7, 4, 0, 6, 14, 8, 9, 10, 12, 13, 15, 11], 10),
        (vec![6, 0, 2, 3, 5, 1, 7, 4, 9, 10, 11, 15, 12, 13, 8, 14], 10),
        (vec![3, 5, 1, 2, 4, 6, 0, 7, 14, 9, 10, 8, 15, 12, 13, 11], 10),
        (vec![6, 2, 3, 0, 4, 1, 5, 7, 11, 9, 10, 15, 13, 14, 8, 12], 10),
        (vec![1, 2, 3, 5, 0, 4, 6, 7, 8, 9, 14, 10, 13, 11, 15, 12], 10),
        (vec![4, 0, 1, 2, 5, 3, 6, 7, 8, 9, 11, 13, 15, 12, 10, 14], 10),
        (vec![3, 0, 1, 9, 12, 5, 6, 4, 8, 10, 2, 11, 15, 7, 13, 14], 10),
        (vec![1, 2, 10, 0, 7, 5, 6, 13, 8, 3, 9, 11, 4, 14, 15, 12], 10),
        (vec![1, 9, 3, 0, 4, 5, 12, 6, 2, 8, 10, 11, 13, 14, 15, 7], 10),
        (vec![3, 0, 8, 2, 4, 5, 7, 15, 9, 1, 10, 11, 6, 12, 13, 14], 10),
        (vec![1, 7, 3, 0, 4, 5, 2, 6, 12, 8, 10, 11, 13, 14, 15, 9], 10),
        (vec![3, 0, 6, 2, 4, 5, 7, 1, 9, 15, 10, 11, 8, 12, 13, 14], 10),
        (vec![3, 0, 1, 7, 2, 5, 6, 4, 8, 10, 12, 11, 15, 9, 13, 14], 10),
        (vec![1, 2, 4, 0, 7, 5, 6, 3, 8, 13, 9, 11, 10, 14, 15, 12], 10),
        (vec![1, 2, 3, 11, 14, 4, 6, 7, 8, 9, 0, 10, 13, 5, 15, 12], 10),
        (vec![10, 0, 1, 2, 5, 13, 6, 7, 8, 9, 11, 3, 15, 12, 4, 14], 10),
        (vec![3, 11, 1, 2, 4, 6, 14, 7, 0, 9, 10, 8, 15, 12, 13, 5], 10),
        (vec![8, 2, 3, 0, 4, 15, 5, 7, 11, 9, 10, 1, 13, 14, 6, 12], 10),
        (vec![0, 1, 2, 3, 7, 4, 11, 6, 5, 9, 10, 8, 12, 13, 14, 15], 11),
        (vec![0, 1, 2, 3, 5, 8, 7, 4, 11, 9, 10, 6, 12, 13, 14, 15], 11),
        (vec![0, 1, 2, 3, 9, 4, 5, 6, 8, 10, 7, 11, 12, 13, 14, 15], 11),
        (vec![0, 1, 2, 3, 5, 6, 7, 10, 8, 4, 9, 11, 12, 13, 14, 15], 11),
        (vec![0, 1, 2, 3, 5, 6, 9, 4, 7, 8, 10, 11, 12, 13, 14, 15], 11),
        (vec![0, 1, 2, 3, 7, 4, 5, 8, 9, 6, 10, 11, 12, 13, 14, 15], 11),
        (vec![0, 1, 2, 3, 11, 6, 7, 4, 8, 9, 5, 10, 12, 13, 14, 15], 11),
        (vec![0, 1, 2, 3, 7, 10, 5, 6, 8, 9, 11, 4, 12, 13, 14, 15], 11),
        (vec![1, 14, 2, 3, 4, 5, 6, 7, 8, 9, 10, 11, 15, 12, 13, 0], 11),
        (vec![15, 0, 2, 3, 4, 5, 6, 7, 8, 9, 10, 11, 13, 14, 1, 12], 11),
        (vec![0, 1, 3, 12, 4, 5, 6, 7, 8, 9, 10, 11, 15, 2, 13, 14], 11),
        (vec![0, 1, 13, 2, 4, 5, 6, 7, 8, 9, 10, 11, 3, 14, 15, 12], 11),
        (vec![0, 12, 1, 3, 4, 5, 6, 7, 8, 9, 10, 11, 13, 14, 15, 2], 11),
        (vec![0, 2, 15, 3, 4, 5, 6, 7, 8, 9, 10, 11, 1, 12, 13, 14], 11),
        (vec![3, 1, 2, 14, 4, 5, 6, 7, 8, 9, 10, 11, 13, 0, 15, 12], 11),
        (vec![13, 1, 2, 0, 4, 5, 6, 7, 8, 9, 10, 11, 15, 12, 3, 14], 11),
        (vec![0, 1, 2, 3, 4, 6, 11, 7, 5, 8, 9, 10, 12, 13, 14, 15], 11),
        (vec![0, 1, 2, 3, 4, 8, 5, 7, 9, 10, 11, 6, 12, 13, 14, 15], 11),
        (vec![0, 1, 2, 3, 9, 5, 6, 4, 11, 8, 7, 10, 12, 13, 14, 15], 11),
        (vec![0, 1, 2, 3, 7, 5, 6, 10, 9, 4, 11, 8, 12, 13, 14, 15], 11),
        (vec![0, 1, 2, 3, 4, 5, 9, 6, 7, 10, 11, 8, 12, 13, 14, 15], 11),
        (vec![0, 1, 2, 3, 4, 5, 7, 8, 11, 6, 9, 10, 12, 13, 14, 15], 11),
        (vec![0, 1, 2, 3, 11, 4, 6, 7, 9, 10, 5, 8, 12, 13, 14, 15], 11),
        (vec![0, 1, 2, 3, 5, 10, 6, 7, 11, 8, 9, 4, 12, 13, 14, 15], 11),
        (vec![3, 14, 1, 2, 4, 5, 6, 7, 8, 9, 10, 11, 12, 13, 15, 0], 11),
        (vec![15, 2, 3, 0, 4, 5, 6, 7, 8, 9, 10, 11, 12, 13, 1, 14], 11),
        (vec![3, 0, 1, 12, 4, 5, 6, 7, 8, 9, 10, 11, 13, 2, 14, 15], 11),
        (vec![1, 2, 13, 0, 4, 5, 6, 7, 8, 9, 10, 11, 3, 12, 14, 15], 11),
        (vec![1, 12, 3, 0, 4, 5, 6, 7, 8, 9, 10, 11, 15, 13, 14, 2], 11),
        (vec![3, 0, 15, 2, 4, 5, 6, 7, 8, 9, 10, 11, 1, 13, 14, 12], 11),
        (vec![1, 2, 3, 14, 4, 5, 6, 7, 8, 9, 10, 11, 12, 0, 13, 15], 11),
        (vec![13, 0, 1, 2, 4, 5, 6, 7, 8, 9, 10, 11, 12, 14, 3, 15], 11),
        (vec![0, 1, 2, 3, 7, 4, 5, 6, 11, 8, 9, 10, 12, 13, 14, 15], 14),
        (vec![0, 1, 2, 3, 5, 6, 7, 4, 9, 10, 11, 8, 12, 13, 14, 15], 14),
        (vec![3, 0, 1, 2, 4, 5, 6, 7, 8, 9, 10, 11, 15, 12, 13, 14], 14),
        (vec![1, 2, 3, 0, 4, 5, 6, 7, 8, 9, 10, 11, 13, 14, 15, 12], 14),
    ];
    assert(table_view(r@) =~~= four_edge_move_table());
    r
}

/// Whether every move of the table acts on the 16 stickers and costs at least one turn.
#[verifier::spinoff_prover]
fn moves_ok(actions: &Vec<(Vec<usize>, i32)>) -> (b: bool)
    ensures
        b == move_costs_ok(table_view(actions@)),
{
    let ghost tv = table_view(actions@);
    let mut k: usize = 0;
    while k < actions.len()
        invariant
            k <= actions.len(),
            tv == table_view(actions@),
            tv.len() == actions.len(),
            forall|m: int| 0 <= m < k ==> sticker_move(#[trigger] tv[m].0) && tv[m].1 >= 1,
        decreases actions.len() - k,
    {
        let a = &actions[k].0;
        let c = actions[k].1;
        assert(tv[k as int] == (a@, c));
        if a.len() < 16 || c < 1 {
            assert(!(sticker_move(tv[k as int].0) && tv[k as int].1 >= 1));
            return false;
        }
        let mut i: usize = 0;
        while i < 16
            invariant
                i <= 16 <= a.len(),
                k < actions.len(),
                tv == table_view(actions@),
                tv.len() == actions.len(),
                tv[k as int] == (a@, c),
                c >= 1,
                forall|m: int| 0 <= m < k ==> sticker_move(#[trigger] tv[m].0) && tv[m].1 >= 1,
                forall|j: int| 0 <= j < i ==> #[trigger] a@[j] < 16,
            decreases 16 - i,
        {
            if a[i] >= 16 {
                assert(!(a@[i as int] < 16));
                assert(!sticker_move(tv[k as int].0));
                return false;
            }
            i = i + 1;
        }
        assert(sticker_move(tv[k as int].0));
        assert(tv[k as int].1 == c);
        assert forall|m: int| 0 <= m < k + 1 implies sticker_move(#[trigger] tv[m].0) && tv[m].1 >= 1 by {
            if m == k {
                assert(tv[k as int].1 == c);
            }
        }
        k = k + 1;
    }
    assert forall|m: int| 0 <= m < tv.len() implies sticker_move(#[trigger] tv[m].0) && tv[m].1 >= 1 by {}
    assert(move_costs_ok(tv));
    assert(tv == table_view(actions@));
    true
}

/// The solved position: stickers `4k` to `4k + 3` hold class `k`.
pub open spec fn solved_four() -> Seq<usize> {
    seq![0, 0, 0, 0, 1, 1, 1, 1, 2, 2, 2, 2, 3, 3, 3, 3]
}

/// What a search over the four-class positions with the table `moves` gives
/// back: predecessor tables along cheapest paths from the solved position
/// (`cheapest_tables`, for a map from each position to its place), one
/// entry per position of `four_class_packs`, with no predecessor at the
/// solved position, and a step at every position reached from it.
pub open spec fn four_faces_tree(
    moves: Seq<(Seq<usize>, i32)>,
    prev_state: Seq<Option<usize>>,
    prev_action: Seq<Option<usize>>,
) -> bool {
    &&& path_tables(four_class_packs(), moves, prev_state, prev_action)
    &&& exists|i: int|
        0 <= i < four_class_packs().len() && four_class_packs()[i] == packed_bits(solved_four())
            && (#[trigger] prev_state[i]) is None
    &&& exists|map: Map<u32, usize>, cost: Seq<i32>|
        #[trigger] cheapest_tables(four_class_packs(), map, moves, prev_state, prev_action, map[packed_bits(solved_four())] as int, cost)
            && map_indexes(four_class_packs(), map) && map.contains_key(packed_bits(solved_four()))
}

/// Some move of `moves` takes a four-class position to a packed value that
/// is not one.
pub open spec fn leaves_packs(moves: Seq<(Seq<usize>, i32)>) -> bool {
    exists|i: int, a: int|
        0 <= i < four_class_packs().len() && 0 <= a < moves.len() && !four_class_packs().contains(
            permuted_bits(#[trigger] four_class_packs()[i], #[trigger] moves[a].0, 16),
        )
}

/// Why a search over the four-class positions with `moves` fails: a move
/// is not a permutation of the 16 stickers with a positive cost, the solved
/// position is not one of them, or a move leaves them.
pub open spec fn four_search_fails(moves: Seq<(Seq<usize>, i32)>) -> bool {
    ||| !move_costs_ok(moves)
    ||| !four_class_packs().contains(packed_bits(solved_four()))
    ||| leaves_packs(moves)
}

/// Searches the four-class positions from the solved one with `moves`.
/// `None` when a move is not a permutation index table of the 16 stickers
/// with a positive cost, or leads out of the positions.
fn search_four_faces(moves: &Vec<(Vec<usize>, i32)>) -> (r: Option<
    (Vec<Option<usize>>, Vec<Option<usize>>),
>)
    ensures
        match r {
            Some((ps, pa)) => four_faces_tree(table_view(moves@), ps@, pa@),
            None => four_search_fails(table_view(moves@)),
        },
{
    if !moves_ok(moves) {
        return None;
    }
    let (perm_list, perm_map) = gen_perm_map_four_faces_impl();
    let solved: Vec<usize> = vec![0, 0, 0, 0, 1, 1, 1, 1, 2, 2, 2, 2, 3, 3, 3, 3];
    assert(solved@ == solved_four());
    let start = pack_perm_for_four_faces(&solved);
    if !perm_map.contains_key(&start) {
        proof {
            if four_class_packs().contains(start) {
                let k = choose|k: int| 0 <= k < four_class_packs().len() && four_class_packs()[k] == start;
                assert(perm_map@.contains_key(perm_list@[k]));
            }
        }
        return None;
    }
    match dijkstra_packed(start, &perm_list, &perm_map, moves) {
        Some((ps, pa)) => {
            assert(ps@[perm_map@[start] as int] is None);
            proof {
                let cost = choose|cost: Seq<i32>|
                    cheapest_tables(perm_list@, perm_map@, table_view(moves@), ps@, pa@, perm_map@[start] as int, cost);
                assert(cheapest_tables(four_class_packs(), perm_map@, table_view(moves@), ps@, pa@, perm_map@[packed_bits(solved_four())] as int, cost));
            }
            Some((ps, pa))
        },
        None => {
            proof {
                reveal(leaves_map);
                let (i, a) = choose|i: int, a: int|
                    0 <= i < perm_list@.len() && 0 <= a < table_view(moves@).len() && !perm_map@.contains_key(
                        permuted_bits(#[trigger] perm_list@[i], #[trigger] table_view(moves@)[a].0, 16),
                    );
                let x = permuted_bits(perm_list@[i], table_view(moves@)[a].0, 16);
                if four_class_packs().contains(x) {
                    let k = choose|k: int| 0 <= k < four_class_packs().len() && four_class_packs()[k] == x;
                    assert(perm_map@.contains_key(perm_list@[k]));
                }
                assert(!four_class_packs().contains(
                    permuted_bits(four_class_packs()[i], table_view(moves@)[a].0, 16),
                ));
            }
            None
        },
    }
}

/// The search table of the corner stage (`None` only when the search
/// fails, `four_search_fails`).
pub fn bfs_four_corner_impl() -> (r: Option<(Vec<Option<usize>>, Vec<Option<usize>>)>)
    ensures
        match r {
            Some((ps, pa)) => four_faces_tree(four_corner_move_table(), ps@, pa@),
            None => four_search_fails(four_corner_move_table()),
        },
{
    let moves = four_corner_moves();
    search_four_faces(&moves)
}

/// The search table of the edge stage (`None` only when the search fails,
/// `four_search_fails`).
pub fn bfs_four_edge_impl() -> (r: Option<(Vec<Option<usize>>, Vec<Option<usize>>)>)
    ensures
        match r {
            Some((ps, pa)) => four_faces_tree(four_edge_move_table(), ps@, pa@),
            None => four_search_fails(four_edge_move_table()),
        },
{
    let moves = four_edge_moves();
    search_four_faces(&moves)
}

/// The search table of the corner stage; callers that need it more than
/// once keep it.
pub fn bfs_four_corner() -> (r: Option<(Vec<Option<usize>>, Vec<Option<usize>>)>)
    ensures
        match r {
            Some((ps, pa)) => four_faces_tree(four_corner_move_table(), ps@, pa@),
            None => four_search_fails(four_corner_move_table()),
        },
{
    bfs_four_corner_impl()
}

/// The search table of the edge stage; callers that need it more than once
/// keep it.
pub fn bfs_four_edge() -> (r: Option<(Vec<Option<usize>>, Vec<Option<usize>>)>)
    ensures
        match r {
            Some((ps, pa)) => four_faces_tree(four_edge_move_table(), ps@, pa@),
            None => four_search_fails(four_edge_move_table()),
        },
{
    bfs_four_edge_impl()
}

} // verus!
