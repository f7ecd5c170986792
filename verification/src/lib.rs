use vstd::prelude::*;

pub mod text;
pub mod moves;
pub mod cancel;
pub mod pieces;
pub mod perm;
pub mod cube_index;
pub mod cube_seq;
pub mod middle;

pub use cancel::cancel_moves_in_cube;
pub use pieces::{gen_piece_map, list_to_state, state_to_list, PieceMap};

verus! {

/// `i` is the side length of a cube whose state has `l` stickers.
pub open spec fn is_side_of(i: int, l: int) -> bool {
    i * i == l / 6
}

/// Side length of an N x N x N cube whose state has `l` stickers (six faces of N * N).
pub fn calc_dim(l: usize) -> (dim: usize)
    requires
        exists|i: int| 1 <= i < 50 && #[trigger] is_side_of(i, l as int),
    ensures
        1 <= dim < 50,
        is_side_of(dim as int, l as int),
        forall|j: int| 1 <= j < dim ==> !#[trigger] is_side_of(j, l as int),
{
    let mut i: usize = 1;
    while i < 50
        invariant
            1 <= i <= 50,
            forall|j: int| 1 <= j < i ==> !#[trigger] is_side_of(j, l as int),
            exists|i: int| 1 <= i < 50 && #[trigger] is_side_of(i, l as int),
        decreases 50 - i,
    {
        assert(i * i < 2500) by (nonlinear_arith)
            requires
                i < 50,
        ;
        if i * i == l / 6 {
            return i;
        }
        i = i + 1;
    }
    proof {
        let w = choose|w: int| 1 <= w < 50 && #[trigger] is_side_of(w, l as int);
        assert(!is_side_of(w, l as int));
    }
    0
}

} // verus!
pub mod four_faces;
pub mod search;
pub mod four_bfs;
pub mod four_solve;
pub mod globe_sim;
pub mod globe_cost;
pub mod packed_set;
pub mod globe;
pub mod globe_beam;
pub mod globe_first;
pub mod globe_greedy;
pub mod globe_solve;
pub mod cube_text;
pub mod wreath;
pub mod move_table;
pub mod globe_odd;
pub mod green;
pub mod green_solve;
pub mod notation;
pub mod centres;
pub mod wreath_cost;
pub mod wreath_beam;
pub mod cube_finish;
pub mod move_gen;
pub mod centre_rot;
pub mod face_bfs;
pub mod face_solve;
pub mod face_gen;
pub mod answer;
pub mod cube_edge;
pub mod cube_edge_seq;
pub mod edge_table;
