//! Games that implement [`Board`](crate::Board), ready to be searched.

pub mod tic_tac_toe_4x4;
pub mod ttt;
