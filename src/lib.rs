//! A region quadtree over integer grid cells: a sparse set of 2-D points that
//! answers membership and rectangular range queries while points are added and
//! removed one at a time.

pub mod binary_query;
pub mod binary_square;
pub mod binary_tree;
pub mod canonical;
pub mod depth;
pub mod global_node;
pub mod life;
pub mod point;
pub mod pow2;
pub mod quadtree;
pub mod quarter;
pub mod region;
pub mod sorted;
pub mod tree;
pub mod update_list;
pub mod utils;
pub mod xy_generator;

pub use binary_query::binary_query;
pub use binary_square::BinarySquare;
pub use binary_tree::BinaryTree;
pub use global_node::GlobalNode;
pub use point::Point;
pub use quadtree::{GlobalQuadtree, Quadtree};
pub use quarter::{global_quarter, Quarter};
pub use region::{Bound, Holds, Overlaps, Rect};
pub use tree::{SquareNode, Tree};
pub use update_list::UpdateList;
pub use utils::{cmp_xy_order, cmp_zorder, next_power_of_2};
pub use xy_generator::{first_in, last_in, XYGenerator};
