//! Iterators over the coordinates of a complete N-ary tree, one per
//! traversal order, each using only O(height) auxiliary state. They yield
//! positions, not nodes: what order to visit is settled here, how to access
//! is the caller's or a tree view's business.

pub mod in_order;
pub mod level_order;
pub mod post_order;
pub mod pre_order;

pub use self::in_order::InOrder;
pub use self::level_order::LevelOrder;
pub use self::post_order::PostOrder;
pub use self::pre_order::PreOrder;
