//! Traversal walks over any complete-tree view: their mathematical order
//! definitions, and walkers that hand out one node per visited coordinate.

pub mod in_order;
pub mod level_order;
pub mod orders;
pub mod post_order;
pub mod pre_order;

pub use self::in_order::TraverseInOrder;
pub use self::level_order::LevelOrder;
pub use self::post_order::PostOrder;
pub use self::pre_order::PreOrder;
pub use self::orders::{in_order_seq, level_order_seq, post_order_seq, pre_order_seq};
pub use self::orders::{
    lemma_in_order_covers, lemma_level_order_covers, lemma_post_order_covers,
    lemma_pre_order_covers,
};
