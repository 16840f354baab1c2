pub mod bidirectional_map;
pub mod bottom_up_level_traversal;
pub mod bst_to_dll;
pub mod bst_validation;
pub mod floor_ceil_bst;
pub mod indexingweb;
pub mod lca_tree;
pub mod level_order;
pub mod lfu;
pub mod lfu_model;
pub mod max_level_sum_tree;
pub mod spell_check;
pub mod string_map;
pub mod tree;
pub mod tree_similarity;
pub mod words;
pub mod zig_zag_traversal;
pub mod zig_zag_traversal_annotated_errors;
