pub mod hash_linked_list;
pub mod hash_chaining;
