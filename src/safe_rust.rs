pub mod stack_with_vec;
pub mod binary_heap;
