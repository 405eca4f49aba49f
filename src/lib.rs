//! Classic collections with machine-checked contracts: a self-balancing AVL
//! tree, binary heaps, linked lists, stacks, queues and a chained hash map.
pub mod total_order;
pub mod tree_avl;
pub mod safe_rust;
pub mod queue_with_vec;
pub mod linked_list;
pub mod linked_list_singly_tail;
pub mod stack_with_linked_list;
pub mod queue_with_linked_list;
pub mod linked_list_doubly;
pub mod binary_heap;
pub mod hash_key;
pub mod hash_map;
pub mod intersection_of_two_sorted_arrays;

pub use hash_map::hash_chaining::HashMap;
pub use linked_list::LinkedList;
pub use linked_list_doubly::DoublyLinkedList;
pub use linked_list_singly_tail::LinkedListSinglyTail;
pub use queue_with_linked_list::QueueLinkedList;
pub use queue_with_vec::QueueVec;
pub use safe_rust::binary_heap::Heap;
pub use safe_rust::stack_with_vec::StackVec;
pub use stack_with_linked_list::StackLinkedList;
pub use tree_avl::TreeAVL;
