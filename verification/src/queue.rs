//! Priority queues that hold keys under small integer indices.

pub mod index_binary_heap;
pub mod index_min_pq;
