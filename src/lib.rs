pub mod heap;
pub mod order;
pub mod tree;

pub use heap::heap_sort;
pub use heap::heapify;
pub use heap::make_heap;
pub use tree::level_bands;
