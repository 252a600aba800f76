//! A general-purpose memory allocator over plain addresses.
//!
//! The allocator has three strategies: a bump-pointer arena over fixed-size
//! chunks (`arena`), size-classed slab free lists (`slab`), and a power-of-two
//! buddy system (`buddy`). A dispatcher (`hybrid`) routes every request to the
//! arena or the slab strategy by its size and alignment and keeps a list of
//! the blocks too large for either; `global` is the handle over the one
//! dispatcher of a process. Memory itself is reserved by the embedding
//! program: the library decides where every block goes, and its contracts
//! say that blocks in use never overlap.
//!
//! Three small modules stand beside the allocator: keyed caches (`cache`), a
//! ledger account (`ledger`) and a guard for transfers between users
//! (`txguard`).

pub mod arena;
pub mod buddy;
pub mod cache;
pub mod global;
pub mod hybrid;
pub mod layout;
pub mod ledger;
pub mod slab;
pub mod txguard;
