//! An in-memory, ordered transaction log library.
//!
//! `linked_list` and `doubly_linked_list` hold the two simple first-in
//! first-out logs; `skip_list` holds the offset-ordered log backed by a
//! skip list, with expected-logarithmic search, insert and remove.

pub mod doubly_linked_list;
pub mod linked_list;
pub mod skip_list;
