//! A doubly linked sequence container without sentinel nodes.
//!
//! Each node carries a tag naming its structural role (first boundary,
//! interior, last boundary), and the whole container is a small closed
//! state machine over Empty, Unit and Multi shapes, so that zero and one
//! element need no heap node at all.  Links are arena indices rather than
//! raw pointers: the forward direction is the owning one, the backward
//! direction is a lookup-only back-reference, and both must agree after
//! every mutation.

pub mod double;

pub use double::DLList;
