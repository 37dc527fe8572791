//! An ordered container of distinct integer keys, balanced as a treap: a
//! binary search tree on the keys that is a max-heap on priorities drawn
//! at random. It inserts a key, deletes a key, and finds the key of a given
//! rank, counting from the greatest.
//!
//! - [`model`] says what the container is as a mathematical value: an
//!   increasing sequence of `(key, priority)` entries.
//! - [`treap`] holds the tree and its operations, each with a contract over
//!   the model.
//! - [`laws`] and [`lemmas`] hold what is proved of the model.
//! - [`random`] is the generator of priorities.
//! - [`session`] drives one container by numbered requests.
//! - [`input`] reads the words and numbers of a request stream.

pub mod input;
pub mod laws;
pub mod lemmas;
pub mod model;
pub mod random;
pub mod session;
pub mod treap;
