//! Lazy generation of the `k`-length combinations of a source whose length is
//! discovered while the combinations are drawn.

pub mod combinations;
pub mod combo;
pub mod lazy_buffer;

pub use combinations::{arrangement, Arrrangement};
pub use lazy_buffer::LazyBuffer;
