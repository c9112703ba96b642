//! Fixed-capacity associative containers whose backing storage is chosen from
//! the shape of the key type.
//!
//! A key type with a small, statically known set of inhabitants is bound to a
//! storage that holds exactly one slot per inhabitant, so that every operation
//! is a direct indexed access.

pub mod iter;
pub mod key;
pub mod laws;
pub mod map;
pub mod model;
pub mod set;

pub use crate::iter::{Iter, KeyIter};
pub use crate::key::{Composite, Key, Ordinal, PlainKey, Unit};
pub use crate::map::entry::{Entry, Occupied, Vacant};
pub use crate::map::storage::array::ArrayMapStorage;
pub use crate::map::storage::boolean::{BooleanMapStorage, Keys};
pub use crate::map::storage::composite::CompositeStorage;
pub use crate::map::storage::option::OptionStorage;
pub use crate::map::storage::unit::UnitMapStorage;
pub use crate::map::storage::MapStorage;
pub use crate::map::{FixedMap, MapKey};
pub use crate::set::storage::bitset::BitsetStorage;
pub use crate::set::storage::mapped::MapSetStorage;
pub use crate::set::storage::{SetAlgebra, SetStorage};
pub use crate::set::word::Word;
pub use crate::set::FixedSet;
