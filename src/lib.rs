//! Typed, namespaced, order-preserving key-value collections over a flat byte store.
pub mod bound;
pub mod codec;
pub mod error;
pub mod indexed_map;
pub mod indexes;
pub mod item;
pub mod map;
pub mod namespace;
pub mod order;
pub mod path;
pub mod prefix;
pub mod snapshot;
pub mod store;
pub mod value;

pub use bound::RawBound;
pub use error::StorageError;
pub use indexed_map::IndexedMap;
pub use indexes::{Index, MultiIndex, UniqueIndex};
pub use item::Item;
pub use map::StorageMap;
pub use namespace::Namespace;
pub use path::Path;
pub use prefix::{range_with_prefix, Prefix};
pub use snapshot::{ChangeSet, IntervalStrategy, Snapshot, Strategy};
pub use store::{Order, Store};
