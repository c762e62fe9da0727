pub mod enums;
pub mod file_set;
pub mod file_set_laws;
pub mod orderable_set;
pub mod ordered_set;

pub use enums::{Comparison, Filter, ItemFilter, OrderBy, SizeFilter, TextFilterBy, VisibilityFilter};
pub use file_set::{EntryInfo, EntryKind, FileSet};
pub use orderable_set::OrderableSet;
pub use ordered_set::OrderedSet;
