use vstd::prelude::*;

verus! {

/// A criterion that selects entries of a directory.
#[derive(Clone, Copy, Debug)]
pub enum Filter {
    Item(ItemFilter),
    Text(TextFilterBy, &'static str),
    Visibility(VisibilityFilter),
}

/// The kind of an entry, read without following a symbolic link.
#[derive(Clone, Copy, Debug, PartialEq, Eq, Structural)]
pub enum ItemFilter {
    Directory,
    File,
    Symlink,
}

#[derive(Clone, Copy, Debug, PartialEq, Eq, Structural)]
pub enum SizeFilter {
    Bytes,
    Kilobytes,
    Megatbytes,
    Gigabytes,
    Terabytes,
}

/// The part of an entry's name that a text criterion looks at.
#[derive(Clone, Copy, Debug, PartialEq, Eq, Structural)]
pub enum TextFilterBy {
    Extension,
    Name,
}

/// Hidden entries are those whose name starts with a dot.
#[derive(Clone, Copy, Debug, PartialEq, Eq, Structural)]
pub enum VisibilityFilter {
    Hidden,
    Visible,
}

#[derive(Clone, Copy, Debug, PartialEq, Eq, Structural)]
pub enum Comparison {
    LessThan,
    LessThanOrEqual,
    GreaterThan,
    GreaterThanOrEqual,
}

/// A key by which the entries of a directory are ordered.
#[derive(Clone, Copy, Debug, PartialEq, Eq, Structural)]
pub enum OrderBy {
    Extension,
    Item,
    Name,
    Size,
}

} // verus!
