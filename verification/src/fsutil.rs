//! Small file system predicates that the scanners and the deletion engine share.
//!
//! On Windows, junctions and other reparse points are not ordinary symbolic links. Taking one for a
//! directory can make a recursive walk leave the intended tree, so they count as links.

use vstd::prelude::*;

verus! {

/// The bit of a file's Windows attributes that marks a reparse point.
pub const REPARSE_POINT: u32 = 0x0400;

/// The reparse point bit of the attributes is set.
pub open spec fn reparse_bit(attributes: u32) -> bool {
    (attributes / 0x0400) % 2 == 1
}

/// Whether a file is a reparse point, by its attributes. Other systems than Windows have none.
pub fn is_reparse_point(windows: bool, attributes: u32) -> (r: bool)
    ensures
        r == (windows && reparse_bit(attributes)),
{
    assert((attributes & 0x0400u32 != 0) == ((attributes / 0x0400u32) % 2 == 1)) by (bit_vector);
    windows && attributes & REPARSE_POINT != 0
}

/// Whether a file is a link, or on Windows a reparse point.
pub fn is_link_or_reparse(symlink: bool, windows: bool, attributes: u32) -> (r: bool)
    ensures
        r == (symlink || (windows && reparse_bit(attributes))),
{
    symlink || is_reparse_point(windows, attributes)
}

} // verus!
