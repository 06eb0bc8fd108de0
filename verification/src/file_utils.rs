//! What the file helpers decide about paths.
use vstd::prelude::*;
use crate::paths::{path_starts_with, starts_with_path};

verus! {

/// A path is a managed link when it is a symbolic link whose target lies inside the group's
/// source directory (component by component).
pub open spec fn managed_link(is_symlink: bool, link_target: Option<Seq<char>>, group_src: Seq<char>) -> bool {
    is_symlink && (link_target matches Some(t) && path_starts_with(t, group_src))
}

/// Whether a path is a link this program made: it is a symbolic link (`is_symlink`) and
/// its target (`link_target`, `None` when it could not be read) lies inside `group_src`.
pub fn is_managed_symlink(is_symlink: bool, link_target: Option<&str>, group_src: &str) -> (res: bool)
    ensures
        res == managed_link(
            is_symlink,
            match link_target {
                Some(t) => Some(t@),
                None => None,
            },
            group_src@,
        ),
{
    if !is_symlink {
        return false;
    }
    match link_target {
        Some(t) => starts_with_path(t, group_src),
        None => false,
    }
}

} // verus!
