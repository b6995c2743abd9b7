//! A store that is mounted read-only is remounted before it is changed.
use vstd::prelude::*;

verus! {

/// Flags of a mounted file system that a remount must keep.
#[derive(Clone, Copy, PartialEq, Eq, Structural)]
pub struct MountFlags {
    pub nodev: bool,
    pub nosuid: bool,
    pub noexec: bool,
    pub noatime: bool,
    pub nodiratime: bool,
    pub relatime: bool,
    pub synchronous: bool,
}

/// What is known of the mount that the store lies on.
#[derive(Clone, Copy)]
pub struct StoreMount {
    pub read_only: bool,
    pub flags: MountFlags,
}

/// Whether the store must be remounted writable, and with which flags: locked
/// flags are kept, or the remount fails in a user namespace. Without the rights
/// of root nothing is done.
pub fn make_store_writable(is_root: bool, mount: &StoreMount) -> (r: Option<MountFlags>)
    ensures
        r == if is_root && mount.read_only {
            Some(mount.flags)
        } else {
            None
        },
{
    if !is_root {
        return None;
    }
    if !mount.read_only {
        return None;
    }
    Some(mount.flags)
}

/// A step towards a private mount namespace.
#[derive(Clone, Copy, PartialEq, Eq, Structural)]
pub enum NamespaceStep {
    /// Nothing is left to do.
    Done,
    /// Leave the shared namespace.
    Unshare,
    /// Mark the mounts private, so that a remount does not show outside.
    MarkPrivate,
}

/// What to do next so that a remount stays private. `unshared` tells how the
/// attempt to leave the shared namespace went, once it was made; if it failed,
/// the store is remounted where it is.
pub fn unshare_mount_namespace(is_root: bool, unshared: Option<bool>) -> (r: NamespaceStep)
    ensures
        r == if !is_root {
            NamespaceStep::Done
        } else {
            match unshared {
                None => NamespaceStep::Unshare,
                Some(true) => NamespaceStep::MarkPrivate,
                Some(false) => NamespaceStep::Done,
            }
        },
{
    if !is_root {
        return NamespaceStep::Done;
    }
    match unshared {
        None => NamespaceStep::Unshare,
        Some(done) => {
            if done {
                NamespaceStep::MarkPrivate
            } else {
                NamespaceStep::Done
            }
        },
    }
}

} // verus!
