use vstd::prelude::*;

verus! {

/// File was accessed.
pub const IN_ACCESS: u32 = 0x0000_0001;
/// File was modified.
pub const IN_MODIFY: u32 = 0x0000_0002;
/// Metadata changed.
pub const IN_ATTRIB: u32 = 0x0000_0004;
/// File moved out of the watched directory.
pub const IN_MOVED_FROM: u32 = 0x0000_0040;
/// File moved into the watched directory.
pub const IN_MOVED_TO: u32 = 0x0000_0080;
/// File created in the watched directory.
pub const IN_CREATE: u32 = 0x0000_0100;
/// File deleted from the watched directory.
pub const IN_DELETE: u32 = 0x0000_0200;
/// The watched object itself was deleted.
pub const IN_DELETE_SELF: u32 = 0x0000_0400;
/// The watched object itself was moved.
pub const IN_MOVE_SELF: u32 = 0x0000_0800;
/// The watch was removed: the kernel's last word on a watch.
pub const IN_IGNORED: u32 = 0x0000_8000;
/// Add to an existing watch's mask instead of replacing it.
pub const IN_MASK_ADD: u32 = 0x2000_0000;

/// The mask handed to the kernel for a subscription: the subscriber's mask without the
/// modifier that would merge it into another subscriber's watch.
pub fn os_watch_mask(mask: u32) -> (r: u32)
    ensures
        r == mask & !IN_MASK_ADD,
{
    mask & !IN_MASK_ADD
}

/// Whether a notification with this mask is the last one of its watch.
pub fn is_final_mask(mask: u32) -> (r: bool)
    ensures
        r == (mask & IN_IGNORED != 0),
{
    mask & IN_IGNORED != 0
}

} // verus!
