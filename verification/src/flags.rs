//! Mapping-request flags shared with the syscall layer, page-table entry
//! flags, and the translations between the two.

use vstd::prelude::*;

verus! {

/// The flags of a user mapping request. Read permission is implicit and
/// always granted.
#[derive(Clone, Copy, Debug, PartialEq, Eq, Structural)]
pub struct MapFlags {
    /// The pages may be written.
    pub prot_write: bool,
    /// The pages may be executed.
    pub prot_exec: bool,
    /// Honor the requested address exactly, overwriting what is there.
    pub map_fixed: bool,
    /// Honor the requested address exactly, failing if it is occupied.
    pub map_fixed_noreplace: bool,
}

impl MapFlags {
    /// No flag set: a read-only, kernel-placed mapping request.
    pub fn empty() -> (r: Self)
        ensures
            r == (MapFlags {
                prot_write: false,
                prot_exec: false,
                map_fixed: false,
                map_fixed_noreplace: false,
            }),
    {
        MapFlags { prot_write: false, prot_exec: false, map_fixed: false, map_fixed_noreplace: false }
    }
}

/// The flags of one page-table entry.
#[derive(Clone, Copy, Debug, PartialEq, Eq, Structural)]
pub struct PageFlags {
    /// The page is reachable from user mode.
    pub user: bool,
    /// The page is writable.
    pub write: bool,
    /// The page is executable.
    pub execute: bool,
    /// The page uses write-combining caching (framebuffers).
    pub write_combining: bool,
}

impl PageFlags {
    /// A kernel-only, read-only, no-execute entry.
    pub fn new() -> (r: Self)
        ensures
            r == (PageFlags { user: false, write: false, execute: false, write_combining: false }),
    {
        PageFlags { user: false, write: false, execute: false, write_combining: false }
    }

    /// The same flags with the user bit set as given.
    pub fn user(self, value: bool) -> (r: Self)
        ensures
            r == (PageFlags { user: value, ..self }),
    {
        PageFlags { user: value, ..self }
    }

    /// The same flags with the write bit set as given.
    pub fn write(self, value: bool) -> (r: Self)
        ensures
            r == (PageFlags { write: value, ..self }),
    {
        PageFlags { write: value, ..self }
    }

    /// The same flags with the execute bit set as given.
    pub fn execute(self, value: bool) -> (r: Self)
        ensures
            r == (PageFlags { execute: value, ..self }),
    {
        PageFlags { execute: value, ..self }
    }

    /// The same flags with the write-combining bit set as given.
    pub fn write_combining(self, value: bool) -> (r: Self)
        ensures
            r == (PageFlags { write_combining: value, ..self }),
    {
        PageFlags { write_combining: value, ..self }
    }

    pub fn has_write(&self) -> (r: bool)
        ensures
            r == self.write,
    {
        self.write
    }

    pub fn has_execute(&self) -> (r: bool)
        ensures
            r == self.execute,
    {
        self.execute
    }
}

/// The page-table entry flags a user mapping request asks for: always a user
/// page, writable and executable as requested.
pub fn page_flags(flags: MapFlags) -> (r: PageFlags)
    ensures
        r == (PageFlags {
            user: true,
            write: flags.prot_write,
            execute: flags.prot_exec,
            write_combining: false,
        }),
{
    PageFlags::new().user(true).execute(flags.prot_exec).write(flags.prot_write)
}

/// The mapping-request flags that describe existing page-table entry flags;
/// read permission is always reported.
pub fn map_flags(page_flags: PageFlags) -> (r: MapFlags)
    ensures
        r == (MapFlags {
            prot_write: page_flags.write,
            prot_exec: page_flags.execute,
            map_fixed: false,
            map_fixed_noreplace: false,
        }),
{
    let mut flags = MapFlags::empty();
    if page_flags.has_write() {
        flags.prot_write = true;
    }
    if page_flags.has_execute() {
        flags.prot_exec = true;
    }
    flags
}

/// What the entry flags of a kernel virtual address are during identity and
/// physmap mapping: executable and read-only inside the kernel text,
/// read-only and no-execute inside the read-only data, read-write and
/// no-execute elsewhere.
pub open spec fn spec_kernel_page_flags(
    virt: u64,
    text_start: u64,
    text_end: u64,
    rodata_start: u64,
    rodata_end: u64,
) -> PageFlags {
    if text_start <= virt < text_end {
        PageFlags { user: false, write: false, execute: true, write_combining: false }
    } else if rodata_start <= virt < rodata_end {
        PageFlags { user: false, write: false, execute: false, write_combining: false }
    } else {
        PageFlags { user: false, write: true, execute: false, write_combining: false }
    }
}

/// Derive the entry flags for a kernel virtual address from the kernel
/// image's text and read-only-data extents.
pub fn kernel_page_flags(
    virt: u64,
    text_start: u64,
    text_end: u64,
    rodata_start: u64,
    rodata_end: u64,
) -> (r: PageFlags)
    ensures
        r == spec_kernel_page_flags(virt, text_start, text_end, rodata_start, rodata_end),
{
    if virt >= text_start && virt < text_end {
        PageFlags::new().execute(true)
    } else if virt >= rodata_start && virt < rodata_end {
        PageFlags::new()
    } else {
        PageFlags::new().write(true)
    }
}

} // verus!
