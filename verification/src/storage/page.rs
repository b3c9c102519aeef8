use vstd::prelude::*;

verus! {

/// Identifier of a page; page `n` lives at byte offset `n * PAGE_SIZE` on disk.
pub type PageId = u64;

/// Number of bytes in a page.
pub const PAGE_SIZE: usize = 4096;

/// A fixed-size block of bytes, with the identifier that locates it on disk
/// and a flag recording that it was modified since it was read or written.
#[derive(Debug, Clone)]
pub struct Page {
    pub id: PageId,
    pub data: [u8; 4096],
    pub is_dirty: bool,
}

/// The contents of a fresh page: all zero.
pub open spec fn zero_bytes(n: nat) -> Seq<u8> {
    Seq::new(n, |i: int| 0u8)
}

impl Page {
    /// A clean page with identifier `id` whose bytes are all zero.
    pub fn new(id: PageId) -> (page: Self)
        ensures
            page.id == id,
            page.data@ == zero_bytes(PAGE_SIZE as nat),
            !page.is_dirty,
    {
        let page = Self { id, data: [0u8; 4096], is_dirty: false };
        assert(page.data@ =~= zero_bytes(PAGE_SIZE as nat));
        page
    }

    /// Records that the page was modified.
    pub fn mark_dirty(&mut self)
        ensures
            final(self).is_dirty,
            final(self).id == old(self).id,
            final(self).data == old(self).data,
    {
        self.is_dirty = true;
    }
}

} // verus!
