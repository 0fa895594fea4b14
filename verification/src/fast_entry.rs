//! File names collected from the entries of a master file table.
use vstd::prelude::*;

verus! {

/// One `FILE_NAME` attribute of an entry.
#[derive(Clone, Copy, Debug)]
pub struct FileNameRef<'a> {
    /// Reference to the parent directory: the entry number in the low 48 bits, a sequence
    /// number above.
    pub parent_ref: u64,
    /// Namespace code: 0 is POSIX, 1 Win32, 2 DOS, 3 Win32 and DOS.
    pub namespace: u8,
    /// The name, in UTF-16 code units.
    pub name_utf16: &'a [u16],
}

/// The file names of every entry, in the order in which they were collected.
#[derive(Debug)]
pub struct FileNameCollection<'a> {
    per_entry: Vec<Vec<FileNameRef<'a>>>,
}

impl<'a> View for FileNameCollection<'a> {
    type V = Seq<Seq<FileNameRef<'a>>>;

    closed spec fn view(&self) -> Seq<Seq<FileNameRef<'a>>> {
        Seq::new(self.per_entry@.len(), |e: int| self.per_entry@[e]@)
    }
}

impl<'a> FileNameCollection<'a> {
    /// The file names of an entry; none for an entry that is not in the collection.
    pub open spec fn names_at(&self, entry_id: u32) -> Seq<FileNameRef<'a>> {
        if entry_id < self@.len() {
            self@[entry_id as int]
        } else {
            Seq::empty()
        }
    }

    /// A collection with the given file names of entry 0, entry 1, and so on.
    pub fn from_entries(per_entry: Vec<Vec<FileNameRef<'a>>>) -> (r: Self)
        ensures
            r@.len() == per_entry@.len(),
            forall|e: int| 0 <= e < per_entry@.len() ==> #[trigger] r@[e] == per_entry@[e]@,
    {
        FileNameCollection { per_entry }
    }

    /// The number of entries.
    pub fn entry_count(&self) -> (n: usize)
        ensures
            n == self@.len(),
    {
        self.per_entry.len()
    }

    /// The file names of an entry.
    pub fn filenames_for_entry(&self, entry_id: u32) -> (names: &[FileNameRef<'a>])
        ensures
            names@ == self.names_at(entry_id),
            entry_id < self@.len() ==> names@ == self@[entry_id as int],
            entry_id >= self@.len() ==> names@.len() == 0,
    {
        let e: usize = entry_id as usize;
        if e < self.per_entry.len() {
            self.per_entry[e].as_slice()
        } else {
            &[]
        }
    }
}

} // verus!
