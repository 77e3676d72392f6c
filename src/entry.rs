use vstd::prelude::*;

verus! {

/// What a directory entry is, as far as synchronisation cares.
#[derive(Clone, Copy, Debug, PartialEq, Eq, Structural)]
pub enum EntryKind {
    File,
    Dir,
}

/// A snapshot of one directory entry taken when its directory was listed:
/// its name (the raw bytes of the file name) and its kind.
#[derive(Debug)]
pub struct Entry {
    pub name: Vec<u8>,
    pub kind: EntryKind,
}

/// The mathematical content of an entry: its name as bytes and its kind.
pub struct EntryView {
    pub name: Seq<u8>,
    pub kind: EntryKind,
}

impl View for Entry {
    type V = EntryView;

    open spec fn view(&self) -> EntryView {
        EntryView { name: self.name@, kind: self.kind }
    }
}

/// The views of the entries of a listing, in order.
pub open spec fn views(s: Seq<Entry>) -> Seq<EntryView> {
    s.map_values(|e: Entry| e@)
}

impl Entry {
    pub fn new(name: Vec<u8>, kind: EntryKind) -> (r: Entry)
        ensures
            r@ == (EntryView { name: name@, kind }),
    {
        Entry { name, kind }
    }
}

/// Byte-wise equality of two names.
pub fn names_equal(a: &Vec<u8>, b: &Vec<u8>) -> (r: bool)
    ensures
        r == (a@ == b@),
{
    if a.len() != b.len() {
        return false;
    }
    let mut i: usize = 0;
    while i < a.len()
        invariant
            a@.len() == b@.len(),
            0 <= i <= a@.len(),
            forall|k: int| 0 <= k < i ==> a@[k] == b@[k],
        decreases a@.len() - i,
    {
        if a[i] != b[i] {
            return false;
        }
        i += 1;
    }
    assert(a@ =~= b@);
    true
}

} // verus!
