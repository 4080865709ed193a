use vstd::prelude::*;

verus! {

/// The mathematical value of an [`Entry`].
pub struct EntryView {
    pub depth: nat,
    pub name: Seq<char>,
    pub is_dir: bool,
}

/// One node met by a depth-first walk: its depth below the root (the root's
/// own children are at depth 1), its base name, and whether it is a directory.
#[derive(Debug)]
pub struct Entry {
    pub depth: usize,
    pub name: String,
    pub is_dir: bool,
}

impl View for Entry {
    type V = EntryView;

    open spec fn view(&self) -> EntryView {
        EntryView { depth: self.depth as nat, name: self.name@, is_dir: self.is_dir }
    }
}

/// The entries of a sequence, as values.
pub open spec fn entries_view(es: Seq<Entry>) -> Seq<EntryView> {
    es.map_values(|e: Entry| e@)
}

impl Entry {
    pub fn new(depth: usize, name: &str, is_dir: bool) -> (r: Entry)
        ensures
            r.depth == depth,
            r.name@ == name@,
            r.is_dir == is_dir,
    {
        Entry { depth, name: String::from_str(name), is_dir }
    }
}

} // verus!
