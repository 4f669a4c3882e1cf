//! The entries of a message catalog and their mathematical model.

use vstd::prelude::*;

verus! {

/// What an entry is, as a value of mathematics.
pub struct EntryView {
    pub key: u32,
    pub text2: Seq<char>,
    pub text3: Seq<char>,
    pub payload: Seq<u8>,
}

/// One localisable unit of a catalog.
///
/// `key` is the identity hash by which the same logical entry is found again
/// in every language. `text2` and `text3` are the two translatable texts.
/// `payload` is everything else that the entry carries; the library never
/// looks into it and hands it on as it got it.
#[derive(Debug, PartialEq, Eq)]
pub struct Entry {
    pub key: u32,
    pub text2: String,
    pub text3: String,
    pub payload: Vec<u8>,
}

impl View for Entry {
    type V = EntryView;

    open spec fn view(&self) -> EntryView {
        EntryView { key: self.key, text2: self.text2@, text3: self.text3@, payload: self.payload@ }
    }
}

impl Clone for Entry {
    fn clone(&self) -> (copy: Entry)
        ensures
            copy@ == self@,
    {
        let payload = self.payload.clone();
        assert(payload@ =~= self.payload@);
        Entry { key: self.key, text2: self.text2.clone(), text3: self.text3.clone(), payload }
    }
}

/// The models of a sequence of entries, one for one.
pub open spec fn views(entries: Seq<Entry>) -> Seq<EntryView> {
    entries.map_values(|e: Entry| e@)
}

} // verus!
