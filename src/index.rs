//! The tag index: each title of the tabular export mapped to its tags.
use vstd::prelude::*;
use vstd::hash_map::StringHashMap;
use crate::tags::string_views;

verus! {

/// Titles mapped to their tag lists. A title given twice keeps the tags
/// given last.
pub struct TagIndex {
    entries: StringHashMap<Vec<String>>,
}

impl View for TagIndex {
    type V = Map<Seq<char>, Seq<Seq<char>>>;

    closed spec fn view(&self) -> Map<Seq<char>, Seq<Seq<char>>> {
        self.entries@.map_values(|v: Vec<String>| string_views(v@))
    }
}

impl TagIndex {
    /// An index with no titles.
    pub fn new() -> (r: TagIndex)
        ensures
            r@ == Map::<Seq<char>, Seq<Seq<char>>>::empty(),
    {
        let r = TagIndex { entries: StringHashMap::new() };
        assert(r@ =~= Map::<Seq<char>, Seq<Seq<char>>>::empty());
        r
    }

    /// Records `tags` for `title`, replacing what the title had before.
    pub fn insert(&mut self, title: String, tags: Vec<String>)
        ensures
            final(self)@ == old(self)@.insert(title@, string_views(tags@)),
    {
        self.entries.insert(title, tags);
        assert(final(self)@ =~= old(self)@.insert(title@, string_views(tags@)));
    }

    /// The tags of `title`, matched exactly.
    pub fn get(&self, title: &str) -> (r: Option<&Vec<String>>)
        ensures
            match r {
                Some(v) => self@.contains_key(title@) && self@[title@] == string_views(v@),
                None => !self@.contains_key(title@),
            },
    {
        self.entries.get(title)
    }

    /// The number of titles.
    pub fn len(&self) -> (r: usize)
        ensures
            r == self@.len(),
    {
        broadcast use vstd::hash_map::axiom_string_hash_map_spec_len;
        proof {
            assert(self@.dom() =~= self.entries@.dom());
        }
        self.entries.len()
    }
}

} // verus!
