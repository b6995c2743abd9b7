//! A set of texts that remembers the order in which they came.
use crate::text;
use vstd::hash_set::StringHashSet;
use vstd::prelude::*;

verus! {

/// `items` with `item` at the end, unless it is there already.
pub open spec fn with_item(items: Seq<Seq<char>>, item: Seq<char>) -> Seq<Seq<char>> {
    if items.contains(item) {
        items
    } else {
        items.push(item)
    }
}

/// A set of texts, in the order in which they were first inserted.
pub struct TextSet {
    list: Vec<String>,
    set: StringHashSet,
}

impl View for TextSet {
    type V = Seq<Seq<char>>;

    closed spec fn view(&self) -> Seq<Seq<char>> {
        text::views(self.list@)
    }
}

impl TextSet {
    /// Nothing is listed twice, and lookups agree with the list.
    pub closed spec fn wf(&self) -> bool {
        &&& self@.no_duplicates()
        &&& forall|s: Seq<char>| #[trigger] self.set@.contains(s) <==> self@.contains(s)
    }

    /// A set without texts.
    pub fn new() -> (r: TextSet)
        ensures
            r.wf(),
            r@ == Seq::<Seq<char>>::empty(),
    {
        let r = TextSet { list: Vec::new(), set: StringHashSet::new() };
        assert(r@ =~= Seq::<Seq<char>>::empty());
        r
    }

    /// Insert `item`. Returns whether it was not there before.
    pub fn insert(&mut self, item: &str) -> (r: bool)
        requires
            old(self).wf(),
        ensures
            final(self).wf(),
            final(self)@ == with_item(old(self)@, item@),
            r == !old(self)@.contains(item@),
    {
        let ghost before = self@;
        let fresh = self.set.insert(item.to_owned());
        if fresh {
            self.list.push(item.to_owned());
            proof {
                assert(self@ =~= before.push(item@));
                assert forall|s: Seq<char>| #[trigger] self@.contains(s) <==> before.contains(s)
                    || s == item@ by {
                    if before.contains(s) {
                        let j = choose|j: int| 0 <= j < before.len() && before[j] == s;
                        assert(self@[j] == s);
                    }
                    if s == item@ {
                        assert(self@[before.len() as int] == s);
                    }
                }
            }
        }
        fresh
    }

    /// True when `item` is in the set.
    pub fn contains(&self, item: &str) -> (r: bool)
        requires
            self.wf(),
        ensures
            r == self@.contains(item@),
    {
        self.set.contains(item)
    }

    /// The texts in order.
    pub fn items(&self) -> (r: &[String])
        ensures
            text::views(r@) == self@,
    {
        self.list.as_slice()
    }
}

/// Inserting keeps what was there and adds the new text.
pub proof fn lemma_with_item(items: Seq<Seq<char>>, item: Seq<char>, s: Seq<char>)
    ensures
        with_item(items, item).contains(s) <==> items.contains(s) || s == item,
{
    let after = with_item(items, item);
    if items.contains(s) && !items.contains(item) {
        let j = choose|j: int| 0 <= j < items.len() && items[j] == s;
        assert(after[j] == s);
    }
    if s == item && !items.contains(item) {
        assert(after[items.len() as int] == s);
    }
}

} // verus!
