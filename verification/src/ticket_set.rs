//! A finite set of ticket numbers (texts).
use vstd::prelude::*;
use crate::text::{chars_of, same_chars, texts_view};

verus! {

/// A set of tickets; its value is the set of their texts.
pub struct TicketSet {
    items: Vec<String>,
}

impl View for TicketSet {
    type V = Set<Seq<char>>;

    closed spec fn view(&self) -> Set<Seq<char>> {
        texts_view(self.items@).to_set()
    }
}

impl TicketSet {
    /// No ticket is held twice.
    #[verifier::type_invariant]
    closed spec fn distinct(self) -> bool {
        texts_view(self.items@).no_duplicates()
    }

    /// The empty set.
    pub fn new() -> (res: TicketSet)
        ensures
            res@ == Set::<Seq<char>>::empty(),
    {
        let res = TicketSet { items: Vec::new() };
        assert(res@ =~= Set::<Seq<char>>::empty());
        res
    }

    /// Whether `ticket` is in the set.
    pub fn contains(&self, ticket: &str) -> (res: bool)
        ensures
            res == self@.contains(ticket@),
    {
        let wanted = chars_of(ticket);
        let mut i: usize = 0;
        while i < self.items.len()
            invariant
                i <= self.items@.len(),
                wanted@ == ticket@,
                forall|k: int| 0 <= k < i ==> self.items@[k]@ != ticket@,
            decreases self.items@.len() - i,
        {
            if same_chars(&chars_of(self.items[i].as_str()), &wanted) {
                assert(texts_view(self.items@)[i as int] == ticket@);
                return true;
            }
            i = i + 1;
        }
        assert(!texts_view(self.items@).contains(ticket@)) by {
            if texts_view(self.items@).contains(ticket@) {
                let k = choose|k: int|
                    0 <= k < texts_view(self.items@).len() && texts_view(self.items@)[k]
                        == ticket@;
                assert(self.items@[k]@ == ticket@);
            }
        }
        false
    }

    /// Adds `ticket`; returns whether it was not in the set before.
    pub fn insert(&mut self, ticket: String) -> (res: bool)
        ensures
            final(self)@ == old(self)@.insert(ticket@),
            res == !old(self)@.contains(ticket@),
    {
        if self.contains(ticket.as_str()) {
            assert(self@.insert(ticket@) =~= self@);
            return false;
        }
        proof {
            use_type_invariant(&*self);
        }
        let ghost before = texts_view(self.items@);
        let ghost t = ticket@;
        let mut items: Vec<String> = Vec::new();
        std::mem::swap(&mut items, &mut self.items);
        items.push(ticket);
        assert(texts_view(items@) =~= before.push(t));
        assert(texts_view(items@).no_duplicates()) by {
            assert forall|i: int, j: int|
                0 <= i < texts_view(items@).len() && 0 <= j < texts_view(items@).len() && i
                    != j implies texts_view(items@)[i] != texts_view(items@)[j] by {
                if i == before.len() {
                    assert(before[j] != t);
                } else if j == before.len() {
                    assert(before[i] != t);
                }
            }
        }
        self.items = items;
        proof {
            before.lemma_push_to_set_commute(t);
        }
        true
    }

    /// The number of tickets.
    pub fn len(&self) -> (res: usize)
        ensures
            res == self@.len(),
    {
        proof {
            use_type_invariant(self);
            texts_view(self.items@).unique_seq_to_set();
        }
        self.items.len()
    }

    /// Whether the set is empty.
    pub fn is_empty(&self) -> (res: bool)
        ensures
            res == (self@.len() == 0),
    {
        self.len() == 0
    }
}

} // verus!
