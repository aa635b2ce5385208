//! Sets of names, kept in text order.
use vstd::prelude::*;

use crate::text::{self, is_before, same};

verus! {

/// The texts stand in increasing order.
pub open spec fn increasing(list: Seq<Seq<char>>) -> bool {
    forall|i: int, j: int|
        #![trigger list[i], list[j]]
        0 <= i < j < list.len() ==> text::precedes(list[i], list[j])
}

/// The list holds the members of the set, each once and in increasing order.
pub open spec fn lists(list: Seq<Seq<char>>, set: Set<Seq<char>>) -> bool {
    &&& increasing(list)
    &&& list.to_set() == set
}

/// No text precedes itself.
pub proof fn lemma_precedes_irreflexive(text: Seq<char>)
    ensures
        !text::precedes(text, text),
    decreases text.len(),
{
    if text.len() > 0 {
        lemma_precedes_irreflexive(text.drop_first());
    }
}

/// What precedes a text precedes what that text precedes.
pub proof fn lemma_precedes_transitive(first: Seq<char>, second: Seq<char>, third: Seq<char>)
    requires
        text::precedes(first, second),
        text::precedes(second, third),
    ensures
        text::precedes(first, third),
    decreases first.len(),
{
    if first.len() > 0 && first[0] == second[0] && second[0] == third[0] {
        lemma_precedes_transitive(first.drop_first(), second.drop_first(), third.drop_first());
    }
}

/// Of two different texts one precedes the other.
pub proof fn lemma_precedes_total(first: Seq<char>, second: Seq<char>)
    ensures
        first == second || text::precedes(first, second) || text::precedes(
            second,
            first,
        ),
    decreases first.len(),
{
    if first.len() == 0 || second.len() == 0 {
        if first.len() == 0 && second.len() == 0 {
            assert(first =~= second);
        }
    } else if first[0] == second[0] {
        lemma_precedes_total(first.drop_first(), second.drop_first());
        if first.drop_first() == second.drop_first() {
            assert(first =~= seq![first[0]] + first.drop_first());
            assert(second =~= seq![first[0]] + second.drop_first());
        }
    }
}

/// A list is empty where the set of its texts is.
pub proof fn lemma_no_members(list: Seq<Seq<char>>)
    ensures
        list.to_set() == Set::<Seq<char>>::empty() <==> list.len() == 0,
{
    if list.len() > 0 {
        assert(list.to_set().contains(list[0]));
    } else {
        assert(list.to_set() =~= Set::<Seq<char>>::empty());
    }
}

/// A set has one list in increasing order at most.
pub proof fn law_listing_is_unique(
    first: Seq<Seq<char>>,
    second: Seq<Seq<char>>,
    set: Set<Seq<char>>,
)
    requires
        lists(first, set),
        lists(second, set),
    ensures
        first == second,
    decreases first.len(),
{
    if first.len() == 0 {
        if second.len() > 0 {
            assert(second.to_set().contains(second[0]));
        }
        assert(first =~= second);
    } else {
        assert(first.to_set().contains(first[0]));
        let at = choose|at: int| 0 <= at < second.len() && second[at] == first[0];
        assert(second.to_set().contains(second[0]));
        let back = choose|back: int| 0 <= back < first.len() && first[back] == second[0];
        if at > 0 && back > 0 {
            lemma_precedes_transitive(first[0], first[back], second[at]);
            lemma_precedes_irreflexive(first[0]);
        }
        let head = first[0];
        assert(second[0] == head);
        let smaller = set.remove(head);
        lemma_listing_tail(first, set);
        lemma_listing_tail(second, set);
        law_listing_is_unique(first.drop_first(), second.drop_first(), smaller);
        assert(first =~= seq![head] + first.drop_first());
        assert(second =~= seq![head] + second.drop_first());
    }
}

/// Without its first text a list holds the rest of the set.
proof fn lemma_listing_tail(list: Seq<Seq<char>>, set: Set<Seq<char>>)
    requires
        lists(list, set),
        list.len() > 0,
    ensures
        lists(list.drop_first(), set.remove(list[0])),
{
    let tail = list.drop_first();
    assert forall|i: int, j: int|
        #![trigger tail[i], tail[j]]
        0 <= i < j < tail.len() implies text::precedes(tail[i], tail[j]) by {
        assert(tail[i] == list[i + 1] && tail[j] == list[j + 1]);
    }
    assert forall|text: Seq<char>| tail.to_set().contains(text) == set.remove(
        list[0],
    ).contains(text) by {
        if tail.to_set().contains(text) {
            let at = choose|at: int| 0 <= at < tail.len() && tail[at] == text;
            assert(list[at + 1] == text);
            assert(list.to_set().contains(text));
            lemma_precedes_irreflexive(text);
        }
        if set.remove(list[0]).contains(text) {
            assert(list.to_set().contains(text));
            let at = choose|at: int| 0 <= at < list.len() && list[at] == text;
            assert(tail[at - 1] == text);
        }
    }
    assert(tail.to_set() =~= set.remove(list[0]));
}

/// A set of names.
pub struct NameSet {
    names: Vec<String>,
}

impl NameSet {
    /// The names in the set.
    pub closed spec fn view(&self) -> Set<Seq<char>> {
        text::texts(self.names@).to_set()
    }

    /// The names are kept in increasing order.
    pub closed spec fn well_formed(&self) -> bool {
        increasing(text::texts(self.names@))
    }

    /// The empty set.
    pub fn new() -> (set: Self)
        ensures
            set.well_formed(),
            set@ == Set::<Seq<char>>::empty(),
    {
        let set = NameSet { names: Vec::new() };
        assert(set@ =~= Set::<Seq<char>>::empty());
        set
    }

    /// Adds a name.
    pub fn insert(&mut self, name: String)
        requires
            old(self).well_formed(),
        ensures
            final(self).well_formed(),
            final(self)@ == old(self)@.insert(name@),
    {
        let ghost before = text::texts(self.names@);
        let mut position: usize = 0;
        while position < self.names.len() && is_before(
            self.names[position].as_str(),
            name.as_str(),
        )
            invariant
                before == text::texts(self.names@),
                self.names@ == old(self).names@,
                position <= self.names@.len(),
                forall|i: int|
                    0 <= i < position ==> text::precedes(#[trigger] before[i], name@),
            decreases self.names@.len() - position,
        {
            position = position + 1;
        }
        if position < self.names.len() && same(self.names[position].as_str(), name.as_str()) {
            proof {
                assert(before[position as int] == name@);
                assert(before.to_set().contains(name@));
                assert(self@ =~= old(self)@.insert(name@));
            }
            return ;
        }
        let ghost added = name@;
        self.names.insert(position, name);
        proof {
            let after = text::texts(self.names@);
            assert(after =~= before.insert(position as int, added));
            lemma_insert_increasing(before, position as int, added);
            lemma_insert_members(before, position as int, added);
        }
    }

    /// Adds several names.
    pub fn insert_all(&mut self, more: &Vec<String>)
        requires
            old(self).well_formed(),
        ensures
            final(self).well_formed(),
            final(self)@ == old(self)@.union(text::texts(more@).to_set()),
    {
        let ghost texts = text::texts(more@);
        let mut index: usize = 0;
        assert(self@ =~= old(self)@.union(texts.take(0).to_set()));
        while index < more.len()
            invariant
                texts == text::texts(more@),
                index <= more@.len(),
                self.well_formed(),
                self@ == old(self)@.union(texts.take(index as int).to_set()),
            decreases more@.len() - index,
        {
            self.insert(more[index].clone());
            proof {
                let before = texts.take(index as int);
                let name = texts[index as int];
                assert(texts.take(index + 1) =~= before.insert(before.len() as int, name));
                lemma_insert_members(before, before.len() as int, name);
            }
            index = index + 1;
            assert(self@ =~= old(self)@.union(texts.take(index as int).to_set()));
        }
        assert(texts.take(index as int) =~= texts);
    }

    /// The names in increasing order.
    pub fn into_names(self) -> (names: Vec<String>)
        requires
            self.well_formed(),
        ensures
            lists(text::texts(names@), self@),
    {
        self.names
    }
}

/// Adding a text after those that precede it keeps the order.
proof fn lemma_insert_increasing(list: Seq<Seq<char>>, position: int, text: Seq<char>)
    requires
        increasing(list),
        0 <= position <= list.len(),
        forall|i: int| 0 <= i < position ==> text::precedes(#[trigger] list[i], text),
        position < list.len() ==> !text::precedes(list[position], text) && list[position]
            != text,
    ensures
        increasing(list.insert(position, text)),
{
    let longer = list.insert(position, text);
    assert forall|i: int, j: int|
        #![trigger longer[i], longer[j]]
        0 <= i < j < longer.len() implies text::precedes(longer[i], longer[j]) by {
        let left = if i < position {
            i
        } else {
            i - 1
        };
        let right = if j < position {
            j
        } else {
            j - 1
        };
        if i == position {
            lemma_precedes_total(list[position], text);
            assert(longer[j] == list[j - 1]);
            if j - 1 > position {
                lemma_precedes_transitive(text, list[position], list[j - 1]);
            }
        } else if j == position {
            assert(longer[i] == list[i]);
        } else {
            assert(longer[i] == list[left] && longer[j] == list[right]);
        }
    }
}

/// Adding a text to a list adds it to the members.
pub(crate) proof fn lemma_insert_members(list: Seq<Seq<char>>, position: int, text: Seq<char>)
    requires
        0 <= position <= list.len(),
    ensures
        list.insert(position, text).to_set() == list.to_set().insert(text),
{
    let longer = list.insert(position, text);
    assert forall|member: Seq<char>| longer.to_set().contains(member) == list.to_set().insert(
        text,
    ).contains(member) by {
        if longer.to_set().contains(member) {
            let at = choose|at: int| 0 <= at < longer.len() && longer[at] == member;
            if at < position {
                assert(list[at] == member);
            } else if at > position {
                assert(list[at - 1] == member);
            }
        }
        if list.to_set().contains(member) {
            let at = choose|at: int| 0 <= at < list.len() && list[at] == member;
            if at < position {
                assert(longer[at] == member);
            } else {
                assert(longer[at + 1] == member);
            }
        }
        assert(longer[position] == text);
    }
    assert(longer.to_set() =~= list.to_set().insert(text));
}

} // verus!
