//! A double-ended sequence with a cursor that can step in both directions.

use vstd::prelude::*;
use vstd::string::StringExecFns;

verus! {

/// An ordered sequence of values that grows and shrinks at its tail.
///
/// The first element is the head, the last one the tail. The view of a list
/// is the sequence of its elements from head to tail.
pub struct LinkedList<T> {
    items: Vec<T>,
}

impl<T> View for LinkedList<T> {
    type V = Seq<T>;

    closed spec fn view(&self) -> Seq<T> {
        self.items@
    }
}

impl<T> Default for LinkedList<T> {
    /// The empty list.
    fn default() -> (list: Self)
        ensures
            list@ == Seq::<T>::empty(),
    {
        LinkedList { items: Vec::new() }
    }
}

impl<T> LinkedList<T> {
    /// Creates an empty list.
    pub fn new() -> (list: Self)
        ensures
            list@ == Seq::<T>::empty(),
    {
        LinkedList { items: Vec::new() }
    }

    /// The number of elements in the list.
    pub fn len(&self) -> (n: usize)
        ensures
            n == self@.len(),
    {
        self.items.len()
    }

    /// Adds `v` behind the current tail.
    pub fn append(&mut self, v: T)
        ensures
            final(self)@ == old(self)@.push(v),
    {
        self.items.push(v);
    }

    /// Removes the tail and returns it, or returns `None` on an empty list.
    pub fn pop(&mut self) -> (r: Option<T>)
        ensures
            old(self)@.len() == 0 ==> r is None && final(self)@ == old(self)@,
            old(self)@.len() > 0 ==> r == Some(old(self)@.last()) && final(self)@ == old(
                self,
            )@.drop_last(),
    {
        self.items.pop()
    }

    /// A cursor over the list, placed on the head; it is exhausted from the
    /// start where the list is empty.
    pub fn iter(&self) -> (it: Iter<'_, T>)
        ensures
            it.elements() == self@,
            it.position() == if self@.len() == 0 {
                None::<int>
            } else {
                Some(0int)
            },
    {
        let current = if self.len() == 0 {
            None
        } else {
            Some(0usize)
        };
        Iter { list: self, current }
    }
}

/// The texts `parts`, each behind an arrow.
pub open spec fn arrows(parts: Seq<Seq<char>>) -> Seq<char>
    decreases parts.len(),
{
    if parts.len() == 0 {
        Seq::empty()
    } else {
        arrows(parts.drop_last()) + " -> "@ + parts.last()
    }
}

/// How a list reads whose elements read `parts`: the word `head` and the
/// elements from head to tail, joined by arrows, all in braces.
pub open spec fn rendering(parts: Seq<Seq<char>>) -> Seq<char> {
    "{ head"@ + arrows(parts) + " }"@
}

/// The views of the strings `parts`.
pub open spec fn texts(parts: Seq<String>) -> Seq<Seq<char>> {
    Seq::new(parts.len(), |i: int| parts[i]@)
}

/// The text of a list whose elements read `parts`.
pub fn render(parts: &Vec<String>) -> (text: String)
    ensures
        text@ == rendering(texts(parts@)),
{
    let mut text = String::from_str("{ head");
    let mut i: usize = 0;
    while i < parts.len()
        invariant
            i <= parts@.len(),
            text@ == "{ head"@ + arrows(texts(parts@).subrange(0, i as int)),
        decreases parts@.len() - i,
    {
        let ghost done = texts(parts@).subrange(0, i as int);
        let ghost more = texts(parts@).subrange(0, i + 1);
        assert(more.drop_last() =~= done);
        assert(more.last() == parts@[i as int]@);
        text.append(" -> ");
        text.append(parts[i].as_str());
        assert(text@ =~= "{ head"@ + arrows(more));
        i = i + 1;
    }
    assert(texts(parts@).subrange(0, i as int) =~= texts(parts@));
    text.append(" }");
    text
}

impl<T: std::fmt::Display> LinkedList<T> {
    /// The list as text: each element as it displays itself, rendered as
    /// [`rendering`] says.
    pub fn debug_string(&self) -> (text: String)
        ensures
            exists|parts: Seq<String>|
                {
                    &&& parts.len() == self@.len()
                    &&& forall|i: int|
                        0 <= i < parts.len() ==> vstd::string::to_string_from_display_ensures::<T>(
                            &self@[i],
                            #[trigger] parts[i],
                        )
                    &&& text@ == rendering(texts(parts))
                },
    {
        let mut parts: Vec<String> = Vec::new();
        let mut i: usize = 0;
        while i < self.items.len()
            invariant
                i <= self.items@.len(),
                parts@.len() == i,
                forall|j: int|
                    0 <= j < i ==> vstd::string::to_string_from_display_ensures::<T>(
                        &self.items@[j],
                        #[trigger] parts@[j],
                    ),
            decreases self.items@.len() - i,
        {
            parts.push(self.items[i].to_string());
            i = i + 1;
        }
        let text = render(&parts);
        assert(parts@.len() == self@.len() && text@ == rendering(texts(parts@)));
        text
    }
}

/// A cursor over a [`LinkedList`]: either exhausted, or placed on one element.
///
/// `next` yields the element under the cursor and steps towards the tail;
/// `next_back` steps towards the head and yields the element it arrives at.
pub struct Iter<'a, T> {
    list: &'a LinkedList<T>,
    current: Option<usize>,
}

impl<'a, T> Iter<'a, T> {
    #[verifier::type_invariant]
    spec fn placed_inside(self) -> bool {
        self.current matches Some(i) ==> i < self.list.items@.len()
    }

    /// The elements of the list that the cursor walks, from head to tail.
    pub closed spec fn elements(self) -> Seq<T> {
        self.list.items@
    }

    /// The index of the element under the cursor, or `None` once exhausted.
    pub closed spec fn position(self) -> Option<int> {
        match self.current {
            Some(i) => Some(i as int),
            None => None,
        }
    }

    /// Yields a clone of the element under the cursor and moves the cursor one
    /// step towards the tail; leaving the tail exhausts the cursor. An
    /// exhausted cursor yields `None` and stays exhausted.
    pub fn next(&mut self) -> (r: Option<T>) where T: Clone
        ensures
            final(self).elements() == old(self).elements(),
            old(self).position() is None ==> r is None && final(self).position() is None,
            old(self).position() matches Some(i) ==> {
                &&& 0 <= i < old(self).elements().len()
                &&& r matches Some(v) && cloned(old(self).elements()[i], v)
                &&& final(self).position() == if i + 1 < old(self).elements().len() {
                    Some(i + 1)
                } else {
                    None::<int>
                }
            },
    {
        proof {
            use_type_invariant(&*self);
        }
        let n = self.list.items.len();
        match self.current {
            None => None,
            Some(i) => {
                let v = self.list.items[i].clone();
                if i + 1 < n {
                    self.current = Some(i + 1);
                } else {
                    self.current = None;
                }
                Some(v)
            },
        }
    }

    /// Moves the cursor one step towards the head and yields a clone of the
    /// element it arrives at. On the head there is nowhere to go: the cursor
    /// becomes exhausted and `None` is returned, as it is for a cursor that
    /// was exhausted already.
    pub fn next_back(&mut self) -> (r: Option<T>) where T: Clone
        ensures
            final(self).elements() == old(self).elements(),
            old(self).position() is None || old(self).position() == Some(0int) ==> r is None
                && final(self).position() is None,
            old(self).position() matches Some(i) ==> i > 0 ==> {
                &&& i < old(self).elements().len()
                &&& r matches Some(v) && cloned(old(self).elements()[i - 1], v)
                &&& final(self).position() == Some(i - 1)
            },
    {
        proof {
            use_type_invariant(&*self);
        }
        match self.current {
            None => None,
            Some(i) => {
                if i == 0 {
                    self.current = None;
                    None
                } else {
                    let v = self.list.items[i - 1].clone();
                    self.current = Some(i - 1);
                    Some(v)
                }
            },
        }
    }
}

} // verus!
