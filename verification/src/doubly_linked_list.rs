use vstd::prelude::*;

verus! {

/// A first-in first-out transaction log that can also be walked backwards:
/// entries are appended at the tail, popped from the head, and iterated in
/// either direction through a `ListIterator` cursor.
#[derive(Debug)]
pub struct BetterTransactionLog {
    entries: Vec<String>,
    length: u64,
}

/// A cursor over a snapshot of a log. `next` yields the entry under the
/// cursor and steps towards the tail; `next_back` yields it and steps
/// towards the head. Dropping the cursor has no effect on the log.
pub struct ListIterator {
    items: Vec<String>,
    cur: Option<usize>,
}

impl View for BetterTransactionLog {
    type V = Seq<Seq<char>>;

    closed spec fn view(&self) -> Seq<Seq<char>> {
        Seq::new(self.entries@.len(), |i: int| self.entries@[i]@)
    }
}

impl BetterTransactionLog {
    /// The stored count always matches the number of entries.
    pub closed spec fn wf(&self) -> bool {
        self.length == self.entries@.len()
    }

    pub fn new_empty() -> (log: BetterTransactionLog)
        ensures
            log.wf(),
            log@ == Seq::<Seq<char>>::empty(),
    {
        let log = BetterTransactionLog { entries: Vec::new(), length: 0 };
        proof {
            assert(log@ =~= Seq::<Seq<char>>::empty());
        }
        log
    }

    pub fn length(&self) -> (n: u64)
        requires
            self.wf(),
        ensures
            n == self@.len(),
    {
        self.length
    }

    pub fn append(&mut self, v: String)
        requires
            old(self).wf(),
        ensures
            final(self).wf(),
            final(self)@ == old(self)@.push(v@),
    {
        self.entries.push(v);
        self.length = self.entries.len() as u64;
        proof {
            assert(self@ =~= old(self)@.push(v@));
        }
    }

    pub fn pop(&mut self) -> (r: Option<String>)
        requires
            old(self).wf(),
        ensures
            final(self).wf(),
            old(self)@.len() == 0 ==> r is None && final(self)@ == old(self)@,
            old(self)@.len() > 0 ==> (r matches Some(v) && v@ == old(self)@[0]
                && final(self)@ == old(self)@.drop_first()),
    {
        if self.entries.len() == 0 {
            None
        } else {
            let v = self.entries.remove(0);
            self.length = self.entries.len() as u64;
            proof {
                assert(self@ =~= old(self)@.drop_first());
            }
            Some(v)
        }
    }

    /// A cursor positioned at the head; the log itself is left untouched.
    pub fn iter(&self) -> (it: ListIterator)
        requires
            self.wf(),
        ensures
            it.wf(),
            it.entries() == self@,
            it.position() == (if self@.len() == 0 { None::<int> } else { Some(0int) }),
    {
        ListIterator::new(clone_entries(&self.entries), true)
    }

    /// A cursor positioned at the tail, for walking backwards; consumes the log.
    pub fn back_iter(self) -> (it: ListIterator)
        requires
            self.wf(),
        ensures
            it.wf(),
            it.entries() == self@,
            it.position() == (if self@.len() == 0 {
                None::<int>
            } else {
                Some(self@.len() - 1)
            }),
    {
        ListIterator::new(self.entries, false)
    }

    /// A cursor positioned at the head; consumes the log.
    pub fn into_iter(self) -> (it: ListIterator)
        requires
            self.wf(),
        ensures
            it.wf(),
            it.entries() == self@,
            it.position() == (if self@.len() == 0 { None::<int> } else { Some(0int) }),
    {
        ListIterator::new(self.entries, true)
    }
}

/// Clones a list of entries, preserving each entry's characters.
fn clone_entries(v: &Vec<String>) -> (r: Vec<String>)
    ensures
        r@.len() == v@.len(),
        forall|i: int| 0 <= i < v@.len() ==> r@[i]@ == v@[i]@,
{
    let mut r: Vec<String> = Vec::new();
    let mut i: usize = 0;
    while i < v.len()
        invariant
            i <= v@.len(),
            r@.len() == i,
            forall|j: int| 0 <= j < i ==> r@[j]@ == v@[j]@,
        decreases v@.len() - i,
    {
        r.push(v[i].clone());
        i = i + 1;
    }
    r
}

impl ListIterator {
    /// The snapshot the cursor walks over.
    pub closed spec fn entries(&self) -> Seq<Seq<char>> {
        Seq::new(self.items@.len(), |i: int| self.items@[i]@)
    }

    /// The index under the cursor, or `None` once it has left the snapshot.
    pub closed spec fn position(&self) -> Option<int> {
        match self.cur {
            Some(i) => Some(i as int),
            None => None,
        }
    }

    /// The cursor index, when present, lies inside the snapshot.
    pub closed spec fn wf(&self) -> bool {
        match self.cur {
            Some(i) => i < self.items@.len(),
            None => true,
        }
    }

    fn new(items: Vec<String>, at_front: bool) -> (it: ListIterator)
        ensures
            it.wf(),
            it.entries() == Seq::new(items@.len(), |i: int| items@[i]@),
            it.position() == (if items@.len() == 0 {
                None::<int>
            } else if at_front {
                Some(0int)
            } else {
                Some(items@.len() - 1)
            }),
    {
        if items.len() == 0 {
            ListIterator { items, cur: None }
        } else if at_front {
            ListIterator { items, cur: Some(0) }
        } else {
            let last = items.len() - 1;
            ListIterator { items, cur: Some(last) }
        }
    }

    /// Yields the entry under the cursor and steps towards the tail.
    pub fn next(&mut self) -> (r: Option<String>)
        requires
            old(self).wf(),
        ensures
            final(self).wf(),
            final(self).entries() == old(self).entries(),
            old(self).position() is None ==> r is None
                && final(self).position() is None,
            old(self).position() matches Some(i) ==> r matches Some(v)
                && v@ == old(self).entries()[i]
                && final(self).position() == (if i + 1 < old(self).entries().len() {
                    Some(i + 1)
                } else {
                    None::<int>
                }),
    {
        match self.cur {
            None => None,
            Some(i) => {
                proof {
                    assert(i < self.items@.len());
                }
                let v = self.items[i].clone();
                let n = self.items.len();
                if i < n - 1 {
                    self.cur = Some(i + 1);
                } else {
                    self.cur = None;
                }
                Some(v)
            },
        }
    }

    /// Yields the entry under the cursor and steps towards the head.
    pub fn next_back(&mut self) -> (r: Option<String>)
        requires
            old(self).wf(),
        ensures
            final(self).wf(),
            final(self).entries() == old(self).entries(),
            old(self).position() is None ==> r is None
                && final(self).position() is None,
            old(self).position() matches Some(i) ==> r matches Some(v)
                && v@ == old(self).entries()[i]
                && final(self).position() == (if i > 0 { Some(i - 1) } else { None::<int> }),
    {
        match self.cur {
            None => None,
            Some(i) => {
                let v = self.items[i].clone();
                if i > 0 {
                    self.cur = Some(i - 1);
                } else {
                    self.cur = None;
                }
                Some(v)
            },
        }
    }
}

} // verus!
