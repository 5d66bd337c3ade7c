use vstd::prelude::*;

verus! {

/// A first-in first-out transaction log: entries are appended at the tail
/// and popped from the head.
#[derive(Debug)]
pub struct TransactionLog {
    entries: Vec<String>,
    length: u64,
}

impl View for TransactionLog {
    type V = Seq<Seq<char>>;

    closed spec fn view(&self) -> Seq<Seq<char>> {
        Seq::new(self.entries@.len(), |i: int| self.entries@[i]@)
    }
}

impl TransactionLog {
    /// The stored count always matches the number of entries.
    pub closed spec fn wf(&self) -> bool {
        self.length == self.entries@.len()
    }

    pub fn new_empty() -> (log: TransactionLog)
        ensures
            log.wf(),
            log@ == Seq::<Seq<char>>::empty(),
    {
        let log = TransactionLog { entries: Vec::new(), length: 0 };
        proof {
            assert(log@ =~= Seq::<Seq<char>>::empty());
        }
        log
    }

    pub fn length(&self) -> (n: u64)
        requires
            self.wf(),
        ensures
            n == self@.len(),
    {
        self.length
    }

    pub fn append(&mut self, v: String)
        requires
            old(self).wf(),
        ensures
            final(self).wf(),
            final(self)@ == old(self)@.push(v@),
    {
        self.entries.push(v);
        self.length = self.entries.len() as u64;
        proof {
            assert(self@ =~= old(self)@.push(v@));
        }
    }

    pub fn pop(&mut self) -> (r: Option<String>)
        requires
            old(self).wf(),
        ensures
            final(self).wf(),
            old(self)@.len() == 0 ==> r is None && final(self)@ == old(self)@,
            old(self)@.len() > 0 ==> (r matches Some(v) && v@ == old(self)@[0]
                && final(self)@ == old(self)@.drop_first()),
    {
        if self.entries.len() == 0 {
            None
        } else {
            let v = self.entries.remove(0);
            self.length = self.entries.len() as u64;
            proof {
                assert(self@ =~= old(self)@.drop_first());
            }
            Some(v)
        }
    }
}

} // verus!
