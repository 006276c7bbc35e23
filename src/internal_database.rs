use crate::memtable::MemTable;
use crate::slice::Slice;
use vstd::prelude::*;

verus! {

/// The store behind the executor: one memtable, written by a single writer.
pub struct InternalDatabase {
    memtable: MemTable,
}

impl View for InternalDatabase {
    type V = Map<Seq<u8>, Seq<u8>>;

    /// The last value written for each key.
    closed spec fn view(&self) -> Map<Seq<u8>, Seq<u8>> {
        self.memtable@
    }
}

impl InternalDatabase {
    pub closed spec fn wf(&self) -> bool {
        self.memtable.wf()
    }

    /// An empty store.
    pub fn new() -> (r: InternalDatabase)
        ensures
            r.wf(),
            r@ == Map::<Seq<u8>, Seq<u8>>::empty(),
    {
        InternalDatabase { memtable: MemTable::new() }
    }

    /// The last value written for `key`, or none if it was never written.
    pub fn get(&self, key: Slice) -> (r: Option<Slice>)
        requires
            self.wf(),
        ensures
            r is Some <==> self@.contains_key(key@),
            r matches Some(v) ==> v@ == self@[key@],
    {
        self.memtable.find(key)
    }

    /// Writes `val` for `key`.
    pub fn put(&mut self, key: Slice, val: Slice)
        requires
            old(self).wf(),
        ensures
            final(self).wf(),
            final(self)@ == old(self)@.insert(key@, val@),
    {
        self.memtable.insert(key, val)
    }
}

} // verus!
