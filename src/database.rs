use crate::internal_database::InternalDatabase;
use crate::slice::Slice;
use vstd::prelude::*;

verus! {

/// Write a value (the second) for a key (the first).
pub struct PutOp(pub Slice, pub Slice);

/// Read the value of a key.
pub struct GetOp(pub Slice);

/// A request of a client.
pub enum Operation {
    Put(PutOp),
    Get(GetOp),
}

/// The value read by a `GET`.
pub struct GetReturn(pub Slice);

/// A reply to a client.
pub enum Return {
    Get(GetReturn),
}

/// The value a read of `k` gives in `m`: the value written last, or the empty
/// string if none was.
pub open spec fn lookup(m: Map<Seq<u8>, Seq<u8>>, k: Seq<u8>) -> Seq<u8> {
    if m.contains_key(k) {
        m[k]
    } else {
        Seq::empty()
    }
}

/// What the store holds after `op`.
pub open spec fn apply(m: Map<Seq<u8>, Seq<u8>>, op: Operation) -> Map<Seq<u8>, Seq<u8>> {
    match op {
        Operation::Put(p) => m.insert(p.0@, p.1@),
        Operation::Get(_) => m,
    }
}

/// The value sent back for `op`, if any.
pub open spec fn reply(m: Map<Seq<u8>, Seq<u8>>, op: Operation) -> Option<Seq<u8>> {
    match op {
        Operation::Put(_) => None,
        Operation::Get(g) => Some(lookup(m, g.0@)),
    }
}

/// The value a reply carries.
pub open spec fn reply_value(r: Option<Return>) -> Option<Seq<u8>> {
    match r {
        Some(Return::Get(g)) => Some(g.0@),
        None => None,
    }
}

/// What the store holds after the operations `ops`, in order.
pub open spec fn run(m: Map<Seq<u8>, Seq<u8>>, ops: Seq<Operation>) -> Map<Seq<u8>, Seq<u8>>
    decreases ops.len(),
{
    if ops.len() == 0 {
        m
    } else {
        run(apply(m, ops[0]), ops.drop_first())
    }
}

/// `op` writes the key `k`.
pub open spec fn writes(op: Operation, k: Seq<u8>) -> bool {
    op matches Operation::Put(p) && p.0@ == k
}

/// Carries out one operation on the store: a `PUT` writes and sends nothing
/// back; a `GET` sends back the value read, empty where the key was never written.
pub fn execute(db: &mut InternalDatabase, op: Operation) -> (r: Option<Return>)
    requires
        old(db).wf(),
    ensures
        final(db).wf(),
        final(db)@ == apply(old(db)@, op),
        reply_value(r) == reply(old(db)@, op),
{
    match op {
        Operation::Put(p) => {
            db.put(p.0, p.1);
            None
        },
        Operation::Get(g) => {
            let value = match db.get(g.0) {
                Some(v) => v,
                None => Slice::empty(),
            };
            Some(Return::Get(GetReturn(value)))
        },
    }
}

/// A `GET` right after a `PUT` of the same key reads the value written.
pub proof fn lemma_read_your_write(m: Map<Seq<u8>, Seq<u8>>, put: Operation, get: Operation)
    requires
        put matches Operation::Put(p) && get matches Operation::Get(g) && p.0@ == g.0@,
    ensures
        reply(apply(m, put), get) == Some(put->Put_0.1@),
{
}

/// Once a `PUT` of a key is carried out, a later `GET` of it reads the value
/// written, whatever came in between, as long as nothing in between wrote that key.
pub proof fn lemma_visible_after(
    m: Map<Seq<u8>, Seq<u8>>,
    put: Operation,
    between: Seq<Operation>,
    get: Operation,
)
    requires
        put matches Operation::Put(p) && get matches Operation::Get(g) && p.0@ == g.0@,
        forall|i: int| 0 <= i < between.len() ==> !writes(#[trigger] between[i], put->Put_0.0@),
    ensures
        reply(run(apply(m, put), between), get) == Some(put->Put_0.1@),
{
    lemma_unwritten_kept(apply(m, put), between, put->Put_0.0@);
}

/// Operations that do not write `k` leave its value alone.
pub proof fn lemma_unwritten_kept(m: Map<Seq<u8>, Seq<u8>>, ops: Seq<Operation>, k: Seq<u8>)
    requires
        forall|i: int| 0 <= i < ops.len() ==> !writes(#[trigger] ops[i], k),
    ensures
        run(m, ops).contains_key(k) == m.contains_key(k),
        m.contains_key(k) ==> run(m, ops)[k] == m[k],
    decreases ops.len(),
{
    if ops.len() > 0 {
        assert(!writes(ops[0], k));
        let rest = ops.drop_first();
        assert forall|i: int| 0 <= i < rest.len() implies !writes(#[trigger] rest[i], k) by {
            assert(rest[i] == ops[i + 1]);
        }
        lemma_unwritten_kept(apply(m, ops[0]), rest, k);
    }
}

} // verus!
