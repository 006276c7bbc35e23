use core::cmp::Ordering;
use vstd::prelude::*;
use vstd::multiset::Multiset;
use vstd::std_specs::cmp::PartialOrdSpec;

verus! {

/// The number of levels of the list; a node takes part in 1 to `MAX_LEVEL` of them.
pub const MAX_LEVEL: usize = 256;

/// `a` comes strictly before `b` in `T`'s order.
pub open spec fn lt<T: PartialOrd>(a: T, b: T) -> bool {
    a.partial_cmp_spec(&b) == Some(Ordering::Less)
}

/// `<` on `T` is a strict weak order: asymmetric, transitive, and
/// incomparability is transitive too.
pub open spec fn strict_weak_order<T: PartialOrd>() -> bool {
    &&& T::obeys_partial_cmp_spec()
    &&& forall|a: T, b: T| #[trigger] lt(a, b) ==> !lt(b, a)
    &&& forall|a: T, b: T, c: T| #[trigger] lt(a, b) && #[trigger] lt(b, c) ==> lt(a, c)
    &&& forall|a: T, b: T, c: T|
        #![trigger lt(a, b), lt(a, c)]
        #![trigger lt(a, c), lt(b, c)]
        lt(a, c) ==> lt(a, b) || lt(b, c)
}

/// The integer types the list is most often used with are ordered as it needs.
pub proof fn lemma_integer_orders()
    ensures
        strict_weak_order::<u32>(),
        strict_weak_order::<u64>(),
        strict_weak_order::<usize>(),
        strict_weak_order::<i32>(),
        strict_weak_order::<i64>(),
{
}

/// No element of `s` comes before an earlier one.
pub open spec fn sorted<T: PartialOrd>(s: Seq<T>) -> bool {
    forall|i: int, j: int| 0 <= i < j < s.len() ==> !lt(#[trigger] s[j], #[trigger] s[i])
}

/// How many elements of `s` come strictly before `v`.
pub open spec fn count_less<T: PartialOrd>(s: Seq<T>, v: T) -> nat
    decreases s.len(),
{
    if s.len() == 0 {
        0
    } else {
        count_less(s.drop_last(), v) + if lt(s.last(), v) {
            1nat
        } else {
            0nat
        }
    }
}

/// In a sorted sequence the elements before `v` are exactly the first
/// `count_less(s, v)`: the smallest element not before `v` stands at that index.
pub proof fn lemma_count_less_splits<T: PartialOrd>(s: Seq<T>, v: T)
    requires
        strict_weak_order::<T>(),
        sorted(s),
    ensures
        count_less(s, v) <= s.len(),
        forall|i: int| 0 <= i < count_less(s, v) ==> lt(#[trigger] s[i], v),
        forall|i: int| count_less(s, v) <= i < s.len() ==> !lt(#[trigger] s[i], v),
    decreases s.len(),
{
    if s.len() > 0 {
        let t = s.drop_last();
        assert(sorted(t)) by {
            assert forall|i: int, j: int| 0 <= i < j < t.len() implies !lt(
                #[trigger] t[j],
                #[trigger] t[i],
            ) by {
                assert(t[j] == s[j] && t[i] == s[i]);
            }
        }
        lemma_count_less_splits(t, v);
        let k = count_less(t, v);
        let last = s.last();
        if lt(last, v) {
            assert forall|i: int| 0 <= i < s.len() implies lt(#[trigger] s[i], v) by {
                if i < s.len() - 1 {
                    assert(!lt(s[s.len() - 1], s[i]));
                    assert(lt(last, v) ==> lt(last, s[i]) || lt(s[i], v));
                }
            }
            assert(k == t.len()) by {
                if k < t.len() {
                    assert(!lt(t[k as int], v));
                    assert(lt(s[k as int], v));
                }
            }
        } else {
            assert forall|i: int| 0 <= i < count_less(s, v) implies lt(#[trigger] s[i], v) by {
                assert(s[i] == t[i]);
            }
            assert forall|i: int| count_less(s, v) <= i < s.len() implies !lt(#[trigger] s[i], v) by {
                if i < s.len() - 1 {
                    assert(s[i] == t[i]);
                }
            }
        }
    }
}

/// Where a search for `v` in the sorted `s`, from just after place `p`, lands:
/// on the first place after `p` whose value does not come before `v`.
pub open spec fn landing<T: PartialOrd>(s: Seq<T>, p: int, v: T) -> int {
    let c = count_less(s, v) as int;
    if c > p {
        c
    } else {
        p + 1
    }
}

/// Relies on rand::random: a value from the thread's generator, of which nothing is promised.
pub assume_specification<T>[ rand::random::<T> ]() -> (r: T)
    where
        rand::distributions::Standard: rand::distributions::Distribution<T>,
;

/// A height for a new node, between 1 and `MAX_LEVEL`.
fn random_height() -> (h: usize)
    ensures
        1 <= h <= MAX_LEVEL,
{
    let r: usize = rand::random::<usize>();
    r % MAX_LEVEL + 1
}

/// A place `p` after a new element was put at place `k`.
pub open spec fn shifted(p: int, k: int) -> int {
    if p >= k {
        p + 1
    } else {
        p
    }
}

/// `s` with `v` put in front of the values equal to it and behind those before it.
pub open spec fn insert_sorted<T: PartialOrd>(s: Seq<T>, v: T) -> Seq<T> {
    s.insert(count_less(s, v) as int, v)
}

/// What inserting `vals` into `s`, one after the other, leaves.
pub open spec fn insert_all<T: PartialOrd>(s: Seq<T>, vals: Seq<T>) -> Seq<T>
    decreases vals.len(),
{
    if vals.len() == 0 {
        s
    } else {
        insert_all(insert_sorted(s, vals[0]), vals.drop_first())
    }
}

/// No two values of `s` are equivalent: of any two, one comes before the other.
pub open spec fn no_ties<T: PartialOrd>(s: Seq<T>) -> bool {
    forall|i: int, j: int|
        0 <= i < s.len() && 0 <= j < s.len() && i != j ==> lt(#[trigger] s[i], #[trigger] s[j])
            || lt(s[j], s[i])
}

/// Inserting a value into a sorted sequence keeps it sorted and adds the value.
pub proof fn lemma_insert_sorted<T: PartialOrd>(s: Seq<T>, v: T)
    requires
        strict_weak_order::<T>(),
        sorted(s),
    ensures
        sorted(insert_sorted(s, v)),
        insert_sorted(s, v).to_multiset() == s.to_multiset().insert(v),
{
    lemma_count_less_splits(s, v);
    let k = count_less(s, v) as int;
    let t = insert_sorted(s, v);
    assert forall|i: int, j: int| 0 <= i < j < t.len() implies !lt(#[trigger] t[j], #[trigger] t[i]) by {
        if j < k {
            assert(t[j] == s[j] && t[i] == s[i]);
        } else if j == k {
            assert(t[i] == s[i]);
            assert(lt(s[i], v));
        } else if i == k {
            assert(t[j] == s[j - 1]);
        } else if i < k {
            assert(t[j] == s[j - 1] && t[i] == s[i]);
        } else {
            assert(t[j] == s[j - 1] && t[i] == s[i - 1]);
        }
    }
    vstd::seq_lib::to_multiset_insert(s, k, v);
}

/// Whatever values are inserted, in whatever order, into a sorted sequence, the
/// result is sorted and holds each of them once more.
pub proof fn lemma_insert_all<T: PartialOrd>(s: Seq<T>, vals: Seq<T>)
    requires
        strict_weak_order::<T>(),
        sorted(s),
    ensures
        sorted(insert_all(s, vals)),
        insert_all(s, vals).to_multiset() == s.to_multiset().add(vals.to_multiset()),
    decreases vals.len(),
{
    broadcast use vstd::multiset::group_multiset_axioms;

    if vals.len() == 0 {
        assert(vals.to_multiset() =~= Multiset::empty()) by {
            broadcast use vstd::seq_lib::group_to_multiset_ensures;

        }
        assert(s.to_multiset().add(vals.to_multiset()) =~= s.to_multiset());
    } else {
        let s1 = insert_sorted(s, vals[0]);
        lemma_insert_sorted(s, vals[0]);
        lemma_insert_all(s1, vals.drop_first());
        assert(vals =~= seq![vals[0]] + vals.drop_first());
        vstd::seq_lib::lemma_multiset_commutative(seq![vals[0]], vals.drop_first());
        assert(seq![vals[0]].to_multiset() =~= Multiset::singleton(vals[0])) by {
            broadcast use vstd::seq_lib::group_to_multiset_ensures;

            assert(seq![vals[0]] =~= Seq::<T>::empty().push(vals[0]));
            vstd::seq_lib::to_multiset_build(Seq::<T>::empty(), vals[0]);
        }
        assert(s.to_multiset().add(vals.to_multiset()) =~= s1.to_multiset().add(
            vals.drop_first().to_multiset(),
        ));
    }
}

/// Inserting values one by one into an empty list leaves them all, sorted.
pub proof fn lemma_inserts_sorted<T: PartialOrd>(vals: Seq<T>)
    requires
        strict_weak_order::<T>(),
    ensures
        sorted(insert_all(Seq::empty(), vals)),
        insert_all(Seq::empty(), vals).to_multiset() == vals.to_multiset(),
{
    broadcast use vstd::multiset::group_multiset_axioms;

    lemma_insert_all(Seq::<T>::empty(), vals);
    assert(Seq::<T>::empty().to_multiset() =~= Multiset::empty()) by {
        broadcast use vstd::seq_lib::group_to_multiset_ensures;

    }
    assert(Multiset::<T>::empty().add(vals.to_multiset()) =~= vals.to_multiset());
}

/// A node of the list: a value and one forward link per level it takes part in.
pub struct Node<T> {
    pub value: T,
    /// For each level, the index of the next node on it in the list's arena.
    pub nexts: Vec<Option<usize>>,
}

/// An ordered multi-set of values, kept as a skip list whose nodes live in an
/// arena and link to each other by index. Equal values keep the newest first.
pub struct SkipList<T> {
    head: Vec<Option<usize>>,
    nodes: Vec<Node<T>>,
    /// The handles of the nodes in list order.
    order: Ghost<Seq<int>>,
    /// The place of each handle in `order`.
    place: Ghost<Seq<int>>,
}

impl<T: PartialOrd> View for SkipList<T> {
    type V = Seq<T>;

    closed spec fn view(&self) -> Seq<T> {
        Seq::new(self.nodes@.len(), |i: int| self.nodes@[self.order@[i]].value)
    }
}

impl<T: PartialOrd> SkipList<T> {
    closed spec fn len(&self) -> int {
        self.nodes@.len() as int
    }

    /// The place of a cursor origin: the head stands before every node.
    closed spec fn place_of(&self, x: Option<usize>) -> int {
        match x {
            None => -1,
            Some(h) => self.place@[h as int],
        }
    }

    closed spec fn height_of(&self, x: Option<usize>) -> int {
        match x {
            None => MAX_LEVEL as int,
            Some(h) => self.nodes@[h as int].nexts@.len() as int,
        }
    }

    closed spec fn link_of(&self, x: Option<usize>, l: int) -> Option<usize> {
        match x {
            None => self.head@[l],
            Some(h) => self.nodes@[h as int].nexts@[l],
        }
    }

    /// `link` leads from place `p` to the next node after it that takes part in level `l`.
    closed spec fn link_ok(&self, l: int, p: int, link: Option<usize>) -> bool {
        match link {
            None => forall|q: int|
                p < q < self.len() ==> self.height_of(Some(#[trigger] self.order@[q] as usize)) <= l,
            Some(h) => {
                &&& 0 <= h < self.len()
                &&& self.place@[h as int] > p
                &&& self.height_of(Some(h)) > l
                &&& forall|q: int|
                    p < q < self.place@[h as int] ==> self.height_of(
                        Some(#[trigger] self.order@[q] as usize),
                    ) <= l
            },
        }
    }

    closed spec fn is_node(&self, x: Option<usize>) -> bool {
        match x {
            None => true,
            Some(h) => 0 <= h < self.len(),
        }
    }

    pub closed spec fn wf(&self) -> bool {
        &&& strict_weak_order::<T>()
        &&& self.len() <= usize::MAX
        &&& self.head@.len() == MAX_LEVEL
        &&& self.order@.len() == self.len()
        &&& self.place@.len() == self.len()
        &&& forall|i: int|
            0 <= i < self.len() ==> 0 <= #[trigger] self.order@[i] < self.len()
                && self.place@[self.order@[i]] == i
        &&& forall|h: int|
            0 <= h < self.len() ==> 0 <= #[trigger] self.place@[h] < self.len()
                && self.order@[self.place@[h]] == h
        &&& forall|h: int|
            0 <= h < self.len() ==> 1 <= #[trigger] self.nodes@[h].nexts@.len() <= MAX_LEVEL
        &&& forall|l: int| 0 <= l < MAX_LEVEL ==> self.link_ok(l, -1, #[trigger] self.head@[l])
        &&& forall|h: int, l: int|
            0 <= h < self.len() && 0 <= l < self.nodes@[h].nexts@.len() ==> self.link_ok(
                l,
                self.place@[h],
                #[trigger] self.nodes@[h].nexts@[l],
            )
        &&& sorted(self@)
    }

    closed spec fn seek_place(&self, p: int, v: T) -> int {
        landing(self@, p, v)
    }

    /// The node at a place, or none past the end.
    closed spec fn node_at(&self, k: int) -> Option<usize> {
        if 0 <= k < self.len() {
            Some(self.order@[k] as usize)
        } else {
            None
        }
    }

    /// `y` is the last origin at or after place `base`, on level `l`, that stands before
    /// the values that do not come before `v`.
    closed spec fn pred_before(&self, l: int, y: Option<usize>, base: int, v: T) -> bool {
        &&& self.is_node(y)
        &&& base <= self.place_of(y)
        &&& self.height_of(y) > l
        &&& (self.place_of(y) == base || lt(self@[self.place_of(y)], v))
        &&& (self.link_of(y, l) matches Some(t) ==> !lt(self@[self.place@[t as int]], v))
    }

    /// `y` is the last origin on level `l` before place `k`.
    closed spec fn pred_of(&self, l: int, y: Option<usize>, k: int) -> bool {
        &&& self.is_node(y)
        &&& self.place_of(y) < k
        &&& self.height_of(y) > l
        &&& (self.link_of(y, l) matches Some(t) ==> self.place@[t as int] >= k)
    }

    proof fn lemma_place_bounds(&self, x: Option<usize>)
        requires
            self.wf(),
            self.is_node(x),
        ensures
            -1 <= self.place_of(x) < self.len(),
            1 <= self.height_of(x) <= MAX_LEVEL,
            x is Some ==> self.place_of(x) >= 0,
    {
        if let Some(h) = x {
            assert(0 <= self.place@[h as int] < self.len());
            assert(1 <= self.nodes@[h as int].nexts@.len() <= MAX_LEVEL);
        }
    }

    /// From the origin `start`, walks down the levels to the first node after it
    /// whose value does not come before `val`, and gives for each level the last
    /// origin on it before that node.
    fn search(&self, start: Option<usize>, val: &T) -> (r: (Option<usize>, Vec<Option<usize>>))
        requires
            self.wf(),
            self.is_node(start),
        ensures
            r.0 == self.node_at(self.seek_place(self.place_of(start), *val)),
            r.1@.len() == MAX_LEVEL,
            forall|l: int|
                0 <= l < self.height_of(start) ==> self.pred_of(
                    l,
                    #[trigger] r.1@[l],
                    self.seek_place(self.place_of(start), *val),
                ),
    {
        let ghost s = self@;
        let ghost base = self.place_of(start);
        proof {
            self.lemma_place_bounds(start);
            lemma_count_less_splits(s, *val);
        }
        let mut prev: Vec<Option<usize>> = Vec::new();
        let mut i: usize = 0;
        while i < MAX_LEVEL
            invariant
                i <= MAX_LEVEL,
                prev@.len() == i,
            decreases MAX_LEVEL - i,
        {
            prev.push(None);
            i = i + 1;
        }
        let mut x = start;
        let mut level: usize = match start {
            None => MAX_LEVEL - 1,
            Some(h) => self.nodes[h].nexts.len() - 1,
        };
        loop
            invariant
                self.wf(),
                s == self@,
                self.is_node(start),
                base == self.place_of(start),
                -1 <= base < self.len(),
                self.is_node(x),
                base <= self.place_of(x) < self.len(),
                self.place_of(x) == base || lt(s[self.place_of(x)], *val),
                level < self.height_of(x),
                level < self.height_of(start),
                self.height_of(start) <= MAX_LEVEL,
                prev@.len() == MAX_LEVEL,
                forall|l: int|
                    level < l < self.height_of(start) ==> self.pred_before(
                        l,
                        #[trigger] prev@[l],
                        base,
                        *val,
                    ),
                forall|i: int| 0 <= i < count_less(s, *val) ==> lt(#[trigger] s[i], *val),
                forall|i: int| count_less(s, *val) <= i < s.len() ==> !lt(#[trigger] s[i], *val),
                count_less(s, *val) <= s.len(),
            decreases level, self.len() - self.place_of(x),
        {
            proof {
                self.lemma_place_bounds(x);
            }
            let next = match x {
                None => self.head[level],
                Some(h) => self.nodes[h].nexts[level],
            };
            proof {
                if let Some(h) = x {
                    assert(self.link_ok(level as int, self.place_of(x), self.nodes@[h as int].nexts@[level as int]));
                } else {
                    assert(self.link_ok(level as int, -1, self.head@[level as int]));
                }
            }
            let advance = match next {
                Some(t) => self.nodes[t].value < *val,
                None => false,
            };
            if advance {
                let t = next.unwrap();
                proof {
                    assert(s[self.place@[t as int]] == self.nodes@[t as int].value);
                }
                x = next;
            } else {
                proof {
                    if let Some(t) = next {
                        assert(s[self.place@[t as int]] == self.nodes@[t as int].value);
                    }
                }
                prev.set(level, x);
                if level == 0 {
                    proof {
                        let k = self.seek_place(base, *val);
                        let px = self.place_of(x);
                        let c = count_less(s, *val) as int;
                        assert forall|l: int| 0 <= l < self.height_of(start) implies self.pred_of(
                            l,
                            #[trigger] prev@[l],
                            k,
                        ) by {
                            assert(self.pred_before(l, prev@[l], base, *val));
                            let y = prev@[l];
                            if self.place_of(y) != base {
                                assert(lt(s[self.place_of(y)], *val));
                            }
                            if let Some(t) = self.link_of(y, l) {
                                self.lemma_place_bounds(y);
                                if y is Some {
                                    assert(self.link_ok(l, self.place_of(y), self.nodes@[y->0 as int].nexts@[l]));
                                } else {
                                    assert(self.link_ok(l, -1, self.head@[l]));
                                }
                                let pt = self.place@[t as int];
                                assert(!lt(s[pt], *val));
                            }
                        }
                        match next {
                            None => {
                                if px + 1 < self.len() {
                                    let q = px + 1;
                                    assert(self.height_of(Some(self.order@[q] as usize)) <= 0);
                                    assert(1 <= self.nodes@[self.order@[q]].nexts@.len());
                                }
                                if px != base {
                                    assert(lt(s[px], *val));
                                }
                            },
                            Some(t) => {
                                let pt = self.place@[t as int];
                                if pt > px + 1 {
                                    let q = px + 1;
                                    assert(self.height_of(Some(self.order@[q] as usize)) <= 0);
                                    assert(1 <= self.nodes@[self.order@[q]].nexts@.len());
                                }
                                assert(pt == px + 1);
                                assert(!lt(s[pt], *val));
                                if px != base {
                                    assert(lt(s[px], *val));
                                }
                                assert(self.order@[pt] == t);
                            },
                        }
                    }
                    return (next, prev);
                }
                level = level - 1;
            }
        }
    }

    /// `new` is `old` with a node for `v` put at place `k`, taking part in
    /// `height` levels, right behind the origins `prev`.
    closed spec fn inserted(
        old: &Self,
        new: &Self,
        v: T,
        k: int,
        height: int,
        prev: Seq<Option<usize>>,
    ) -> bool {
        let n = old.len();
        &&& old.wf()
        &&& k == count_less(old@, v)
        &&& 1 <= height <= MAX_LEVEL
        &&& prev.len() == MAX_LEVEL
        &&& forall|l: int| 0 <= l < height ==> old.pred_of(l, #[trigger] prev[l], k)
        &&& new.len() == n + 1
        &&& n < usize::MAX
        &&& new.head@.len() == MAX_LEVEL
        &&& new.order@ == old.order@.insert(k, n)
        &&& new.place@ == Seq::new((n + 1) as nat, |h: int| if h == n { k } else { shifted(old.place@[h], k) })
        &&& new.nodes@[n].value == v
        &&& new.nodes@[n].nexts@.len() == height
        &&& forall|l: int|
            0 <= l < height ==> #[trigger] new.nodes@[n].nexts@[l] == old.link_of(prev[l], l)
        &&& forall|h: int|
            0 <= h < n ==> (#[trigger] new.nodes@[h]).value == old.nodes@[h].value
                && new.nodes@[h].nexts@.len() == old.nodes@[h].nexts@.len()
        &&& forall|h: int, l: int|
            0 <= h < n && 0 <= l < old.nodes@[h].nexts@.len() ==> #[trigger] new.nodes@[h].nexts@[l]
                == if l < height && prev[l] == Some(h as usize) {
                Some(n as usize)
            } else {
                old.nodes@[h].nexts@[l]
            }
        &&& forall|l: int|
            0 <= l < MAX_LEVEL ==> #[trigger] new.head@[l] == if l < height && prev[l] is None {
                Some(n as usize)
            } else {
                old.head@[l]
            }
    }

    proof fn lemma_inserted_shape(old: &Self, new: &Self, v: T, k: int, height: int, prev: Seq<Option<usize>>)
        requires
            Self::inserted(old, new, v, k, height, prev),
        ensures
            0 <= k <= old.len(),
            new.order@.len() == new.len(),
            new.place@.len() == new.len(),
            forall|i: int|
                0 <= i < new.len() ==> 0 <= #[trigger] new.order@[i] < new.len()
                    && new.place@[new.order@[i]] == i,
            forall|h: int|
                0 <= h < new.len() ==> 0 <= #[trigger] new.place@[h] < new.len()
                    && new.order@[new.place@[h]] == h,
            forall|h: int|
                0 <= h < new.len() ==> 1 <= #[trigger] new.nodes@[h].nexts@.len() <= MAX_LEVEL,
            new@ == old@.insert(k, v),
            sorted(new@),
    {
        let n = old.len();
        lemma_count_less_splits(old@, v);
        assert forall|i: int| 0 <= i < new.len() implies 0 <= #[trigger] new.order@[i] < new.len()
            && new.place@[new.order@[i]] == i by {
            if i < k {
                assert(new.order@[i] == old.order@[i]);
                assert(0 <= old.order@[i] < n);
            } else if i > k {
                assert(new.order@[i] == old.order@[i - 1]);
                assert(0 <= old.order@[i - 1] < n);
            }
        }
        assert forall|h: int| 0 <= h < new.len() implies 0 <= #[trigger] new.place@[h] < new.len()
            && new.order@[new.place@[h]] == h by {
            if h < n {
                assert(0 <= old.place@[h] < n);
                assert(old.order@[old.place@[h]] == h);
            }
        }
        assert forall|h: int| 0 <= h < new.len() implies 1 <= #[trigger] new.nodes@[h].nexts@.len()
            <= MAX_LEVEL by {
            if h < n {
                assert(1 <= old.nodes@[h].nexts@.len() <= MAX_LEVEL);
                assert(new.nodes@[h].nexts@.len() == old.nodes@[h].nexts@.len());
            }
        }
        assert forall|i: int| 0 <= i < new.len() implies #[trigger] new@[i] == old@.insert(k, v)[i] by {
            if i < k {
                assert(0 <= old.order@[i] < n);
            } else if i > k {
                assert(0 <= old.order@[i - 1] < n);
            }
        }
        assert(new@ =~= old@.insert(k, v));
        lemma_insert_sorted(old@, v);
    }

    /// A link that the insertion left alone still leads to the next node on its level,
    /// unless it passes over the new node on a level that node takes part in.
    proof fn lemma_kept_link(
        old: &Self,
        new: &Self,
        v: T,
        k: int,
        height: int,
        prev: Seq<Option<usize>>,
        l: int,
        p: int,
        t: Option<usize>,
    )
        requires
            Self::inserted(old, new, v, k, height, prev),
            0 <= l < MAX_LEVEL,
            -1 <= p < old.len(),
            old.link_ok(l, p, t),
            p < k && (t matches Some(h) ==> old.place@[h as int] >= k) ==> height <= l,
        ensures
            new.link_ok(l, shifted(p, k), t),
    {
        let n = old.len();
        let sp = shifted(p, k);
        lemma_count_less_splits(old@, v);
        match t {
            Some(h) => {
                let pt = old.place@[h as int];
                assert(new.place@[h as int] == shifted(pt, k));
                assert(new.nodes@[h as int].nexts@.len() == old.nodes@[h as int].nexts@.len());
                assert forall|q: int| sp < q < new.place@[h as int] implies new.height_of(
                    Some(#[trigger] new.order@[q] as usize),
                ) <= l by {
                    if q < k {
                        let hq = old.order@[q];
                        assert(new.order@[q] == hq);
                        assert(0 <= hq < n);
                        assert(old.height_of(Some(hq as usize)) <= l);
                        assert(new.nodes@[hq].nexts@.len() == old.nodes@[hq].nexts@.len());
                    } else if q > k {
                        let hq = old.order@[q - 1];
                        assert(new.order@[q] == hq);
                        assert(0 <= hq < n);
                        assert(old.height_of(Some(hq as usize)) <= l);
                        assert(new.nodes@[hq].nexts@.len() == old.nodes@[hq].nexts@.len());
                    } else {
                        assert(new.order@[q] == n);
                        assert(new.nodes@[n].nexts@.len() == height);
                    }
                }
            },
            None => {
                assert forall|q: int| sp < q < new.len() implies new.height_of(
                    Some(#[trigger] new.order@[q] as usize),
                ) <= l by {
                    if q < k {
                        let hq = old.order@[q];
                        assert(new.order@[q] == hq);
                        assert(0 <= hq < n);
                        assert(old.height_of(Some(hq as usize)) <= l);
                        assert(new.nodes@[hq].nexts@.len() == old.nodes@[hq].nexts@.len());
                    } else if q > k {
                        let hq = old.order@[q - 1];
                        assert(new.order@[q] == hq);
                        assert(0 <= hq < n);
                        assert(old.height_of(Some(hq as usize)) <= l);
                        assert(new.nodes@[hq].nexts@.len() == old.nodes@[hq].nexts@.len());
                    } else {
                        assert(new.order@[q] == n);
                        assert(new.nodes@[n].nexts@.len() == height);
                    }
                }
            },
        }
    }

    /// On a level that the new node takes part in, only the origin recorded in
    /// `prev` had a link passing over its place.
    proof fn lemma_only_pred_passes(
        old: &Self,
        new: &Self,
        v: T,
        k: int,
        height: int,
        prev: Seq<Option<usize>>,
        l: int,
        y: Option<usize>,
    )
        requires
            Self::inserted(old, new, v, k, height, prev),
            0 <= l < height,
            old.is_node(y),
            old.height_of(y) > l,
            old.place_of(y) < k,
            old.link_ok(l, old.place_of(y), old.link_of(y, l)),
            old.link_of(y, l) matches Some(h) ==> old.place@[h as int] >= k,
        ensures
            y == prev[l],
    {
        let z = prev[l];
        assert(old.pred_of(l, z, k));
        old.lemma_place_bounds(y);
        old.lemma_place_bounds(z);
        let py = old.place_of(y);
        let pz = old.place_of(z);
        if py < pz {
            let hz = z->0;
            assert(old.order@[pz] == hz);
            match old.link_of(y, l) {
                Some(t) => {
                    assert(py < pz < old.place@[t as int]);
                    assert(old.height_of(Some(old.order@[pz] as usize)) <= l);
                },
                None => {
                    assert(old.height_of(Some(old.order@[pz] as usize)) <= l);
                },
            }
        } else if pz < py {
            let hy = y->0;
            assert(old.order@[py] == hy);
            if z is Some {
                assert(old.link_ok(l, pz, old.nodes@[z->0 as int].nexts@[l]));
            } else {
                assert(old.link_ok(l, pz, old.head@[l]));
            }
            match old.link_of(z, l) {
                Some(t) => {
                    assert(pz < py < old.place@[t as int]);
                    assert(old.height_of(Some(old.order@[py] as usize)) <= l);
                },
                None => {
                    assert(old.height_of(Some(old.order@[py] as usize)) <= l);
                },
            }
        } else {
            if y is Some && z is Some {
                assert(old.order@[py] == y->0);
                assert(old.order@[pz] == z->0);
            }
        }
    }

    proof fn lemma_link_of_ok(&self, y: Option<usize>, l: int)
        requires
            self.wf(),
            self.is_node(y),
            0 <= l < self.height_of(y),
        ensures
            self.link_ok(l, self.place_of(y), self.link_of(y, l)),
    {
        if let Some(h) = y {
            assert(self.link_ok(l, self.place@[h as int], self.nodes@[h as int].nexts@[l]));
        } else {
            assert(self.link_ok(l, -1, self.head@[l]));
        }
    }

    /// The link that the insertion points at the new node is right.
    proof fn lemma_fresh_link(
        old: &Self,
        new: &Self,
        v: T,
        k: int,
        height: int,
        prev: Seq<Option<usize>>,
        l: int,
    )
        requires
            Self::inserted(old, new, v, k, height, prev),
            0 <= l < height,
        ensures
            new.link_ok(l, old.place_of(prev[l]), Some(old.len() as usize)),
    {
        let n = old.len();
        let y = prev[l];
        assert(old.pred_of(l, y, k));
        old.lemma_link_of_ok(y, l);
        old.lemma_place_bounds(y);
        lemma_count_less_splits(old@, v);
        let py = old.place_of(y);
        assert forall|q: int| py < q < new.place@[n] implies new.height_of(
            Some(#[trigger] new.order@[q] as usize),
        ) <= l by {
            let hq = old.order@[q];
            assert(new.order@[q] == hq);
            assert(0 <= hq < n);
            assert(old.height_of(Some(hq as usize)) <= l);
            assert(new.nodes@[hq].nexts@.len() == old.nodes@[hq].nexts@.len());
        }
    }

    /// The links of the new node are right.
    proof fn lemma_new_node_link(
        old: &Self,
        new: &Self,
        v: T,
        k: int,
        height: int,
        prev: Seq<Option<usize>>,
        l: int,
    )
        requires
            Self::inserted(old, new, v, k, height, prev),
            0 <= l < height,
        ensures
            new.link_ok(l, k, old.link_of(prev[l], l)),
    {
        let n = old.len();
        let y = prev[l];
        assert(old.pred_of(l, y, k));
        old.lemma_link_of_ok(y, l);
        old.lemma_place_bounds(y);
        lemma_count_less_splits(old@, v);
        let py = old.place_of(y);
        match old.link_of(y, l) {
            Some(h) => {
                let pt = old.place@[h as int];
                assert(new.place@[h as int] == pt + 1);
                assert(new.nodes@[h as int].nexts@.len() == old.nodes@[h as int].nexts@.len());
                assert forall|q: int| k < q < new.place@[h as int] implies new.height_of(
                    Some(#[trigger] new.order@[q] as usize),
                ) <= l by {
                    let hq = old.order@[q - 1];
                    assert(new.order@[q] == hq);
                    assert(0 <= hq < n);
                    assert(old.height_of(Some(hq as usize)) <= l);
                    assert(new.nodes@[hq].nexts@.len() == old.nodes@[hq].nexts@.len());
                }
            },
            None => {
                assert forall|q: int| k < q < new.len() implies new.height_of(
                    Some(#[trigger] new.order@[q] as usize),
                ) <= l by {
                    let hq = old.order@[q - 1];
                    assert(new.order@[q] == hq);
                    assert(0 <= hq < n);
                    assert(old.height_of(Some(hq as usize)) <= l);
                    assert(new.nodes@[hq].nexts@.len() == old.nodes@[hq].nexts@.len());
                }
            },
        }
    }

    /// A link the insertion left alone stays right.
    proof fn lemma_untouched_link(
        old: &Self,
        new: &Self,
        v: T,
        k: int,
        height: int,
        prev: Seq<Option<usize>>,
        l: int,
        y: Option<usize>,
    )
        requires
            Self::inserted(old, new, v, k, height, prev),
            old.is_node(y),
            0 <= l < old.height_of(y),
            !(l < height && prev[l] == y),
        ensures
            new.link_ok(l, shifted(old.place_of(y), k), old.link_of(y, l)),
    {
        old.lemma_link_of_ok(y, l);
        old.lemma_place_bounds(y);
        let p = old.place_of(y);
        let t = old.link_of(y, l);
        if l < height && p < k && (t matches Some(h) ==> old.place@[h as int] >= k) {
            Self::lemma_only_pred_passes(old, new, v, k, height, prev, l, y);
        }
        Self::lemma_kept_link(old, new, v, k, height, prev, l, p, t);
    }

    proof fn lemma_inserted_wf(old: &Self, new: &Self, v: T, k: int, height: int, prev: Seq<Option<usize>>)
        requires
            Self::inserted(old, new, v, k, height, prev),
        ensures
            new.wf(),
            new@ == old@.insert(k, v),
    {
        let n = old.len();
        Self::lemma_inserted_shape(old, new, v, k, height, prev);
        assert forall|l: int| 0 <= l < MAX_LEVEL implies new.link_ok(l, -1, #[trigger] new.head@[l]) by {
            if l < height && prev[l] is None {
                Self::lemma_fresh_link(old, new, v, k, height, prev, l);
            } else {
                Self::lemma_untouched_link(old, new, v, k, height, prev, l, None);
            }
        }
        assert forall|h: int, l: int|
            0 <= h < new.len() && 0 <= l < new.nodes@[h].nexts@.len() implies new.link_ok(
            l,
            new.place@[h],
            #[trigger] new.nodes@[h].nexts@[l],
        ) by {
            if h == n {
                Self::lemma_new_node_link(old, new, v, k, height, prev, l);
            } else {
                assert(new.nodes@[h].nexts@.len() == old.nodes@[h].nexts@.len());
                assert(0 <= old.place@[h] < n);
                if l < height && prev[l] == Some(h as usize) {
                    Self::lemma_fresh_link(old, new, v, k, height, prev, l);
                    assert(old.pred_of(l, prev[l], k));
                } else {
                    Self::lemma_untouched_link(old, new, v, k, height, prev, l, Some(h as usize));
                }
            }
        }
    }
}

impl<T: PartialOrd> SkipList<T> {
    /// An empty list.
    pub fn new() -> (r: SkipList<T>)
        requires
            strict_weak_order::<T>(),
        ensures
            r.wf(),
            r@ == Seq::<T>::empty(),
    {
        let mut head: Vec<Option<usize>> = Vec::new();
        let mut i: usize = 0;
        while i < MAX_LEVEL
            invariant
                i <= MAX_LEVEL,
                head@.len() == i,
                forall|l: int| 0 <= l < i ==> head@[l] == None::<usize>,
            decreases MAX_LEVEL - i,
        {
            head.push(None);
            i = i + 1;
        }
        let r = SkipList { head, nodes: Vec::new(), order: Ghost(Seq::empty()), place: Ghost(Seq::empty()) };
        proof {
            assert(r@ =~= Seq::<T>::empty());
        }
        r
    }

    /// Puts `val` into the list, taking part in the lowest `height` levels, in
    /// front of the values equal to it and behind those that come before it.
    pub fn insert_with_height(&mut self, val: T, height: usize)
        requires
            old(self).wf(),
            1 <= height <= MAX_LEVEL,
        ensures
            final(self).wf(),
            final(self)@ == insert_sorted(old(self)@, val),
    {
        let ghost before = *self;
        let ghost v = val;
        let (_, prev) = self.search(None, &val);
        let ghost k = count_less(before@, v) as int;
        proof {
            lemma_count_less_splits(before@, v);
        }
        let n = self.nodes.len();
        let mut nexts: Vec<Option<usize>> = Vec::new();
        let mut l: usize = 0;
        while l < height
            invariant
                l <= height <= MAX_LEVEL,
                *self == before,
                before.wf(),
                prev@.len() == MAX_LEVEL,
                forall|j: int| 0 <= j < height ==> before.pred_of(j, #[trigger] prev@[j], k),
                nexts@.len() == l,
                forall|j: int| 0 <= j < l ==> #[trigger] nexts@[j] == before.link_of(prev@[j], j),
            decreases height - l,
        {
            assert(before.pred_of(l as int, prev@[l as int], k));
            let link = match prev[l] {
                None => self.head[l],
                Some(h) => self.nodes[h].nexts[l],
            };
            nexts.push(link);
            l = l + 1;
        }
        let mut l: usize = 0;
        while l < height
            invariant
                l <= height <= MAX_LEVEL,
                n == before.len(),
                before.wf(),
                prev@.len() == MAX_LEVEL,
                forall|j: int| 0 <= j < height ==> before.pred_of(j, #[trigger] prev@[j], k),
                self.nodes@.len() == n,
                self.head@.len() == MAX_LEVEL,
                self.order == before.order,
                self.place == before.place,
                forall|h: int|
                    0 <= h < n ==> (#[trigger] self.nodes@[h]).value == before.nodes@[h].value
                        && self.nodes@[h].nexts@.len() == before.nodes@[h].nexts@.len(),
                forall|h: int, j: int|
                    0 <= h < n && 0 <= j < before.nodes@[h].nexts@.len() ==> #[trigger] self.nodes@[h].nexts@[j]
                        == if j < l && prev@[j] == Some(h as usize) {
                        Some(n)
                    } else {
                        before.nodes@[h].nexts@[j]
                    },
                forall|j: int|
                    0 <= j < MAX_LEVEL ==> #[trigger] self.head@[j] == if j < l && prev@[j] is None {
                        Some(n)
                    } else {
                        before.head@[j]
                    },
            decreases height - l,
        {
            assert(before.pred_of(l as int, prev@[l as int], k));
            match prev[l] {
                None => {
                    self.head.set(l, Some(n));
                },
                Some(h) => {
                    assert(self.nodes@[h as int].nexts@.len() == before.nodes@[h as int].nexts@.len());
                    self.nodes[h].nexts.set(l, Some(n));
                },
            }
            l = l + 1;
        }
        self.nodes.push(Node { value: val, nexts });
        let total = self.nodes.len();
        proof {
            assert(total == n + 1);
            self.order = Ghost(before.order@.insert(k, n as int));
            self.place = Ghost(
                Seq::new(
                    (n + 1) as nat,
                    |h: int|
                        if h == n {
                            k
                        } else {
                            shifted(before.place@[h], k)
                        },
                ),
            );
            assert forall|h: int| 0 <= h < n implies (#[trigger] self.nodes@[h]).value == before.nodes@[h].value
                && self.nodes@[h].nexts@.len() == before.nodes@[h].nexts@.len() by {
                assert(self.nodes@[h] == self.nodes@.drop_last()[h]);
            }
            Self::lemma_inserted_wf(&before, self, v, k, height as int, prev@);
        }
    }
}


impl<T: PartialOrd> SkipList<T> {
    /// Puts `val` into the list, in front of the values equal to it and behind
    /// those that come before it; the number of levels it takes part in is drawn
    /// at random.
    pub fn insert(&mut self, val: T)
        requires
            old(self).wf(),
        ensures
            final(self).wf(),
            final(self)@ == insert_sorted(old(self)@, val),
    {
        let height = random_height();
        self.insert_with_height(val, height);
    }

    /// The first node whose value does not come before `val`, or none if every
    /// value comes before it.
    pub fn find_greater_or_equal(&self, val: &T) -> (r: Option<&Node<T>>)
        requires
            self.wf(),
        ensures
            count_less(self@, *val) < self@.len() ==> (r matches Some(node) && node.value
                == self@[count_less(self@, *val) as int]),
            count_less(self@, *val) >= self@.len() ==> r is None,
    {
        proof {
            lemma_count_less_splits(self@, *val);
        }
        let (found, _) = self.search(None, val);
        proof {
            let k = count_less(self@, *val) as int;
            if k < self@.len() {
                assert(0 <= self.order@[k] < self.len());
                assert(self@[k] == self.nodes@[self.order@[k]].value);
            }
        }
        match found {
            Some(h) => Some(&self.nodes[h]),
            None => None,
        }
    }

    /// A cursor standing before the first node.
    pub fn iter(&self) -> (r: SkipListIter<'_, T>)
        requires
            self.wf(),
        ensures
            r.wf(),
            r.items() == self@,
            r.place() == -1,
    {
        SkipListIter { list: self, now: None }
    }

    /// The values of a list are sorted.
    pub proof fn lemma_sorted(&self)
        requires
            self.wf(),
        ensures
            sorted(self@),
    {
    }

    /// A search for `v` lands on the smallest value that does not come before `v`:
    /// every value before its place comes before `v`, and none from its place on.
    pub proof fn lemma_search_lands_on_smallest(&self, v: T)
        requires
            self.wf(),
        ensures
            count_less(self@, v) <= self@.len(),
            forall|i: int| 0 <= i < count_less(self@, v) ==> lt(#[trigger] self@[i], v),
            forall|i: int| count_less(self@, v) <= i < self@.len() ==> !lt(#[trigger] self@[i], v),
    {
        lemma_count_less_splits(self@, v);
    }

    /// A cursor meets the values in increasing order: strictly so where no two
    /// values of the list are equivalent.
    pub proof fn lemma_cursor_order(&self)
        requires
            self.wf(),
        ensures
            forall|i: int, j: int| 0 <= i < j < self@.len() ==> !lt(#[trigger] self@[j], #[trigger] self@[i]),
            no_ties(self@) ==> forall|i: int, j: int|
                0 <= i < j < self@.len() ==> lt(#[trigger] self@[i], #[trigger] self@[j]),
    {
        if no_ties(self@) {
            assert forall|i: int, j: int| 0 <= i < j < self@.len() implies lt(
                #[trigger] self@[i],
                #[trigger] self@[j],
            ) by {
                assert(!lt(self@[j], self@[i]));
                assert(lt(self@[i], self@[j]) || lt(self@[j], self@[i]));
            }
        }
    }
}

/// A forward cursor over a list. It stands on a node, or before the first one.
pub struct SkipListIter<'a, T> {
    list: &'a SkipList<T>,
    now: Option<usize>,
}

impl<'a, T: PartialOrd> SkipListIter<'a, T> {
    /// The values of the list walked over.
    pub closed spec fn items(&self) -> Seq<T> {
        self.list@
    }

    /// The place the cursor stands on; -1 before the first node.
    pub closed spec fn place(&self) -> int {
        self.list.place_of(self.now)
    }

    pub closed spec fn wf(&self) -> bool {
        self.list.wf() && self.list.is_node(self.now)
    }

    /// Moves to the next node and returns it; at the last node, stays and returns none.
    pub fn next(&mut self) -> (r: Option<&'a Node<T>>)
        requires
            old(self).wf(),
        ensures
            final(self).wf(),
            final(self).items() == old(self).items(),
            old(self).place() + 1 < old(self).items().len() ==> (r matches Some(node) && node.value
                == old(self).items()[old(self).place() + 1] && final(self).place() == old(self).place()
                + 1),
            old(self).place() + 1 >= old(self).items().len() ==> r is None && final(self).place()
                == old(self).place(),
    {
        let list = self.list;
        proof {
            list.lemma_place_bounds(self.now);
            list.lemma_link_of_ok(self.now, 0);
        }
        let link = match self.now {
            None => list.head[0],
            Some(h) => list.nodes[h].nexts[0],
        };
        let ghost p = list.place_of(self.now);
        match link {
            Some(t) => {
                proof {
                    let pt = list.place@[t as int];
                    if pt > p + 1 {
                        assert(list.height_of(Some(list.order@[p + 1] as usize)) <= 0);
                        assert(1 <= list.nodes@[list.order@[p + 1]].nexts@.len());
                    }
                    assert(list.order@[pt] == t);
                }
                self.now = Some(t);
                Some(&list.nodes[t])
            },
            None => {
                proof {
                    if p + 1 < list.len() {
                        assert(list.height_of(Some(list.order@[p + 1] as usize)) <= 0);
                        assert(1 <= list.nodes@[list.order@[p + 1]].nexts@.len());
                    }
                }
                None
            },
        }
    }

    /// Moves to the first node after the cursor whose value does not come before
    /// `val` and returns it; where there is none, stays and returns none.
    pub fn seek(&mut self, val: &T) -> (r: Option<&'a Node<T>>)
        requires
            old(self).wf(),
        ensures
            final(self).wf(),
            final(self).items() == old(self).items(),
            ({
                let k = landing(old(self).items(), old(self).place(), *val);
                &&& k < old(self).items().len() ==> (r matches Some(node) && node.value
                    == old(self).items()[k] && final(self).place() == k)
                &&& k >= old(self).items().len() ==> r is None && final(self).place()
                    == old(self).place()
            }),
    {
        let list = self.list;
        proof {
            list.lemma_place_bounds(self.now);
            lemma_count_less_splits(list@, *val);
        }
        let (found, _) = list.search(self.now, val);
        match found {
            Some(t) => {
                proof {
                    let k = landing(list@, list.place_of(self.now), *val);
                    assert(0 <= list.order@[k] < list.len());
                    assert(list.place@[list.order@[k]] == k);
                    assert(list@[k] == list.nodes@[list.order@[k]].value);
                }
                self.now = Some(t);
                Some(&list.nodes[t])
            },
            None => None,
        }
    }
}

} // verus!
