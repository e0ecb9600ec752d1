//! A disjoint set over hashable elements: a `HashMap` gives each element a
//! dense index, and a forest over those indices holds the subsets.
//!
//! Path splitting is used by every lookup, and union is done by size.
use std::collections::hash_map::RandomState;
use std::collections::{HashMap, HashSet};
use std::fmt::Debug;
use std::hash::{BuildHasher, Hash};
use vstd::prelude::*;
use vstd::set_lib::lemma_map_size;
use vstd::std_specs::hash::obeys_key_model;

pub use crate::error::HashDisjointSetError;
use crate::forest::{
    find_root, lemma_empty, lemma_link, lemma_members_finite, lemma_node, lemma_push, lemma_rep,
    lemma_roots_finite, lemma_two_trees_fit, members, relink, roots, Unit, forest_inv,
};
use crate::{SubsetTicket, UnionFind};

verus! {

/// Relies on std's `RandomState::new`: fresh hashing keys, drawn at random
/// for each thread and stepped on every call.
#[verifier::external_body]
fn fresh_keys() -> RandomState {
    RandomState::new()
}

/// Relies on std's `BuildHasher::hash_one`: a hash of one value under the
/// given keys, used as the identity of a new instance.
#[verifier::external_body]
fn identity_under(keys: &RandomState) -> u64 {
    keys.hash_one(0u8)
}

/// An identity for a new instance, drawn from fresh random hashing keys so
/// that two instances of one process share one with negligible chance.
fn new_instance_id() -> u64 {
    let keys = fresh_keys();
    identity_under(&keys)
}

/// Relies on std's `Debug` formatting of a list of hash sets. The order of
/// the sets' elements follows their hashes, which are seeded per process, so
/// nothing is stated of the text.
#[verifier::external_body]
fn debug_text<T: Debug>(subsets: &Vec<HashSet<T>>) -> String {
    format!("{:?}", subsets)
}

/// Uses a `HashMap` and a `Vec` to meet the requirements of `UnionFind`.
///
/// Elements are held by value: each one registered gets the next free index,
/// which it keeps for the life of the instance.
pub struct HashDisjointSet<T> {
    /// Counts insertions and merging unions. It grows by at most two per
    /// element, so a `u128` cannot overflow.
    ver: u128,
    /// The index of each registered element.
    map: HashMap<T, usize>,
    /// The element at each index.
    elems: Vec<T>,
    /// The forest over the indices.
    set: Vec<Unit>,
    subset_count: usize,
    set_id: u64,
    /// The root of each index.
    rep: Ghost<Seq<int>>,
}

impl<T> View for HashDisjointSet<T> {
    /// Each registered element, mapped to the representative of its subset.
    type V = Map<T, T>;

    closed spec fn view(&self) -> Map<T, T> {
        Map::new(
            |k: T| self.map@.contains_key(k),
            |k: T| self.elems@[self.rep@[self.map@[k] as int]],
        )
    }
}

impl<T> HashDisjointSet<T> {
    /// The map and the element list are inverse to each other, the forest
    /// is well formed over the same indices, the counter of subsets counts
    /// its roots, and the version stays within what the structural changes
    /// so far allow.
    pub closed spec fn wf(&self) -> bool {
        let n = self.elems@.len();
        &&& obeys_key_model::<T>()
        &&& forest_inv(self.set@, self.rep@)
        &&& self.set@.len() == n
        &&& forall|i: int|
            0 <= i < n ==> #[trigger] self.map@.contains_key(self.elems@[i]) && self.map@[self.elems@[i]]
                == i
        &&& forall|k: T| #[trigger]
            self.map@.contains_key(k) ==> (self.map@[k] as int) < n && self.elems@[self.map@[k] as int]
                == k
        &&& self.subset_count as int == roots(self.rep@).len()
        &&& self.ver + self.subset_count <= 2 * n
    }

    /// The number of structural changes since the instance was made.
    pub closed spec fn version(&self) -> u128 {
        self.ver
    }

    /// The identity of the instance, carried by each ticket it issues.
    pub closed spec fn instance(&self) -> u64 {
        self.set_id
    }

    /// The ticket that `find` issues for `e` in this state.
    pub closed spec fn ticket(&self, e: T) -> SubsetTicket<T> {
        SubsetTicket {
            id: self.rep@[self.map@[e] as int] as usize,
            ver: self.ver,
            set_id: self.set_id,
            phantom: std::marker::PhantomData,
        }
    }

    /// Whether `e` has been registered.
    pub open spec fn contains(&self, e: T) -> bool {
        self@.contains_key(e)
    }

    /// Whether `a` and `b` are registered and share a subset.
    pub open spec fn same(&self, a: T, b: T) -> bool {
        self.contains(a) && self.contains(b) && self@[a] == self@[b]
    }

    /// The subset that holds `e`.
    pub open spec fn subset(&self, e: T) -> Set<T> {
        self@.dom().filter(|x: T| self@[x] == self@[e])
    }

    /// Every subset.
    pub open spec fn partition(&self) -> Set<Set<T>> {
        self@.dom().map(|e: T| self.subset(e))
    }

    /// The number of subsets: one per representative.
    pub open spec fn num_subsets(&self) -> nat {
        self@.values().len()
    }

    /// The representatives after the subsets of `a` and `b` are merged: the
    /// one of the larger subset stays, that of `a` when the sizes tie.
    pub open spec fn merged(&self, a: T, b: T) -> Map<T, T> {
        let ra = self@[a];
        let rb = self@[b];
        let winner = if self.subset(a).len() < self.subset(b).len() {
            rb
        } else {
            ra
        };
        self@.map_values(|r: T| if r == ra || r == rb { winner } else { r })
    }

    /// Everything a caller can observe is the same in both states.
    pub open spec fn same_state(&self, other: Self) -> bool {
        &&& self@ == other@
        &&& self.version() == other.version()
        &&& self.instance() == other.instance()
        &&& forall|e: T| #[trigger] self.ticket(e) == other.ticket(e)
    }

    /// `next` is what `union(a, b)` leaves when both elements are registered:
    /// nothing observable changes when they already share a subset;
    /// otherwise their subsets merge, the version moves on and there is one
    /// subset fewer.
    pub open spec fn unioned(self, a: T, b: T, next: Self) -> bool {
        &&& next.instance() == self.instance()
        &&& if self.same(a, b) {
            &&& next.same_state(self)
            &&& next.num_subsets() == self.num_subsets()
        } else {
            &&& next@ == self.merged(a, b)
            &&& next.version() == self.version() + 1
            &&& next.num_subsets() + 1 == self.num_subsets()
        }
    }

    proof fn lemma_elems_injective(&self)
        requires
            self.wf(),
        ensures
            forall|i: int, j: int|
                0 <= i < self.elems@.len() && 0 <= j < self.elems@.len() && #[trigger] self.elems@[i]
                    == #[trigger] self.elems@[j] ==> i == j,
    {
        assert forall|i: int, j: int|
            0 <= i < self.elems@.len() && 0 <= j < self.elems@.len() && #[trigger] self.elems@[i]
                == #[trigger] self.elems@[j] implies i == j by {
            assert(self.map@.contains_key(self.elems@[i]));
            assert(self.map@.contains_key(self.elems@[j]));
        }
    }

    /// The subsets are counted by the maintained counter.
    proof fn lemma_num_subsets(&self)
        requires
            self.wf(),
        ensures
            self.num_subsets() == self.subset_count,
            self@.values().finite(),
    {
        let rep = self.rep@;
        let f = |i: int| self.elems@[i];
        lemma_rep(self.set@, rep);
        self.lemma_elems_injective();
        lemma_roots_finite(rep);
        assert forall|v: T| #[trigger] self@.values().contains(v) implies roots(rep).map(
            f,
        ).contains(v) by {
            let k = choose|k: T| #[trigger] self@.contains_key(k) && self@[k] == v;
            let i = rep[self.map@[k] as int];
            assert(roots(rep).contains(i));
        }
        assert forall|v: T| roots(rep).map(f).contains(v) implies #[trigger] self@.values().contains(
            v,
        ) by {
            let i = choose|i: int| roots(rep).contains(i) && f(i) == v;
            let k = self.elems@[i];
            assert(self.map@.contains_key(k));
            assert(self@.contains_key(k) && self@[k] == v);
        }
        assert(self@.values() =~= roots(rep).map(f));
        lemma_map_size(roots(rep), self@.values(), f);
    }

    /// The subset of `e` has as many elements as the tree of its root.
    proof fn lemma_subset_len(&self, e: T)
        requires
            self.wf(),
            self.contains(e),
        ensures
            self.subset(e).finite(),
            self.subset(e).len() == members(self.rep@, self.rep@[self.map@[e] as int]).len(),
    {
        let rep = self.rep@;
        let r = rep[self.map@[e] as int];
        let f = |i: int| self.elems@[i];
        lemma_rep(self.set@, rep);
        self.lemma_elems_injective();
        lemma_members_finite(rep, r);
        assert forall|x: T| #[trigger] self.subset(e).contains(x) implies members(rep, r).map(
            f,
        ).contains(x) by {
            let i = self.map@[x] as int;
            assert(members(rep, r).contains(i) && f(i) == x);
        }
        assert forall|x: T| members(rep, r).map(f).contains(x) implies #[trigger] self.subset(
            e,
        ).contains(x) by {
            let i = choose|i: int| members(rep, r).contains(i) && f(i) == x;
            assert(self.map@.contains_key(x));
        }
        assert(self.subset(e) =~= members(rep, r).map(f));
        lemma_map_size(members(rep, r), self.subset(e), f);
    }

    /// The index of `elem`, or `ElementNotDefined` when it is not registered.
    fn index(&self, elem: &T) -> (r: Result<usize, HashDisjointSetError>)
        where
            T: Eq + Hash,
        requires
            self.wf(),
        ensures
            self.contains(*elem) <==> r is Ok,
            r matches Ok(i) ==> i == self.map@[*elem],
            r matches Err(e) ==> e == HashDisjointSetError::ElementNotDefined,
    {
        match self.map.get(elem) {
            Some(i) => Ok(*i),
            None => Err(HashDisjointSetError::ElementNotDefined),
        }
    }
}

/// The elements of a list of sets, all together.
pub open spec fn union_all<T>(parts: Seq<Set<T>>) -> Set<T>
    decreases parts.len(),
{
    if parts.len() == 0 {
        Set::empty()
    } else {
        union_all(parts.drop_last()).union(parts.last())
    }
}

/// The sizes of a list of sets, added up.
pub open spec fn total_len<T>(parts: Seq<Set<T>>) -> nat
    decreases parts.len(),
{
    if parts.len() == 0 {
        0
    } else {
        total_len(parts.drop_last()) + parts.last().len()
    }
}

proof fn lemma_union_all_contains<T>(parts: Seq<Set<T>>, x: T)
    ensures
        union_all(parts).contains(x) <==> exists|i: int| 0 <= i < parts.len() && #[trigger] parts[i].contains(x),
    decreases parts.len(),
{
    if parts.len() > 0 {
        let init = parts.drop_last();
        lemma_union_all_contains(init, x);
        if exists|i: int| 0 <= i < init.len() && #[trigger] init[i].contains(x) {
            let i = choose|i: int| 0 <= i < init.len() && #[trigger] init[i].contains(x);
            assert(parts[i] == init[i]);
        }
        if exists|i: int| 0 <= i < parts.len() && #[trigger] parts[i].contains(x) {
            let i = choose|i: int| 0 <= i < parts.len() && #[trigger] parts[i].contains(x);
            if i < parts.len() - 1 {
                assert(init[i] == parts[i]);
            }
        }
    }
}

/// Pairwise disjoint finite sets hold as many elements together as their
/// sizes add up to.
proof fn lemma_union_all_len<T>(parts: Seq<Set<T>>)
    requires
        forall|i: int| 0 <= i < parts.len() ==> #[trigger] parts[i].finite(),
        forall|i: int, j: int|
            0 <= i < parts.len() && 0 <= j < parts.len() && i != j ==> #[trigger] parts[i].disjoint(
                #[trigger] parts[j],
            ),
    ensures
        union_all(parts).finite(),
        union_all(parts).len() == total_len(parts),
    decreases parts.len(),
{
    if parts.len() > 0 {
        let init = parts.drop_last();
        let last = parts.last();
        assert forall|i: int| 0 <= i < init.len() implies #[trigger] init[i].finite() by {
            assert(init[i] == parts[i]);
        }
        assert forall|i: int, j: int|
            0 <= i < init.len() && 0 <= j < init.len() && i != j implies #[trigger] init[i].disjoint(
                #[trigger] init[j],
            ) by {
            assert(init[i] == parts[i] && init[j] == parts[j]);
        }
        lemma_union_all_len(init);
        assert(parts[parts.len() - 1].finite());
        assert forall|x: T| union_all(init).contains(x) implies !last.contains(x) by {
            lemma_union_all_contains(init, x);
            let i = choose|i: int| 0 <= i < init.len() && #[trigger] init[i].contains(x);
            assert(init[i] == parts[i]);
            assert(parts[i].disjoint(parts[parts.len() - 1]));
        }
        vstd::set_lib::lemma_set_disjoint_lens(union_all(init), last);
    }
}

impl<T> HashDisjointSet<T> {
    /// Each representative is a registered element that represents itself.
    proof fn lemma_representatives(&self)
        requires
            self.wf(),
        ensures
            forall|x: T|
                #[trigger] self.contains(x) ==> self.contains(self@[x]) && self@[self@[x]] == self@[x],
    {
        lemma_rep(self.set@, self.rep@);
        assert forall|x: T| #[trigger] self.contains(x) implies self.contains(self@[x])
            && self@[self@[x]] == self@[x] by {
            let i = self.rep@[self.map@[x] as int];
            assert(self.map@.contains_key(self.elems@[i]));
        }
    }

    /// A union of an element with itself changes nothing: not the number of
    /// subsets, not the version, and so not the ticket of the element.
    pub proof fn lemma_union_with_itself(s: Self, a: T, next: Self)
        requires
            s.wf(),
            s.contains(a),
            s.unioned(a, a, next),
        ensures
            next.num_subsets() == s.num_subsets(),
            next.version() == s.version(),
            next.ticket(a) == s.ticket(a),
    {
    }

    /// A union leaves one subset fewer when the two elements were in
    /// different subsets, and as many as before otherwise.
    pub proof fn lemma_union_count(s: Self, a: T, b: T, next: Self)
        requires
            s.wf(),
            s.contains(a),
            s.contains(b),
            s.unioned(a, b, next),
        ensures
            next.num_subsets() == s.num_subsets() - (if s.same(a, b) {
                0int
            } else {
                1int
            }),
    {
    }

    /// Every registered element lies in exactly one subset: the sizes of the
    /// subsets, listed once each as `all_subsets` lists them, add up to the
    /// number of elements.
    pub proof fn lemma_sizes_sum(s: Self, parts: Seq<Set<T>>)
        requires
            s.wf(),
            parts.to_set() == s.partition(),
            parts.no_duplicates(),
        ensures
            total_len(parts) == s@.dom().len(),
    {
        s.lemma_representatives();
        assert(s.map@.dom().finite());
        assert(s@.dom() =~= s.map@.dom());
        assert forall|i: int| 0 <= i < parts.len() implies #[trigger] parts[i].finite() && parts[i].subset_of(
            s@.dom(),
        ) by {
            assert(parts.to_set().contains(parts[i]));
            let e = choose|e: T| s@.dom().contains(e) && s.subset(e) == parts[i];
            vstd::set_lib::lemma_set_subset_finite(s@.dom(), s.subset(e));
        }
        assert forall|i: int, j: int|
            0 <= i < parts.len() && 0 <= j < parts.len() && i != j implies #[trigger] parts[i].disjoint(
                #[trigger] parts[j],
            ) by {
            assert(parts.to_set().contains(parts[i]));
            assert(parts.to_set().contains(parts[j]));
            let e = choose|e: T| s@.dom().contains(e) && s.subset(e) == parts[i];
            let f = choose|f: T| s@.dom().contains(f) && s.subset(f) == parts[j];
            if exists|x: T| parts[i].contains(x) && parts[j].contains(x) {
                let x = choose|x: T| parts[i].contains(x) && parts[j].contains(x);
                assert(s.subset(e) =~= s.subset(f));
            }
        }
        lemma_union_all_len(parts);
        assert forall|x: T| #[trigger] union_all(parts).contains(x) <==> s@.dom().contains(x) by {
            lemma_union_all_contains(parts, x);
            if s@.dom().contains(x) {
                assert(s.partition().contains(s.subset(x)));
                let i = choose|i: int| 0 <= i < parts.len() && parts[i] == s.subset(x);
                assert(parts[i].contains(x));
            }
        }
        assert(union_all(parts) =~= s@.dom());
    }

    /// Tickets of one instance are equal exactly when they were taken at one
    /// version and their elements share a subset there. Every operation that
    /// leaves the version alone leaves the observable state alone, which the
    /// last requirement records.
    pub proof fn lemma_ticket_law(s1: Self, s2: Self, x: T, y: T)
        requires
            s1.wf(),
            s2.wf(),
            s1.contains(x),
            s2.contains(y),
            s1.instance() == s2.instance(),
            s1.version() == s2.version() ==> s2.same_state(s1),
        ensures
            s1.ticket(x) == s2.ticket(y) <==> (s1.version() == s2.version() && s1.same(x, y)),
    {
        if s1.version() == s2.version() {
            assert(s2.ticket(y) == s1.ticket(y));
            lemma_rep(s1.set@, s1.rep@);
            s1.lemma_elems_injective();
            assert(s1.map@.dom().finite());
            assert(s1.map@.contains_key(x) && s1.map@.contains_key(y));
            assert(s1.set@.len() == s1.set.len());
        }
    }

    /// Tickets of two instances with different identities never compare
    /// equal, whatever was loaded into them.
    pub proof fn lemma_ticket_instances(s1: Self, s2: Self, x: T, y: T)
        requires
            s1.instance() != s2.instance(),
        ensures
            s1.ticket(x) != s2.ticket(y),
    {
    }

    /// Right after `e` is inserted, its subset holds `e` alone: it has size
    /// one and its ticket differs from that of every other element.
    pub proof fn lemma_insert_then_find(s: Self, e: T, next: Self)
        requires
            s.wf(),
            next.wf(),
            !s.contains(e),
            next@ == s@.insert(e, e),
        ensures
            next.subset(e) == set![e],
            next.subset(e).len() == 1,
            forall|x: T| next.contains(x) && x != e ==> next.ticket(x) != #[trigger] next.ticket(e),
    {
        s.lemma_representatives();
        assert forall|x: T| #[trigger] next.subset(e).contains(x) <==> x == e by {
            if x != e && next.contains(x) {
                assert(s.contains(x));
            }
        }
        assert(next.subset(e) =~= set![e]);
        assert forall|x: T| next.contains(x) && x != e implies next.ticket(x) != #[trigger] next.ticket(e) by {
            assert(s.contains(x));
            lemma_rep(next.set@, next.rep@);
            next.lemma_elems_injective();
            assert(next.map@.dom().finite());
            assert(next@.dom() =~= next.map@.dom());
            assert(next@.contains_key(e));
            assert(next.map@.contains_key(x) && next.map@.contains_key(e));
            assert(next.set@.len() == next.set.len());
            assert(next@[x] == s@[x]);
            assert(s.contains(s@[x]));
            if next.ticket(x) == next.ticket(e) {
                let ix = next.rep@[next.map@[x] as int];
                let ie = next.rep@[next.map@[e] as int];
                assert(ix as usize == ie as usize);
                assert(next@[x] == next.elems@[ix]);
                assert(next@[e] == next.elems@[ie]);
                assert(false);
            }
        }
    }
}

impl<T: Eq + Hash + Copy> Default for HashDisjointSet<T> {
    /// An empty set with a fresh identity.
    fn default() -> (s: Self)
        ensures
            obeys_key_model::<T>() ==> s.wf(),
            s@ == Map::<T, T>::empty(),
            s.version() == 0,
    {
        let set_id = new_instance_id();
        let s = HashDisjointSet {
            ver: 0,
            map: HashMap::new(),
            elems: Vec::new(),
            set: Vec::new(),
            subset_count: 0,
            set_id,
            rep: Ghost(Seq::empty()),
        };
        proof {
            lemma_empty();
            assert(s@ =~= Map::<T, T>::empty());
        }
        s
    }
}

impl<T: Eq + Hash + Copy> HashDisjointSet<T> {
    /// A set that holds each distinct element of `elements` in a subset of
    /// its own. Repeated elements are registered once, at their first
    /// occurrence. Loading is not counted as a change: the version is 0.
    pub fn from_iter(elements: &[T]) -> (s: Self)
        requires
            obeys_key_model::<T>(),
        ensures
            s.wf(),
            s@ == Map::new(|x: T| elements@.contains(x), |x: T| x),
            s.version() == 0,
    {
        let mut map: HashMap<T, usize> = HashMap::new();
        let mut elems: Vec<T> = Vec::new();
        let mut set: Vec<Unit> = Vec::new();
        let ghost mut rep: Seq<int> = Seq::empty();
        proof {
            lemma_empty();
        }
        let mut i: usize = 0;
        while i < elements.len()
            invariant
                obeys_key_model::<T>(),
                i <= elements@.len(),
                forest_inv(set@, rep),
                set@.len() == elems@.len(),
                forall|j: int| 0 <= j < elems@.len() ==> #[trigger] rep[j] == j,
                roots(rep).len() == elems@.len(),
                forall|j: int|
                    0 <= j < elems@.len() ==> #[trigger] map@.contains_key(elems@[j])
                        && map@[elems@[j]] == j,
                forall|k: T| #[trigger]
                    map@.contains_key(k) ==> (map@[k] as int) < elems@.len() && elems@[map@[k] as int]
                        == k,
                forall|x: T| #[trigger] map@.contains_key(x) <==> elements@.subrange(0, i as int).contains(x),
            decreases elements@.len() - i,
        {
            let e = elements[i];
            let ghost map0 = map@;
            if !map.contains_key(&e) {
                let len = set.len();
                let ghost units = set@;
                let ghost old_map = map@;
                let ghost old_elems = elems@;
                map.insert(e, len);
                elems.push(e);
                set.push(Unit { size: 1, parent: len });
                proof {
                    assert(set@.len() == set.len());
                    lemma_rep(units, rep);
                    lemma_roots_finite(rep);
                    lemma_push(units, rep);
                    let prev = rep;
                    assert(!roots(prev).contains(len as int));
                    rep = rep.push(len as int);
                    assert forall|j: int| 0 <= j < elems@.len() implies #[trigger] rep[j] == j by {
                        if j < len {
                            assert(rep[j] == prev[j]);
                        }
                    }
                    assert forall|k: T| #[trigger] map@.contains_key(k) implies (map@[k] as int)
                        < elems@.len() && elems@[map@[k] as int] == k by {
                        if k != e {
                            assert(old_map.contains_key(k));
                        }
                    }
                    assert forall|j: int| 0 <= j < elems@.len() implies #[trigger] map@.contains_key(
                        elems@[j],
                    ) && map@[elems@[j]] == j by {
                        if j < len {
                            assert(old_map.contains_key(old_elems[j]));
                        }
                    }
                }
            }
            proof {
                let prefix = elements@.subrange(0, i as int);
                let next = elements@.subrange(0, i + 1);
                assert(next =~= prefix.push(e));
                assert forall|x: T| #[trigger] map@.contains_key(x) <==> next.contains(x) by {
                    if x == e {
                        assert(next[i as int] == e);
                    } else {
                        if next.contains(x) {
                            let j = choose|j: int| 0 <= j < next.len() && next[j] == x;
                            assert(prefix[j] == x);
                        }
                        if prefix.contains(x) {
                            let j = choose|j: int| 0 <= j < prefix.len() && prefix[j] == x;
                            assert(next[j] == x);
                        }
                        assert(map@.contains_key(x) == map0.contains_key(x));
                    }
                }
            }
            i = i + 1;
        }
        let count = set.len();
        let s = HashDisjointSet {
            ver: 0,
            map,
            elems,
            set,
            subset_count: count,
            set_id: new_instance_id(),
            rep: Ghost(rep),
        };
        proof {
            assert(elements@.subrange(0, elements@.len() as int) =~= elements@);
            assert(s@ =~= Map::new(|x: T| elements@.contains(x), |x: T| x));
        }
        s
    }

    /// Adds `elem` in a subset of its own.
    pub fn insert(&mut self, elem: &T) -> (r: Result<(), HashDisjointSetError>)
        requires
            old(self).wf(),
        ensures
            final(self).wf(),
            r is Err <==> old(self).contains(*elem),
            r matches Err(e) ==> e == HashDisjointSetError::DuplicateElement && *final(self)
                == *old(self),
            r is Ok ==> {
                &&& final(self)@ == old(self)@.insert(*elem, *elem)
                &&& final(self).version() == old(self).version() + 1
                &&& final(self).instance() == old(self).instance()
                &&& final(self).num_subsets() == old(self).num_subsets() + 1
            },
    {
        if self.map.contains_key(elem) {
            return Err(HashDisjointSetError::DuplicateElement);
        }
        let ghost units = self.set@;
        let ghost rep = self.rep@;
        let len = self.set.len();
        self.map.insert(*elem, len);
        self.elems.push(*elem);
        self.set.push(Unit { size: 1, parent: len });
        proof {
            assert(self.set@.len() == self.set.len());
            old(self).lemma_num_subsets();
            lemma_rep(units, rep);
            lemma_roots_finite(rep);
            assert(!roots(rep).contains(len as int));
            lemma_push(units, rep);
            self.rep = Ghost(rep.push(len as int));
        }
        self.subset_count = self.subset_count + 1;
        self.ver = self.ver + 1;
        proof {
            lemma_rep(units, rep);
            assert forall|k: T| #[trigger] self.map@.contains_key(k) implies (self.map@[k] as int)
                < self.elems@.len() && self.elems@[self.map@[k] as int] == k by {
                if k != *elem {
                    assert(old(self).map@.contains_key(k));
                }
            }
            assert forall|j: int| 0 <= j < self.elems@.len() implies #[trigger] self.map@.contains_key(
                self.elems@[j],
            ) && self.map@[self.elems@[j]] == j by {
                if j < len {
                    assert(old(self).map@.contains_key(old(self).elems@[j]));
                }
            }
            assert(self@ =~= old(self)@.insert(*elem, *elem));
            self.lemma_num_subsets();
        }
        Ok(())
    }
}

impl<T: Eq + Hash + Copy> UnionFind<T> for HashDisjointSet<T> {
    type UnionFindError = HashDisjointSetError;

    open spec fn well_formed(&self) -> bool {
        self.wf()
    }

    /// Merges the subsets of `elem_a` and `elem_b` by size: the root of the
    /// smaller tree is hung under the root of the larger, and under the root
    /// of `elem_a` when they are equal.
    fn union(&mut self, elem_a: &T, elem_b: &T) -> (r: Result<(), HashDisjointSetError>)
        ensures
            r is Err <==> !(old(self).contains(*elem_a) && old(self).contains(*elem_b)),
            r matches Err(e) ==> e == HashDisjointSetError::ElementNotDefined && *final(self)
                == *old(self),
            r is Ok ==> old(self).unioned(*elem_a, *elem_b, *final(self)),
    {
        let a_i = match self.index(elem_a) {
            Ok(i) => i,
            Err(e) => return Err(e),
        };
        let b_i = match self.index(elem_b) {
            Ok(i) => i,
            Err(e) => return Err(e),
        };
        let ghost rep = self.rep@;
        let mut root_a = find_root(&mut self.set, a_i, Ghost(rep));
        let mut root_b = find_root(&mut self.set, b_i, Ghost(rep));
        proof {
            lemma_rep(self.set@, rep);
            old(self).lemma_elems_injective();
        }
        if root_a != root_b {
            proof {
                lemma_node(self.set@, rep, root_a as int);
                lemma_node(self.set@, rep, root_b as int);
                old(self).lemma_subset_len(*elem_a);
                old(self).lemma_subset_len(*elem_b);
                old(self).lemma_num_subsets();
                lemma_two_trees_fit(rep, root_a as int, root_b as int);
                lemma_roots_finite(rep);
                assert(roots(rep).contains(root_b as int));
                assert(self.set@.len() == self.set.len());
            }
            if self.set[root_a].size < self.set[root_b].size {
                std::mem::swap(&mut root_a, &mut root_b);
            }
            let ghost units = self.set@;
            proof {
                lemma_link(units, rep, root_a as int, root_b as int);
            }
            self.set[root_b].parent = root_a;
            self.set[root_a].size = self.set[root_a].size + self.set[root_b].size;
            self.rep = Ghost(relink(rep, root_a as int, root_b as int));
            self.subset_count = self.subset_count - 1;
            self.ver = self.ver + 1;
            proof {
                let ua = Unit {
                    size: (units[root_a as int].size + units[root_b as int].size) as usize,
                    parent: root_a as usize,
                };
                let ub = Unit { size: units[root_b as int].size, parent: root_a as usize };
                assert(self.set@ =~= units.update(root_b as int, ub).update(root_a as int, ua));
                let merged = old(self).merged(*elem_a, *elem_b);
                assert forall|k: T| #[trigger] self@.contains_key(k) implies self@[k] == merged[k] by {
                    let i = self.map@[k] as int;
                    assert(old(self).map@.contains_key(k));
                    assert(0 <= rep[i] < rep.len());
                }
                assert(self@ =~= merged);
                self.lemma_num_subsets();
            }
        } else {
            proof {
                assert(self@ =~= old(self)@);
            }
        }
        Ok(())
    }

    /// A ticket naming the root of `elem`, the current version and this
    /// instance.
    fn find(&mut self, elem: &T) -> (r: Result<SubsetTicket<T>, HashDisjointSetError>)
        ensures
            r is Err <==> !old(self).contains(*elem),
            r matches Err(e) ==> e == HashDisjointSetError::ElementNotDefined && *final(self)
                == *old(self),
            r matches Ok(t) ==> t == old(self).ticket(*elem),
            final(self).same_state(*old(self)),
    {
        let i = match self.index(elem) {
            Ok(i) => i,
            Err(e) => return Err(e),
        };
        let root = find_root(&mut self.set, i, Ghost(self.rep@));
        let t = SubsetTicket::new(root, self.ver, self.set_id);
        proof {
            assert(self@ =~= old(self)@);
            SubsetTicket::lemma_eq(t, old(self).ticket(*elem));
        }
        Ok(t)
    }

    /// Scans every element, so it takes time in proportion to their number:
    /// no index from a root to its members is kept.
    fn subset_containing(&mut self, elem: &T) -> (r: Result<HashSet<T>, HashDisjointSetError>)
        ensures
            r is Err <==> !old(self).contains(*elem),
            r matches Err(e) ==> e == HashDisjointSetError::ElementNotDefined && *final(self)
                == *old(self),
            r matches Ok(s) ==> s@ == old(self).subset(*elem),
            final(self).same_state(*old(self)),
    {
        let i = match self.index(elem) {
            Ok(i) => i,
            Err(e) => return Err(e),
        };
        let root = find_root(&mut self.set, i, Ghost(self.rep@));
        let mut subset: HashSet<T> = HashSet::new();
        let n = self.elems.len();
        let mut j: usize = 0;
        while j < n
            invariant
                self.wf(),
                self.map == old(self).map,
                self.elems == old(self).elems,
                self.rep == old(self).rep,
                self.ver == old(self).ver,
                self.set_id == old(self).set_id,
                self.subset_count == old(self).subset_count,
                n == self.elems@.len(),
                j <= n,
                root as int == self.rep@[self.map@[*elem] as int],
                forall|x: T| #[trigger]
                    subset@.contains(x) <==> (self.map@.contains_key(x) && self.map@[x] < j
                        && self.rep@[self.map@[x] as int] == root),
            decreases n - j,
        {
            let r = find_root(&mut self.set, j, Ghost(self.rep@));
            if r == root {
                subset.insert(self.elems[j]);
            }
            proof {
                assert(self.map@.contains_key(self.elems@[j as int]));
            }
            j = j + 1;
        }
        proof {
            lemma_rep(self.set@, self.rep@);
            self.lemma_elems_injective();
            assert forall|x: T| #[trigger] subset@.contains(x) <==> old(self).subset(*elem).contains(x) by {
                if self.map@.contains_key(x) {
                    assert(self.map@[x] < n);
                }
            }
            assert(subset@ =~= old(self).subset(*elem));
            assert(self@ =~= old(self)@);
        }
        Ok(subset)
    }

    /// One pass over the elements, grouping them by root.
    fn all_subsets(&mut self) -> (r: Vec<HashSet<T>>)
        ensures
            r@.map_values(|h: HashSet<T>| h@).to_set() == old(self).partition(),
            r@.map_values(|h: HashSet<T>| h@).no_duplicates(),
            final(self).same_state(*old(self)),
    {
        let n = self.elems.len();
        let mut subset_map: HashMap<usize, usize> = HashMap::new();
        let mut subsets: Vec<HashSet<T>> = Vec::new();
        let ghost mut owners: Seq<int> = Seq::empty();
        let mut j: usize = 0;
        while j < n
            invariant
                self.wf(),
                self.map == old(self).map,
                self.elems == old(self).elems,
                self.rep == old(self).rep,
                self.ver == old(self).ver,
                self.set_id == old(self).set_id,
                self.subset_count == old(self).subset_count,
                n == self.elems@.len(),
                j <= n,
                subsets@.len() == owners.len(),
                forall|p: int|
                    0 <= p < owners.len() ==> 0 <= #[trigger] owners[p] < n && self.rep@[owners[p]]
                        == owners[p] && subset_map@.contains_key(owners[p] as usize)
                        && subset_map@[owners[p] as usize] == p,
                forall|key: usize| #[trigger]
                    subset_map@.contains_key(key) ==> subset_map@[key] < owners.len()
                        && owners[subset_map@[key] as int] == key,
                forall|k: int| 0 <= k < j ==> #[trigger] subset_map@.contains_key(self.rep@[k] as usize),
                forall|p: int, x: T|
                    0 <= p < owners.len() ==> (#[trigger] subsets@[p]@.contains(x) <==> (
                    self.map@.contains_key(x) && self.map@[x] < j && self.rep@[self.map@[x] as int]
                        == owners[p])),
            decreases n - j,
        {
            let root = find_root(&mut self.set, j, Ghost(self.rep@));
            let elem = self.elems[j];
            proof {
                assert(self.map@.contains_key(self.elems@[j as int]));
                lemma_rep(self.set@, self.rep@);
            }
            let ghost before = subsets@;
            let ghost groups_before = subset_map@;
            match subset_map.get(&root) {
                Some(p) => {
                    let p = *p;
                    subsets[p].insert(elem);
                    proof {
                        assert forall|q: int, x: T| 0 <= q < owners.len() implies (
                        #[trigger] subsets@[q]@.contains(x) <==> (self.map@.contains_key(x)
                            && self.map@[x] < j + 1 && self.rep@[self.map@[x] as int] == owners[q])) by {
                            if q != p {
                                assert(subsets@[q] == before[q]);
                            }
                            if self.map@.contains_key(x) && self.map@[x] == j {
                                assert(x == elem);
                            }
                        }
                    }
                },
                None => {
                    let mut fresh: HashSet<T> = HashSet::new();
                    fresh.insert(elem);
                    subsets.push(fresh);
                    subset_map.insert(root, subsets.len() - 1);
                    proof {
                        owners = owners.push(root as int);
                        assert forall|q: int, x: T| 0 <= q < owners.len() implies (
                        #[trigger] subsets@[q]@.contains(x) <==> (self.map@.contains_key(x)
                            && self.map@[x] < j + 1 && self.rep@[self.map@[x] as int] == owners[q])) by {
                            if q < owners.len() - 1 {
                                assert(subsets@[q] == before[q]);
                            } else if self.map@.contains_key(x) && self.map@[x] < j {
                                let k = self.map@[x] as int;
                                assert(groups_before.contains_key(self.rep@[k] as usize));
                            }
                            if self.map@.contains_key(x) && self.map@[x] == j {
                                assert(x == elem);
                            }
                        }
                        assert forall|key: usize| #[trigger] subset_map@.contains_key(key) implies
                            subset_map@[key] < owners.len() && owners[subset_map@[key] as int] == key by {
                        }
                    }
                },
            }
            j = j + 1;
        }
        proof {
            self.lemma_elems_injective();
            lemma_rep(self.set@, self.rep@);
            assert(self@ =~= old(self)@);
            let views = subsets@.map_values(|h: HashSet<T>| h@);
            assert forall|p: int| 0 <= p < views.len() implies #[trigger] views[p] == old(self).subset(
                self.elems@[owners[p]],
            ) by {
                let e = self.elems@[owners[p]];
                assert(self.map@.contains_key(e));
                assert forall|x: T| views[p].contains(x) <==> old(self).subset(e).contains(x) by {
                    if self.map@.contains_key(x) {
                        assert(self.map@[x] < n);
                    }
                }
                assert(views[p] =~= old(self).subset(e));
            }
            assert forall|s: Set<T>| #[trigger] views.to_set().contains(s) <==> old(self).partition().contains(s) by {
                if views.to_set().contains(s) {
                    let p = choose|p: int| 0 <= p < views.len() && views[p] == s;
                    let e = self.elems@[owners[p]];
                    assert(self.map@.contains_key(e));
                    assert(old(self)@.dom().contains(e));
                }
                if old(self).partition().contains(s) {
                    let e = choose|e: T| old(self)@.dom().contains(e) && old(self).subset(e) == s;
                    let k = self.map@[e] as int;
                    assert(subset_map@.contains_key(self.rep@[k] as usize));
                    let p = subset_map@[self.rep@[k] as usize] as int;
                    let o = self.elems@[owners[p]];
                    assert(self.map@.contains_key(o));
                    assert(old(self).subset(o) =~= old(self).subset(e));
                    assert(views[p] == s);
                }
            }
            assert(views.to_set() =~= old(self).partition());
            assert forall|p: int, q: int| 0 <= p < views.len() && 0 <= q < views.len() && p != q
                implies views[p] != views[q] by {
                let o = self.elems@[owners[p]];
                assert(self.map@.contains_key(o));
                assert(views[p].contains(o));
                assert(!views[q].contains(o));
            }
        }
        subsets
    }

    fn same_subset(&mut self, elem_a: &T, elem_b: &T) -> (r: Result<bool, HashDisjointSetError>)
        ensures
            r is Err <==> !(old(self).contains(*elem_a) && old(self).contains(*elem_b)),
            r matches Err(e) ==> e == HashDisjointSetError::ElementNotDefined && *final(self)
                == *old(self),
            r matches Ok(b) ==> b == old(self).same(*elem_a, *elem_b),
            final(self).same_state(*old(self)),
    {
        let a_i = match self.index(elem_a) {
            Ok(i) => i,
            Err(e) => return Err(e),
        };
        let b_i = match self.index(elem_b) {
            Ok(i) => i,
            Err(e) => return Err(e),
        };
        let root_a = find_root(&mut self.set, a_i, Ghost(self.rep@));
        let root_b = find_root(&mut self.set, b_i, Ghost(self.rep@));
        proof {
            lemma_rep(self.set@, self.rep@);
            self.lemma_elems_injective();
            assert(self@ =~= old(self)@);
        }
        Ok(root_a == root_b)
    }

    fn subset_count(&self) -> (r: usize)
        ensures
            r == self.num_subsets(),
    {
        proof {
            self.lemma_num_subsets();
        }
        self.subset_count
    }

    fn subset_size(&mut self, elem: &T) -> (r: Result<usize, HashDisjointSetError>)
        ensures
            r is Err <==> !old(self).contains(*elem),
            r matches Err(e) ==> e == HashDisjointSetError::ElementNotDefined && *final(self)
                == *old(self),
            r matches Ok(n) ==> n == old(self).subset(*elem).len(),
            final(self).same_state(*old(self)),
    {
        let i = match self.index(elem) {
            Ok(i) => i,
            Err(e) => return Err(e),
        };
        let root = find_root(&mut self.set, i, Ghost(self.rep@));
        proof {
            lemma_rep(self.set@, self.rep@);
            lemma_node(self.set@, self.rep@, root as int);
            old(self).lemma_subset_len(*elem);
            assert(self@ =~= old(self)@);
        }
        Ok(self.set[root].size)
    }
}

impl<T: Eq + Hash + Copy + Debug> HashDisjointSet<T> {
    /// Lists the subsets for debugging. The order of the subsets, and of the
    /// elements in each, is arbitrary.
    ///
    /// `Debug` cannot be used for this, since finding the subsets compresses
    /// paths and so needs `&mut self`.
    pub fn fmt(&mut self) -> (s: String)
        requires
            old(self).wf(),
        ensures
            final(self).wf(),
            final(self).same_state(*old(self)),
    {
        let subsets = self.all_subsets();
        debug_text(&subsets)
    }
}

} // verus!
