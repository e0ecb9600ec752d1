//! The forest behind a disjoint set: one node per element index, each
//! pointing at a parent, with roots pointing at themselves.
//!
//! The proofs follow a ghost sequence `rep` that gives, for each index, the
//! root of its tree. Path splitting rewires parents but leaves `rep` alone;
//! only linking two roots changes it.
use vstd::prelude::*;
use vstd::set_lib::*;

verus! {

/// One node of the forest. `size` is meaningful at a root only, where it is
/// the number of nodes in the root's tree.
#[derive(Clone, Copy)]
pub struct Unit {
    pub size: usize,
    pub parent: usize,
}

/// The indices whose root is `r`.
pub open spec fn members(rep: Seq<int>, r: int) -> Set<int> {
    Set::new(|i: int| 0 <= i < rep.len() && rep[i] == r)
}

/// The indices that are roots.
pub open spec fn roots(rep: Seq<int>) -> Set<int> {
    Set::new(|i: int| 0 <= i < rep.len() && rep[i] == i)
}

/// `rep` gives the root of each node of `units`, parents stay within one
/// tree, sizes grow strictly towards the root, and a root's size counts its
/// tree.
#[verifier::opaque]
pub open spec fn forest_inv(units: Seq<Unit>, rep: Seq<int>) -> bool {
    let n = units.len();
    &&& rep.len() == n
    &&& forall|i: int| 0 <= i < n ==> 0 <= #[trigger] rep[i] < n && rep[rep[i]] == rep[i]
    &&& forall|i: int|
        0 <= i < n ==> {
            let u = #[trigger] units[i];
            &&& u.parent < n
            &&& rep[u.parent as int] == rep[i]
            &&& (u.parent == i <==> rep[i] == i)
            &&& u.size >= 1
            &&& u.parent != i ==> u.size < units[u.parent as int].size
        }
    &&& forall|r: int|
        0 <= r < n && rep[r] == r ==> #[trigger] units[r].size == members(rep, r).len()
}

/// The root of each member of `rep` after the tree of `b` is hung under `a`.
pub open spec fn relink(rep: Seq<int>, a: int, b: int) -> Seq<int> {
    Seq::new(rep.len(), |i: int| if rep[i] == b { a } else { rep[i] })
}

pub proof fn lemma_members_finite(rep: Seq<int>, r: int)
    ensures
        members(rep, r).finite(),
        members(rep, r).len() <= rep.len(),
{
    lemma_int_range(0, rep.len() as int);
    assert(members(rep, r).subset_of(set_int_range(0, rep.len() as int)));
    lemma_len_subset(members(rep, r), set_int_range(0, rep.len() as int));
}

pub proof fn lemma_roots_finite(rep: Seq<int>)
    ensures
        roots(rep).finite(),
        roots(rep).len() <= rep.len(),
{
    lemma_int_range(0, rep.len() as int);
    assert(roots(rep).subset_of(set_int_range(0, rep.len() as int)));
    lemma_len_subset(roots(rep), set_int_range(0, rep.len() as int));
}

/// Two different trees together hold no more nodes than the forest.
pub proof fn lemma_two_trees_fit(rep: Seq<int>, a: int, b: int)
    requires
        a != b,
    ensures
        members(rep, a).finite(),
        members(rep, b).finite(),
        members(rep, a).disjoint(members(rep, b)),
        members(rep, a).union(members(rep, b)).len() == members(rep, a).len() + members(
            rep,
            b,
        ).len(),
        members(rep, a).len() + members(rep, b).len() <= rep.len(),
{
    let ma = members(rep, a);
    let mb = members(rep, b);
    lemma_members_finite(rep, a);
    lemma_members_finite(rep, b);
    lemma_int_range(0, rep.len() as int);
    assert(ma.disjoint(mb));
    lemma_set_disjoint_lens(ma, mb);
    assert(ma.union(mb).subset_of(set_int_range(0, rep.len() as int)));
    lemma_len_subset(ma.union(mb), set_int_range(0, rep.len() as int));
}

/// Hanging the root `b` under the root `a`, whose tree is at least as large,
/// and giving `a` the sum of both sizes, keeps the forest well formed.
pub proof fn lemma_link(units: Seq<Unit>, rep: Seq<int>, a: int, b: int)
    requires
        forest_inv(units, rep),
        0 <= a < units.len(),
        0 <= b < units.len(),
        a != b,
        rep[a] == a,
        rep[b] == b,
        units[b].size <= units[a].size,
        units[a].size + units[b].size <= usize::MAX,
    ensures
        ({
            let ua = Unit { size: (units[a].size + units[b].size) as usize, parent: a as usize };
            let ub = Unit { size: units[b].size, parent: a as usize };
            let new_units = units.update(b, ub).update(a, ua);
            let new_rep = relink(rep, a, b);
            &&& forest_inv(new_units, new_rep)
            &&& roots(new_rep) == roots(rep).remove(b)
            &&& members(new_rep, a) == members(rep, a).union(members(rep, b))
        }),
{
    reveal(forest_inv);
    let ua = Unit { size: (units[a].size + units[b].size) as usize, parent: a as usize };
    let ub = Unit { size: units[b].size, parent: a as usize };
    let new_units = units.update(b, ub).update(a, ua);
    let new_rep = relink(rep, a, b);
    let n = units.len();
    lemma_two_trees_fit(rep, a, b);
    assert(members(new_rep, a) =~= members(rep, a).union(members(rep, b)));
    assert forall|r: int| 0 <= r < n && new_rep[r] == r && r != a implies members(new_rep, r)
        == members(rep, r) by {
        assert(members(new_rep, r) =~= members(rep, r));
    }
    assert forall|i: int| 0 <= i < n implies {
        let u = #[trigger] new_units[i];
        &&& u.parent < n
        &&& new_rep[u.parent as int] == new_rep[i]
        &&& (u.parent == i <==> new_rep[i] == i)
        &&& u.size >= 1
        &&& u.parent != i ==> u.size < new_units[u.parent as int].size
    } by {
        let p = units[i].parent as int;
        if i != a && i != b && p != i {
            assert(rep[p] == rep[i]);
        }
    }
    assert(roots(new_rep) =~= roots(rep).remove(b));
}

/// A new singleton node at the end keeps the forest well formed.
pub proof fn lemma_push(units: Seq<Unit>, rep: Seq<int>)
    requires
        forest_inv(units, rep),
        units.len() < usize::MAX,
    ensures
        ({
            let n = units.len() as int;
            let new_units = units.push(Unit { size: 1, parent: n as usize });
            let new_rep = rep.push(n);
            &&& forest_inv(new_units, new_rep)
            &&& roots(new_rep) == roots(rep).insert(n)
            &&& members(new_rep, n) == set![n]
            &&& forall|r: int| 0 <= r < n ==> members(new_rep, r) == members(rep, r)
        }),
{
    reveal(forest_inv);
    let n = units.len() as int;
    let new_units = units.push(Unit { size: 1, parent: n as usize });
    let new_rep = rep.push(n);
    assert(members(new_rep, n) =~= set![n]);
    assert forall|r: int| 0 <= r < n implies members(new_rep, r) == members(rep, r) by {
        assert(members(new_rep, r) =~= members(rep, r));
    }
    assert(roots(new_rep) =~= roots(rep).insert(n));
    assert forall|i: int| 0 <= i < n + 1 implies {
        let u = #[trigger] new_units[i];
        &&& u.parent < n + 1
        &&& new_rep[u.parent as int] == new_rep[i]
        &&& (u.parent == i <==> new_rep[i] == i)
        &&& u.size >= 1
        &&& u.parent != i ==> u.size < new_units[u.parent as int].size
    } by {
        if i < n {
            assert(units[i] == new_units[i]);
        }
    }
}

/// What the invariant says of the roots.
pub proof fn lemma_rep(units: Seq<Unit>, rep: Seq<int>)
    requires
        forest_inv(units, rep),
    ensures
        rep.len() == units.len(),
        forall|i: int|
            0 <= i < rep.len() ==> 0 <= #[trigger] rep[i] < rep.len() && rep[rep[i]] == rep[i],
{
    reveal(forest_inv);
}

/// An empty forest.
pub proof fn lemma_empty()
    ensures
        forest_inv(Seq::empty(), Seq::empty()),
        roots(Seq::empty()) == Set::<int>::empty(),
{
    reveal(forest_inv);
    assert(roots(Seq::empty()) =~= Set::<int>::empty());
}

/// What the invariant says of one node.
pub proof fn lemma_node(units: Seq<Unit>, rep: Seq<int>, i: int)
    requires
        forest_inv(units, rep),
        0 <= i < units.len(),
    ensures
        rep.len() == units.len(),
        0 <= rep[i] < units.len(),
        rep[rep[i]] == rep[i],
        units[i].parent < units.len(),
        rep[units[i].parent as int] == rep[i],
        units[i].parent == i <==> rep[i] == i,
        units[i].size >= 1,
        units[i].parent != i ==> units[i].size < units[units[i].parent as int].size,
        rep[i] == i ==> units[i].size == members(rep, i).len(),
{
    reveal(forest_inv);
}

/// Pointing a non-root node at its grandparent keeps the forest well formed.
pub proof fn lemma_split(units: Seq<Unit>, rep: Seq<int>, i: int)
    requires
        forest_inv(units, rep),
        0 <= i < units.len(),
        units[i].parent != i,
    ensures
        ({
            let g = units[units[i].parent as int].parent;
            forest_inv(units.update(i, Unit { size: units[i].size, parent: g }), rep)
        }),
{
    reveal(forest_inv);
    let p = units[i].parent as int;
    let g = units[p].parent;
    let new_units = units.update(i, Unit { size: units[i].size, parent: g });
    let n = units.len();
    assert forall|j: int| 0 <= j < n implies {
        let u = #[trigger] new_units[j];
        &&& u.parent < n
        &&& rep[u.parent as int] == rep[j]
        &&& (u.parent == j <==> rep[j] == j)
        &&& u.size >= 1
        &&& u.parent != j ==> u.size < new_units[u.parent as int].size
    } by {
        if j != i {
            assert(new_units[j] == units[j]);
            let q = units[j].parent as int;
            assert(new_units[q].size == units[q].size);
        } else {
            assert(units[p] == units[p]);
            assert(new_units[g as int].size == units[g as int].size);
        }
    }
    assert forall|r: int| 0 <= r < n && rep[r] == r implies #[trigger] new_units[r].size
        == members(rep, r).len() by {
        assert(units[r].size == new_units[r].size);
    }
}

/// Follows parents from `elem` to its root, pointing each node passed on the
/// way at its grandparent (path splitting).
pub fn find_root(set: &mut Vec<Unit>, elem: usize, Ghost(rep): Ghost<Seq<int>>) -> (root: usize)
    requires
        forest_inv(old(set)@, rep),
        elem < old(set)@.len(),
    ensures
        forest_inv(final(set)@, rep),
        root as int == rep[elem as int],
        final(set)@.len() == old(set)@.len(),
        forall|i: int| 0 <= i < old(set)@.len() ==> #[trigger] final(set)@[i].size == old(set)@[i].size,
{
    let ghost start = elem as int;
    let ghost sizes = set@;
    let mut elem = elem;
    proof {
        lemma_node(set@, rep, elem as int);
    }
    while set[elem].parent != elem
        invariant
            forest_inv(set@, rep),
            elem < set@.len(),
            rep[elem as int] == rep[start],
            set@.len() == sizes.len(),
            forall|i: int| 0 <= i < sizes.len() ==> #[trigger] set@[i].size == sizes[i].size,
        decreases usize::MAX - set@[elem as int].size,
    {
        proof {
            lemma_node(set@, rep, elem as int);
        }
        let parent = set[elem].parent;
        proof {
            lemma_node(set@, rep, parent as int);
        }
        let grandparent = set[parent].parent;
        let size = set[elem].size;
        let ghost before = set@;
        proof {
            lemma_split(before, rep, elem as int);
        }
        set[elem] = Unit { size, parent: grandparent };
        assert(set@ == before.update(elem as int, Unit { size, parent: grandparent }));
        assert(set@[parent as int].size == before[parent as int].size);
        assert forall|i: int| 0 <= i < sizes.len() implies #[trigger] set@[i].size == sizes[i].size by {
            assert(set@[i].size == before[i].size);
        }
        elem = parent;
    }
    proof {
        lemma_node(set@, rep, elem as int);
    }
    elem
}

} // verus!
