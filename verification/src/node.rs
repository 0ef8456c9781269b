use vstd::prelude::*;
use std::sync::Arc;
use crate::index::{
    span, digit, Index, Shift, BRANCH_FACTOR, BITS_PER_LEVEL, lemma_span_basics,
    lemma_digit_split, lemma_quot_descend, lemma_same_leaf_digit, lemma_leaf_digit_differs,
};
use vstd::arithmetic::div_mod::{
    lemma_fundamental_div_mod, lemma_fundamental_div_mod_converse, lemma_mod_pos_bound,
    lemma_mod_mod,
};
use crate::shared::{share, make_mut};

verus! {

/// A node of the trie: a branch of up to 32 shared children, or a leaf of
/// up to 32 elements.
#[derive(Debug, PartialEq, Eq, PartialOrd, Ord)]
pub enum Node<T> {
    Branch { children: [Option<Arc<Node<T>>>; BRANCH_FACTOR] },
    Leaf { elements: [Option<T>; BRANCH_FACTOR] },
}

/// An array of 32 empty slots.
pub fn no_children<A>() -> (r: [Option<A>; BRANCH_FACTOR])
    ensures
        forall|m: int| 0 <= m < 32 ==> (#[trigger] r@[m]) is None,
{
    [
        None, None, None, None, None, None, None, None,
        None, None, None, None, None, None, None, None,
        None, None, None, None, None, None, None, None,
        None, None, None, None, None, None, None, None,
    ]
}

/// `b` is `a`, or a clone of the value `a` holds.
pub open spec fn opt_cloned<T: Clone>(a: Option<T>, b: Option<T>) -> bool {
    &&& (a is None <==> b is None)
    &&& (a is Some ==> cloned(a->0, b->0))
}

/// `b` is what cloning the node `a` gives: a branch copies its pointers, a
/// leaf clones its elements.
pub open spec fn node_copy<T: Clone>(a: Node<T>, b: Node<T>) -> bool {
    match a {
        Node::Branch { .. } => b == a,
        Node::Leaf { elements } => {
            &&& b is Leaf
            &&& forall|m: int| 0 <= m < 32 ==> opt_cloned(#[trigger] elements@[m], b->elements@[m])
        },
    }
}

/// A copy of a slot of a branch: the same pointer, or none.
pub(crate) fn copy_slot<T>(s: &Option<Arc<Node<T>>>) -> (r: Option<Arc<Node<T>>>)
    ensures
        r == *s,
{
    match s {
        Some(a) => Some(share(a)),
        None => None,
    }
}

/// A clone of a slot of a leaf.
pub(crate) fn copy_element<T: Clone>(s: &Option<T>) -> (r: Option<T>)
    ensures
        opt_cloned(*s, r),
{
    match s {
        Some(x) => Some(x.clone()),
        None => None,
    }
}

impl<T: Clone> Clone for Node<T> {
    /// A branch copies its pointers, so its children stay shared; a leaf
    /// clones its elements.
    fn clone(&self) -> (r: Self)
        ensures
            node_copy(*self, r),
    {
        match self {
            Node::Branch { children } => {
                let mut c = no_children();
                let mut m: usize = 0;
                while m < BRANCH_FACTOR
                    invariant
                        m <= 32,
                        forall|j: int| 0 <= j < m ==> c@[j] == children@[j],
                    decreases 32 - m,
                {
                    c[m] = copy_slot(&children[m]);
                    m = m + 1;
                }
                assert(c =~= *children);
                Node::Branch { children: c }
            },
            Node::Leaf { elements } => {
                let mut c = no_children();
                let mut m: usize = 0;
                while m < BRANCH_FACTOR
                    invariant
                        m <= 32,
                        forall|j: int| 0 <= j < m ==> opt_cloned(#[trigger] elements@[j], c@[j]),
                    decreases 32 - m,
                {
                    c[m] = copy_element(&elements[m]);
                    m = m + 1;
                }
                Node::Leaf { elements: c }
            },
        }
    }
}

/// The element that position `k` reaches in a node at height `h`, following
/// the slot `digit(k, ..)` at every level.
pub open spec fn lookup<T>(n: Node<T>, h: nat, k: nat) -> Option<T>
    decreases h,
{
    match n {
        Node::Leaf { elements } => if h == 0 {
            elements@[(k % 32) as int]
        } else {
            None
        },
        Node::Branch { children } => if h == 0 {
            None
        } else {
            match children@[digit(k, h) as int] {
                Some(c) => lookup(*c, (h - 1) as nat, k),
                None => None,
            }
        },
    }
}

/// How many of the `c` leading positions of a node fall into slot `j`,
/// when each slot holds `p` positions.
pub open spec fn child_count(c: nat, p: nat, j: int) -> nat {
    if j < c / p {
        p
    } else if j == c / p {
        c % p
    } else {
        0
    }
}

/// A node at height `h` holding its first `c` positions: leaves are full,
/// the slots before the last occupied one are full, and unoccupied slots
/// are empty or hold branches with nothing in them.
pub open spec fn wf<T>(n: Node<T>, h: nat, c: nat) -> bool
    decreases h, 1nat,
{
    if h == 0 {
        &&& c == 32
        &&& n is Leaf
        &&& forall|m: int| 0 <= m < 32 ==> (#[trigger] n->elements@[m]) is Some
    } else {
        &&& n is Branch
        &&& c <= span(h + 1)
        &&& c % 32 == 0
        &&& forall|j: int|
            0 <= j < 32 ==> slot_wf(
                #[trigger] n->children@[j],
                (h - 1) as nat,
                child_count(c, span(h), j),
            )
    }
}

/// A slot of a branch, holding a child at height `g` with `c` positions.
pub open spec fn slot_wf<T>(s: Option<Arc<Node<T>>>, g: nat, c: nat) -> bool
    decreases g, 2nat,
{
    if c == 0 {
        s is None || (g > 0 && wf(*s->0, g, 0))
    } else {
        s is Some && wf(*s->0, g, c)
    }
}

/// The node a slot holds.
pub open spec fn slot_node<T>(s: Option<Arc<Node<T>>>) -> Node<T> {
    *s->0
}

/// The node in slot `j` of a branch.
pub open spec fn child<T>(n: Node<T>, j: int) -> Node<T> {
    *n->children@[j]->0
}

/// Every position below `c` reaches an element.
pub proof fn lemma_wf_lookup<T>(n: Node<T>, h: nat, c: nat, k: nat)
    requires
        wf(n, h, c),
        k % span(h + 1) < c,
    ensures
        lookup(n, h, k) is Some,
    decreases h,
{
    lemma_span_basics(h);
    if h == 0 {
        assert(n->elements@[(k % 32) as int] is Some);
    } else {
        let g = (h - 1) as nat;
        let s = span(h);
        let d = digit(k, h);
        lemma_digit_split(k, h);
        lemma_count_slot(c, s, d as int, k % s);
        assert(slot_wf(n->children@[d as int], g, child_count(c, s, d as int)));
        assert(g + 1 == h);
        lemma_wf_lookup(child(n, d as int), g, child_count(c, s, d as int), k);
    }
}

/// A position `s * d + r` (with `r < s`) below `c` lies in an occupied slot
/// `d`, at an offset below that slot's count.
pub proof fn lemma_count_slot(c: nat, s: nat, d: int, r: nat)
    requires
        s > 0,
        0 <= d,
        r < s,
        s * d + r < c,
    ensures
        r < child_count(c, s, d),
{
    let q = c / s;
    lemma_fundamental_div_mod(c as int, s as int);
    assert(c == s * q + c % s);
    if d > q {
        assert(s * d >= s * (q + 1)) by (nonlinear_arith)
            requires d > q, s > 0;
        assert(s * (q + 1) == s * q + s) by (nonlinear_arith);
        assert(c % s < s) by {
            lemma_mod_pos_bound(c as int, s as int);
        }
    } else if d == q {
    } else {
    }
}

/// The height of the nodes whose children are `shift` bits wide.
pub open spec fn height(shift: Shift) -> nat {
    (shift.0 / 5) as nat
}

/// A branch at height `h` holding its first `c` positions, ready to take a
/// leaf at the next position: as `wf`, except that at height 1 the slot
/// that the new leaf goes to may hold anything.
pub open spec fn push_ready<T>(n: Node<T>, h: nat, c: nat) -> bool {
    &&& h >= 1
    &&& n is Branch
    &&& c % 32 == 0
    &&& c + 32 <= span(h + 1)
    &&& forall|j: int|
        0 <= j < 32 && (h > 1 || j != c / span(h)) ==> slot_wf(
            #[trigger] n->children@[j],
            (h - 1) as nat,
            child_count(c, span(h), j),
        )
}

/// The branches that exist on the way from a branch at height `h` to the
/// slot of position `k` at height 1 are branches (missing ones may be
/// created on the way).
pub open spec fn path_open<T>(n: Node<T>, h: nat, k: nat) -> bool
    decreases h,
{
    &&& h >= 1
    &&& n is Branch
    &&& h > 1 ==> match n->children@[digit(k, h) as int] {
        Some(c) => path_open(*c, (h - 1) as nat, k),
        None => true,
    }
}

/// A branch ready to take a leaf at the next position has an open path to
/// it.
pub proof fn lemma_push_ready_open<T>(n: Node<T>, h: nat, k: nat)
    requires
        push_ready(n, h, k % span(h + 1)),
        k % 32 == 0,
    ensures
        path_open(n, h, k),
    decreases h,
{
    if h > 1 {
        let g = (h - 1) as nat;
        let c = k % span(h + 1);
        let s = span(h);
        lemma_span_basics(h);
        lemma_span_basics(g);
        lemma_digit_split(k, h);
        let d = digit(k, h);
        assert(d == c / s);
        assert(g + 1 == h);
        assert(slot_wf(n->children@[d as int], g, c % s));
        if n->children@[d as int] is Some {
            lemma_mod_multiple32(k, s);
            lemma_wf_push_ready(child(n, d as int), g, k % s);
            lemma_push_ready_open(child(n, d as int), g, k);
        }
    }
}

/// A path of new branches from a branch at height `h` down to a leaf at
/// position `k`: every other slot on the way is empty.
pub open spec fn fresh_path<T>(n: Node<T>, h: nat, k: nat) -> bool
    decreases h,
{
    &&& h >= 1
    &&& n is Branch
    &&& forall|j: int|
        0 <= j < 32 && j != digit(k, h) ==> (#[trigger] n->children@[j]) is None
    &&& n->children@[digit(k, h) as int] is Some
    &&& if h == 1 {
        child(n, digit(k, h) as int) is Leaf
    } else {
        fresh_path(child(n, digit(k, h) as int), (h - 1) as nat, k)
    }
}

/// `new` is `old` with a leaf hung at the slot of position `k` at height 1:
/// every other slot on the way is unchanged, the existing branches on the
/// way are kept (with their other slots), and the missing ones are new
/// branches that hold only this path.
pub open spec fn leaf_added<T>(old: Node<T>, new: Node<T>, h: nat, k: nat) -> bool
    decreases h,
{
    &&& h >= 1
    &&& old is Branch
    &&& new is Branch
    &&& forall|j: int|
        0 <= j < 32 && j != digit(k, h) ==> (#[trigger] new->children@[j]) == old->children@[j]
    &&& new->children@[digit(k, h) as int] is Some
    &&& if h == 1 {
        child(new, digit(k, h) as int) is Leaf
    } else if old->children@[digit(k, h) as int] is None {
        fresh_path(child(new, digit(k, h) as int), (h - 1) as nat, k)
    } else {
        leaf_added(child(old, digit(k, h) as int), child(new, digit(k, h) as int), (h - 1) as nat, k)
    }
}

/// Hanging a leaf below a branch with no children builds a fresh path.
pub proof fn lemma_added_to_empty<T>(old: Node<T>, new: Node<T>, h: nat, k: nat)
    requires
        leaf_added(old, new, h, k),
        forall|j: int| 0 <= j < 32 ==> (#[trigger] old->children@[j]) is None,
    ensures
        fresh_path(new, h, k),
{
}

/// A multiple of 32 taken modulo a multiple of 32 stays one, with room for
/// 32 more below the modulus.
pub proof fn lemma_mod_multiple32(x: nat, p: nat)
    requires
        x % 32 == 0,
        p % 32 == 0,
        p > 0,
    ensures
        (x % p) % 32 == 0,
        x % p + 32 <= p,
{
    let q = p / 32;
    lemma_fundamental_div_mod(p as int, 32);
    assert(p == 32 * q);
    lemma_mod_mod(x as int, 32, q as int);
    assert(32 * q == p);
    lemma_mod_pos_bound(x as int, p as int);
    let r = x % p;
    lemma_fundamental_div_mod(r as int, 32);
    lemma_fundamental_div_mod(p as int, 32);
    assert(r == 32 * (r / 32));
    assert(r + 32 <= p) by (nonlinear_arith)
        requires r == 32 * (r / 32), p == 32 * q, r < p;
}

/// Adding a leaf's worth of positions grows only the slot the next
/// position falls into.
pub proof fn lemma_count_push(c: nat, s: nat, j: int)
    requires
        c % 32 == 0,
        s % 32 == 0,
        s >= 32,
        0 <= j,
    ensures
        j == c / s ==> child_count(c + 32, s, j) == child_count(c, s, j) + 32,
        j != c / s ==> child_count(c + 32, s, j) == child_count(c, s, j),
{
    let q = c / s;
    let r = c % s;
    lemma_fundamental_div_mod(c as int, s as int);
    lemma_mod_multiple32(c, s);
    if r + 32 < s {
        lemma_fundamental_div_mod_converse((c + 32) as int, s as int, q as int, (r + 32) as int);
    } else {
        assert(c + 32 == s * (q + 1)) by (nonlinear_arith)
            requires c == s * q + r, r + 32 == s;
        lemma_fundamental_div_mod_converse((c + 32) as int, s as int, (q + 1) as int, 0);
    }
}

/// Where the leaf at position `k` (a multiple of 32) sits below a branch
/// at height `h`: the count `c` of positions before it in the branch, the
/// slot `digit(k, h)` it goes through, and how the slot counts change when
/// a leaf's worth of positions is added.
pub proof fn lemma_leaf_slot(k: nat, h: nat)
    requires
        h >= 1,
        k % 32 == 0,
    ensures
        ({
            let c = k % span(h + 1);
            let s = span(h);
            &&& span(h) > 0
            &&& span(h) % 32 == 0
            &&& span(h + 1) == 32 * span(h)
            &&& span(h + 1) % 32 == 0
            &&& c % 32 == 0
            &&& c + 32 <= span(h + 1)
            &&& (k % s) % 32 == 0
            &&& k % s + 32 <= s
            &&& c % s == k % s
            &&& digit(k, h) == c / s
            &&& digit(k, h) < 32
            &&& child_count(c, s, digit(k, h) as int) == c % s
            &&& forall|j: int|
                0 <= j < 32 ==> (j == c / s ==> #[trigger] child_count(c + 32, s, j) == child_count(
                    c,
                    s,
                    j,
                ) + 32) && (j != c / s ==> child_count(c + 32, s, j) == child_count(c, s, j))
        }),
{
    let c = k % span(h + 1);
    let s = span(h);
    lemma_span_basics(h);
    lemma_span_basics(h + 1);
    lemma_digit_split(k, h);
    lemma_mod_multiple32(k, s);
    lemma_mod_multiple32(k, span(h + 1));
    assert forall|j: int| 0 <= j < 32 implies (j == c / s ==> #[trigger] child_count(c + 32, s, j)
        == child_count(c, s, j) + 32) && (j != c / s ==> child_count(c + 32, s, j) == child_count(
        c,
        s,
        j,
    )) by {
        lemma_count_push(c, s, j);
    }
}

/// A branch with only empty slots holds nothing.
pub proof fn lemma_empty_branch_wf<T>(n: Node<T>, h: nat)
    requires
        h >= 1,
        n is Branch,
        forall|j: int| 0 <= j < 32 ==> (#[trigger] n->children@[j]) is None,
    ensures
        wf(n, h, 0),
{
    lemma_span_basics(h);
    assert forall|j: int| 0 <= j < 32 implies slot_wf(
        #[trigger] n->children@[j],
        (h - 1) as nat,
        child_count(0, span(h), j),
    ) by {
        assert(0nat / span(h) == 0);
    }
}

/// A branch that is well formed and not full is ready to take a leaf.
pub proof fn lemma_wf_push_ready<T>(n: Node<T>, h: nat, c: nat)
    requires
        wf(n, h, c),
        h >= 1,
        c + 32 <= span(h + 1),
    ensures
        push_ready(n, h, c),
{
}

/// A copy of a branch is the same branch.
pub proof fn lemma_copy_branch<T: Clone>(a: Node<T>, b: Node<T>)
    requires
        cloned(a, b),
        a is Branch,
    ensures
        b == a,
{
}

/// A copy of a node reaches the same positions, each holding the element
/// or a clone of it; a copied branch is the same branch.
pub proof fn lemma_copy_lookup<T: Clone>(a: Node<T>, b: Node<T>, h: nat, k: nat)
    requires
        cloned(a, b),
        reaches(a, h, k),
    ensures
        reaches(b, h, k),
        opt_cloned(lookup(a, h, k), lookup(b, h, k)),
        node_copy(a, b),
        h > 0 ==> b == a,
{
    if a == b {
        if a is Leaf {
            assert forall|m: int| 0 <= m < 32 implies opt_cloned(
                #[trigger] a->elements@[m],
                b->elements@[m],
            ) by {}
        }
    }
    assert(node_copy(a, b));
    if h == 0 {
        assert(b->elements@[(k % 32) as int] == lookup(b, h, k));
        assert(a->elements@[(k % 32) as int] == lookup(a, h, k));
    }
}

/// `new` is `old` with the leaf on the way of position `k` taken out of its
/// slot at height 1; the branches on the way stay in place (pointer for
/// pointer copies of themselves), and all other slots are unchanged.
pub open spec fn leaf_removed<T>(old: Node<T>, new: Node<T>, h: nat, k: nat) -> bool
    decreases h,
{
    &&& h >= 1
    &&& old is Branch
    &&& new is Branch
    &&& forall|j: int|
        0 <= j < 32 && j != digit(k, h) ==> (#[trigger] new->children@[j]) == old->children@[j]
    &&& if h == 1 {
        new->children@[digit(k, h) as int] is None
    } else {
        &&& new->children@[digit(k, h) as int] is Some
        &&& leaf_removed(
            child(old, digit(k, h) as int),
            child(new, digit(k, h) as int),
            (h - 1) as nat,
            k,
        )
    }
}

/// Position `k` leads through existing branches down to a leaf.
pub open spec fn reaches<T>(n: Node<T>, h: nat, k: nat) -> bool
    decreases h,
{
    if h == 0 {
        n is Leaf
    } else {
        &&& n is Branch
        &&& n->children@[digit(k, h) as int] is Some
        &&& reaches(child(n, digit(k, h) as int), (h - 1) as nat, k)
    }
}

/// A position that reaches an element leads through existing branches.
pub proof fn lemma_lookup_reaches<T>(n: Node<T>, h: nat, k: nat)
    requires
        lookup(n, h, k) is Some,
    ensures
        reaches(n, h, k),
    decreases h,
{
    if h > 0 {
        lemma_lookup_reaches(child(n, digit(k, h) as int), (h - 1) as nat, k);
    }
}

/// `new` is `old` with the element at position `k` set to `v`: the branches
/// on the way to it are copied pointer for pointer, and the leaf holding it
/// may have had its other elements cloned.
pub open spec fn updated<T: Clone>(old: Node<T>, new: Node<T>, h: nat, k: nat, v: Option<T>) -> bool
    decreases h, 1nat,
{
    if h == 0 {
        &&& old is Leaf
        &&& new is Leaf
        &&& new->elements@ == old->elements@.update((k % 32) as int, v)
    } else {
        &&& old is Branch
        &&& new is Branch
        &&& old->children@[digit(k, h) as int] is Some
        &&& new->children@[digit(k, h) as int] is Some
        &&& forall|j: int|
            0 <= j < 32 && j != digit(k, h) ==> (#[trigger] new->children@[j]) == old->children@[j]
        &&& child_updated(child(old, digit(k, h) as int), child(new, digit(k, h) as int), (h - 1) as nat, k, v)
    }
}

/// The child `new` replaces the child `old` in an update of position `k`
/// to `v`: a leaf reached through a copied pointer may hold clones of its
/// other elements.
pub open spec fn child_updated<T: Clone>(old: Node<T>, new: Node<T>, g: nat, k: nat, v: Option<T>) -> bool
    decreases g, 2nat,
{
    if g == 0 {
        &&& old is Leaf
        &&& new is Leaf
        &&& new->elements@[(k % 32) as int] == v
        &&& forall|m: int|
            0 <= m < 32 && m != k % 32 ==> opt_cloned(
                #[trigger] old->elements@[m],
                new->elements@[m],
            )
    } else {
        updated(old, new, g, k, v)
    }
}

/// What an update of position `k` to `v` reads back: `v` at `k`, the same
/// elements in the other leaves, and the same elements or clones of them in
/// the leaf of `k`.
pub proof fn lemma_updated_lookup<T: Clone>(old: Node<T>, new: Node<T>, h: nat, k: nat, v: Option<T>)
    requires
        updated(old, new, h, k, v),
    ensures
        lookup(new, h, k) == v,
        forall|k2: nat|
            k2 / span(h + 1) == k / span(h + 1) && k2 / 32 != k / 32 ==> #[trigger] lookup(new, h, k2)
                == lookup(old, h, k2),
        forall|k2: nat|
            k2 / 32 == k / 32 && k2 != k ==> opt_cloned(
                lookup(old, h, k2),
                #[trigger] lookup(new, h, k2),
            ),
    decreases h,
{
    lemma_span_basics(h);
    if h == 0 {
        assert forall|k2: nat| k2 / 32 == k / 32 && k2 != k implies opt_cloned(
            lookup(old, h, k2),
            #[trigger] lookup(new, h, k2),
        ) by {
            lemma_block_offsets_differ(k2, k);
        }
    } else {
        let g = (h - 1) as nat;
        let d = digit(k, h);
        let oc = child(old, d as int);
        let nc = child(new, d as int);
        assert(g + 1 == h);
        if g > 0 {
            lemma_updated_lookup(oc, nc, g, k, v);
        }
        assert forall|k2: nat|
            k2 / span(h + 1) == k / span(h + 1) && k2 / 32 != k / 32 implies #[trigger] lookup(
            new,
            h,
            k2,
        ) == lookup(old, h, k2) by {
            if digit(k2, h) == d {
                if g == 0 {
                    lemma_leaf_digit_differs(k2, k);
                } else {
                    lemma_quot_descend(k2, k, h);
                    assert(lookup(new, h, k2) == lookup(nc, g, k2));
                    assert(lookup(old, h, k2) == lookup(oc, g, k2));
                    assert(lookup(nc, g, k2) == lookup(oc, g, k2));
                }
            } else {
                assert(new->children@[digit(k2, h) as int] == old->children@[digit(k2, h) as int]);
            }
        }
        assert forall|k2: nat| k2 / 32 == k / 32 && k2 != k implies opt_cloned(
            lookup(old, h, k2),
            #[trigger] lookup(new, h, k2),
        ) by {
            lemma_same_leaf_digit(k2, k, h);
            if g == 0 {
                lemma_block_offsets_differ(k2, k);
                assert(lookup(new, h, k2) == nc->elements@[(k2 % 32) as int]);
                assert(lookup(old, h, k2) == oc->elements@[(k2 % 32) as int]);
            } else {
                assert(lookup(new, h, k2) == lookup(nc, g, k2));
                assert(lookup(old, h, k2) == lookup(oc, g, k2));
                assert(opt_cloned(lookup(oc, g, k2), lookup(nc, g, k2)));
            }
        }
    }
}

/// Distinct positions in the same block have distinct offsets in it.
pub proof fn lemma_block_offsets_differ(a: nat, b: nat)
    requires
        a / 32 == b / 32,
        a != b,
    ensures
        a % 32 != b % 32,
{
    lemma_fundamental_div_mod(a as int, 32);
    lemma_fundamental_div_mod(b as int, 32);
}

/// An update keeps a node well formed.
pub proof fn lemma_updated_wf<T: Clone>(old: Node<T>, new: Node<T>, h: nat, k: nat, v: Option<T>, c: nat)
    requires
        updated(old, new, h, k, v),
        v is Some,
        wf(old, h, c),
    ensures
        wf(new, h, c),
    decreases h,
{
    if h > 0 {
        let g = (h - 1) as nat;
        let d = digit(k, h);
        assert(g + 1 == h);
        let cd = child_count(c, span(h), d as int);
        assert(slot_wf(old->children@[d as int], g, cd));
        if g > 0 {
            lemma_updated_wf(child(old, d as int), child(new, d as int), g, k, v, cd);
        } else {
            let nc = child(new, d as int);
            assert forall|m: int| 0 <= m < 32 implies (#[trigger] nc->elements@[m]) is Some by {
                if m != k % 32 {
                    assert(opt_cloned(child(old, d as int)->elements@[m], nc->elements@[m]));
                }
            }
        }
        assert forall|j: int| 0 <= j < 32 implies slot_wf(
            #[trigger] new->children@[j],
            g,
            child_count(c, span(h), j),
        ) by {
            if j != d {
                assert(new->children@[j] == old->children@[j]);
            }
        }
    }
}

impl<T: Clone> Node<T> {
    /// The element at `index` below this node, whose children are `shift`
    /// bits wide.
    pub fn get(&self, index: Index, shift: Shift) -> (r: Option<&T>)
        requires
            shift.0 % 5 == 0,
            shift.0 < usize::BITS,
            reaches(*self, height(shift), index.0 as nat),
        ensures
            r is Some <==> lookup(*self, height(shift), index.0 as nat) is Some,
            r is Some ==> *r->0 == lookup(*self, height(shift), index.0 as nat)->0,
    {
        let ghost h0 = (shift.0 / 5) as nat;
        let mut node = self;
        let mut sh = shift;
        loop
            invariant
                h0 == (shift.0 / 5) as nat,
                sh.0 % 5 == 0,
                sh.0 < usize::BITS,
                lookup(*node, (sh.0 / 5) as nat, index.0 as nat)
                    == lookup(*self, h0, index.0 as nat),
                reaches(*node, (sh.0 / 5) as nat, index.0 as nat),
            decreases sh.0,
        {
            match node {
                Node::Branch { children } => {
                    let i = index.child(sh);
                    let ghost prev = sh.0;
                    proof {
                        assert(5 * (sh.0 / 5) == sh.0);
                    }
                    node = children[i].as_ref().unwrap();
                    sh = sh.dec();
                    proof {
                        assert(sh.0 / 5 == (prev / 5) - 1);
                    }
                },
                Node::Leaf { elements } => {
                    let e = index.element();
                    assert(sh.0 / 5 == 0);
                    assert(lookup(*node, 0, index.0 as nat) == elements@[e as int]);
                    return elements[e].as_ref();
                },
            }
        }
    }

    /// Hangs a leaf holding `tail` at position `index` below this branch,
    /// whose children are `shift` bits wide, creating the branches on the
    /// way that do not exist yet.
    pub fn push_tail(&mut self, index: Index, shift: Shift, tail: [Option<T>; BRANCH_FACTOR])
        requires
            shift.0 % 5 == 0,
            shift.0 >= BITS_PER_LEVEL,
            shift.0 < usize::BITS,
            index.0 % 32 == 0,
            path_open(*old(self), height(shift), index.0 as nat),
        ensures
            reaches(*final(self), height(shift), index.0 as nat),
            leaf_added(*old(self), *final(self), height(shift), index.0 as nat),
            forall|k: nat|
                k / 32 == index.0 / 32 ==> #[trigger] lookup(*final(self), height(shift), k)
                    == tail@[(k % 32) as int],
            forall|k: nat|
                k / span(height(shift) + 1) == index.0 as nat / span(height(shift) + 1) && k / 32
                    != index.0 / 32 ==> #[trigger] lookup(*final(self), height(shift), k)
                    == lookup(*old(self), height(shift), k),
            push_ready(*old(self), height(shift), index.0 as nat % span(height(shift) + 1)) && (
            forall|m: int| 0 <= m < 32 ==> (#[trigger] tail@[m]) is Some) ==> wf(
                *final(self),
                height(shift),
                index.0 as nat % span(height(shift) + 1) + 32,
            ),
        decreases shift.0,
    {
        let ghost h = height(shift);
        let ghost c = index.0 as nat % span(h + 1);
        let ghost s = span(h);
        let ghost d = digit(index.0 as nat, h);
        let ghost ready = push_ready(*old(self), h, c) && (forall|m: int|
            0 <= m < 32 ==> (#[trigger] tail@[m]) is Some);
        proof {
            assert(5 * h == shift.0);
            lemma_leaf_slot(index.0 as nat, h);
            lemma_span_basics(h);
        }
        let i = index.child(shift);
        assert(i == d);
        if shift.0 != BITS_PER_LEVEL {
            let ghost g = (h - 1) as nat;
            let ghost mut fin = *self;
            let ghost mut mid = *self;
            match self {
                Node::Branch { children } => {
                    if children[i].is_none() {
                        let fresh = Node::Branch { children: no_children() };
                        proof {
                            lemma_empty_branch_wf(fresh, g);
                        }
                        children[i] = Some(Arc::new(fresh));
                    }
                    let ghost before = children@[i as int];
                    proof {
                        assert(path_open(slot_node(before), g, index.0 as nat));
                        if ready {
                            assert(slot_wf(before, g, c % s));
                        }
                    }
                    let child = children[i].as_mut().unwrap();
                    let node = make_mut(child);
                    proof {
                        lemma_copy_branch(slot_node(before), *node);
                        assert(g + 1 == h);
                        if ready {
                            lemma_wf_push_ready(*node, g, c % s);
                        }
                        mid = *node;
                    }
                    let sd = shift.dec();
                    proof {
                        assert(height(sd) == g);
                    }
                    node.push_tail(index, sd, tail);
                    proof {
                        fin = *node;
                    }
                },
                Node::Leaf { .. } => {
                    assert(false);
                },
            }
            proof {
                assert(g + 1 == h);
                assert(*self is Branch);
                assert(self->children@[i as int] is Some);
                assert(child(*self, i as int) == fin);
                assert(forall|j: int| 0 <= j < 32 && j != i ==> self->children@[j] == old(self)->children@[j]);
                // the positions through slot `d` read the same in `mid` as before
                assert forall|k: nat| digit(k, h) == d implies #[trigger] lookup(*old(self), h, k)
                    == lookup(mid, g, k) by {
                    if old(self)->children@[d as int] is None {
                        assert(lookup(mid, g, k) is None);
                    }
                }
                if ready {
                    assert forall|j: int| 0 <= j < 32 implies slot_wf(
                        #[trigger] self->children@[j],
                        g,
                        child_count(c + 32, s, j),
                    ) by {
                        if j != d {
                            assert(slot_wf(old(self)->children@[j], g, child_count(c, s, j)));
                        }
                    }
                    assert(wf(*self, h, c + 32));
                }
                assert forall|k: nat|
                    k / span(h + 1) == index.0 as nat / span(h + 1) && k / 32 != index.0 / 32
                    implies #[trigger] lookup(*self, h, k) == lookup(*old(self), h, k) by {
                    lemma_digit_split(k, h);
                    if digit(k, h) == d {
                        lemma_quot_descend(k, index.0 as nat, h);
                        assert(lookup(*self, h, k) == lookup(fin, g, k));
                        assert(lookup(fin, g, k) == lookup(mid, g, k));
                    } else {
                        assert(self->children@[digit(k, h) as int] == old(self)->children@[digit(k, h) as int]);
                    }
                }
                assert forall|k: nat| k / 32 == index.0 / 32 implies #[trigger] lookup(*self, h, k)
                    == tail@[(k % 32) as int] by {
                    lemma_same_leaf_digit(k, index.0 as nat, h);
                    assert(digit(k, h) == d);
                    assert(lookup(*self, h, k) == lookup(fin, g, k));
                    assert(lookup(fin, g, k) == tail@[(k % 32) as int]);
                }
                assert(reaches(*self, h, index.0 as nat));
                if g > 1 && old(self)->children@[d as int] is None {
                    lemma_added_to_empty(mid, fin, g, index.0 as nat);
                }
                assert(leaf_added(*old(self), *self, h, index.0 as nat));
            }
        } else {
            let ghost leaf = Node::Leaf { elements: tail };
            if let Node::Branch { children } = self {
                children[i] = Some(Arc::new(Node::Leaf { elements: tail }));
            }
            proof {
                assert(h == 1);
                assert(*self is Branch);
                assert(child(*self, d as int) == leaf);
                assert(forall|j: int| 0 <= j < 32 && j != d ==> self->children@[j] == old(self)->children@[j]);
                if ready {
                    assert forall|j: int| 0 <= j < 32 implies slot_wf(
                        #[trigger] self->children@[j],
                        0,
                        child_count(c + 32, s, j),
                    ) by {
                        if j != d {
                            assert(slot_wf(old(self)->children@[j], 0, child_count(c, s, j)));
                        } else {
                            assert(child_count(c, s, j) == 0);
                            assert(wf(leaf, 0, 32));
                        }
                    }
                    assert(wf(*self, h, c + 32));
                }
                assert forall|k: nat|
                    k / span(h + 1) == index.0 as nat / span(h + 1) && k / 32 != index.0 / 32
                    implies #[trigger] lookup(*self, h, k) == lookup(*old(self), h, k) by {
                    lemma_leaf_digit_differs(k, index.0 as nat);
                    assert(self->children@[digit(k, h) as int] == old(self)->children@[digit(k, h) as int]);
                }
                assert forall|k: nat| k / 32 == index.0 / 32 implies #[trigger] lookup(*self, h, k)
                    == tail@[(k % 32) as int] by {
                    lemma_same_leaf_digit(k, index.0 as nat, h);
                    assert(lookup(*self, h, k) == lookup(leaf, 0, k));
                }
                assert(self->children@[d as int] is Some);
                assert(reaches(leaf, 0, index.0 as nat));
                assert(reaches(*self, h, index.0 as nat));
                assert(leaf_added(*old(self), *self, h, index.0 as nat));
            }
        }
    }

    /// Takes out the leaf at position `index` below this branch, whose
    /// children are `shift` bits wide, and returns its elements; the
    /// branches on the way stay in place, even when they are left empty.
    pub fn pop_tail(&mut self, index: Index, shift: Shift) -> (r: [Option<T>; BRANCH_FACTOR])
        requires
            shift.0 % 5 == 0,
            shift.0 >= BITS_PER_LEVEL,
            shift.0 < usize::BITS,
            index.0 % 32 == 0,
            reaches(*old(self), height(shift), index.0 as nat),
        ensures
            leaf_removed(*old(self), *final(self), height(shift), index.0 as nat),
            forall|k: nat|
                k / 32 == index.0 / 32 ==> #[trigger] lookup(*final(self), height(shift), k) is None,
            forall|k: nat|
                k / span(height(shift) + 1) == index.0 as nat / span(height(shift) + 1) && k / 32
                    != index.0 / 32 ==> #[trigger] lookup(*final(self), height(shift), k)
                    == lookup(*old(self), height(shift), k),
            forall|k: nat|
                k / 32 == index.0 / 32 ==> opt_cloned(
                    #[trigger] lookup(*old(self), height(shift), k),
                    r@[(k % 32) as int],
                ),
            wf(*old(self), height(shift), index.0 as nat % span(height(shift) + 1) + 32) ==> wf(
                *final(self),
                height(shift),
                index.0 as nat % span(height(shift) + 1),
            ),
        decreases shift.0,
    {
        let ghost full = wf(*old(self), height(shift), index.0 as nat % span(height(shift) + 1) + 32);
        let ghost h = height(shift);
        let ghost c = index.0 as nat % span(h + 1);
        let ghost s = span(h);
        let ghost d = digit(index.0 as nat, h);
        let ghost g = (h - 1) as nat;
        proof {
            assert(5 * h == shift.0);
            assert(g + 1 == h);
            lemma_leaf_slot(index.0 as nat, h);
            lemma_span_basics(h);
            if full {
                assert(slot_wf(old(self)->children@[d as int], g, c % s + 32));
            }
        }
        let i = index.child(shift);
        if shift.0 != BITS_PER_LEVEL {
            let ghost mut fin = *self;
            let ghost mut mid = *self;
            let mut r = no_children();
            match self {
                Node::Branch { children } => {
                    let slot = children[i].as_mut().unwrap();
                    let node = make_mut(slot);
                    let sd = shift.dec();
                    proof {
                        assert(g > 0);
                        assert(reaches(child(*old(self), d as int), g, index.0 as nat));
                        lemma_copy_branch(child(*old(self), d as int), *node);
                        mid = *node;
                        assert(height(sd) == g);
                    }
                    r = node.pop_tail(index, sd);
                    proof {
                        fin = *node;
                    }
                },
                Node::Leaf { .. } => {
                    assert(false);
                },
            }
            proof {
                assert(child(*self, d as int) == fin);
                assert(mid == child(*old(self), d as int));
                assert(forall|j: int| 0 <= j < 32 && j != d ==> self->children@[j] == old(self)->children@[j]);
                if full {
                    assert forall|j: int| 0 <= j < 32 implies slot_wf(
                        #[trigger] self->children@[j],
                        g,
                        child_count(c, s, j),
                    ) by {
                        if j != d {
                            assert(slot_wf(old(self)->children@[j], g, child_count(c + 32, s, j)));
                        }
                    }
                    assert(wf(*self, h, c));
                }
                assert forall|k: nat| k / 32 == index.0 / 32 implies #[trigger] lookup(*self, h, k) is None by {
                    lemma_same_leaf_digit(k, index.0 as nat, h);
                    assert(lookup(*self, h, k) == lookup(fin, g, k));
                }
                assert forall|k: nat|
                    k / span(h + 1) == index.0 as nat / span(h + 1) && k / 32 != index.0 / 32
                    implies #[trigger] lookup(*self, h, k) == lookup(*old(self), h, k) by {
                    lemma_digit_split(k, h);
                    if digit(k, h) == d {
                        lemma_quot_descend(k, index.0 as nat, h);
                        assert(lookup(*self, h, k) == lookup(fin, g, k));
                        assert(lookup(fin, g, k) == lookup(mid, g, k));
                    } else {
                        assert(self->children@[digit(k, h) as int] == old(self)->children@[digit(k, h) as int]);
                    }
                }
                assert forall|k: nat| k / 32 == index.0 / 32 implies opt_cloned(
                    #[trigger] lookup(*old(self), h, k),
                    r@[(k % 32) as int],
                ) by {
                    lemma_same_leaf_digit(k, index.0 as nat, h);
                    assert(lookup(*old(self), h, k) == lookup(mid, g, k));
                }
            }
            r
        } else {
            let ghost mut copy = *self;
            let mut r = no_children();
            match self {
                Node::Branch { children } => {
                    let mut leaf_node = children[i].take().unwrap();
                    let node = make_mut(&mut leaf_node);
                    proof {
                        lemma_copy_lookup(child(*old(self), d as int), *node, 0, index.0 as nat);
                        copy = *node;
                    }
                    match node {
                        Node::Leaf { elements } => {
                            std::mem::swap(&mut r, elements);
                        },
                        Node::Branch { .. } => {
                            assert(false);
                        },
                    }
                },
                Node::Leaf { .. } => {
                    assert(false);
                },
            }
            proof {
                let leaf = child(*old(self), d as int);
                assert(h == 1);
                assert(node_copy(leaf, copy));
                assert(r == copy->elements);
                assert(self->children@[d as int] is None);
                assert(forall|j: int| 0 <= j < 32 && j != d ==> self->children@[j] == old(self)->children@[j]);
                if full {
                    assert forall|j: int| 0 <= j < 32 implies slot_wf(
                        #[trigger] self->children@[j],
                        0,
                        child_count(c, s, j),
                    ) by {
                        if j != d {
                            assert(slot_wf(old(self)->children@[j], 0, child_count(c + 32, s, j)));
                        }
                    }
                    assert(wf(*self, h, c));
                }
                assert forall|k: nat| k / 32 == index.0 / 32 implies #[trigger] lookup(*self, h, k) is None by {
                    lemma_same_leaf_digit(k, index.0 as nat, h);
                }
                assert forall|k: nat|
                    k / span(h + 1) == index.0 as nat / span(h + 1) && k / 32 != index.0 / 32
                    implies #[trigger] lookup(*self, h, k) == lookup(*old(self), h, k) by {
                    lemma_leaf_digit_differs(k, index.0 as nat);
                    assert(self->children@[digit(k, h) as int] == old(self)->children@[digit(k, h) as int]);
                }
                assert forall|k: nat| k / 32 == index.0 / 32 implies opt_cloned(
                    #[trigger] lookup(*old(self), h, k),
                    r@[(k % 32) as int],
                ) by {
                    lemma_same_leaf_digit(k, index.0 as nat, h);
                    assert(lookup(*old(self), h, k) == lookup(leaf, 0, k));
                    assert(leaf->elements@[(k % 32) as int] == lookup(leaf, 0, k));
                }
            }
            r
        }
    }

    /// Mutable access to the element at `index` below this node, whose
    /// children are `shift` bits wide; shared nodes on the way are copied
    /// first.
    pub fn get_mut(&mut self, index: Index, shift: Shift) -> (r: Option<&mut T>)
        requires
            shift.0 % 5 == 0,
            shift.0 < usize::BITS,
            reaches(*old(self), height(shift), index.0 as nat),
        ensures
            r is Some <==> lookup(*old(self), height(shift), index.0 as nat) is Some,
            r is Some ==> cloned(lookup(*old(self), height(shift), index.0 as nat)->0, *r->0),
            r is Some && height(shift) == 0 ==> *r->0 == lookup(
                *old(self),
                height(shift),
                index.0 as nat,
            )->0,
            r is Some ==> updated(
                *old(self),
                *final(self),
                height(shift),
                index.0 as nat,
                Some(*final(r.unwrap())),
            ),
            r is None ==> updated(*old(self), *final(self), height(shift), index.0 as nat, None),
        decreases shift.0,
    {
        let ghost h = height(shift);
        proof {
            lemma_span_basics(h);
            assert(5 * h == shift.0);
        }
        match self {
            Node::Branch { children } => {
                let i = index.child(shift);
                let slot = children[i].as_mut().unwrap();
                let node = make_mut(slot);
                let sd = shift.dec();
                let ghost m0 = *node;
                let ghost g = (h - 1) as nat;
                proof {
                    let oc = child(*old(self), i as int);
                    let k = index.0 as nat;
                    assert(height(sd) == g);
                    assert(g + 1 == h);
                    assert(lookup(*old(self), h, k) == lookup(oc, g, k));
                    lemma_copy_lookup(oc, m0, g, k);
                }
                let r = node.get_mut(index, sd);
                r
            },
            Node::Leaf { elements } => {
                let e = index.element();
                elements[e].as_mut()
            },
        }
    }
}

/// A position at the end of a node whose level-1 branch already holds
/// leaves: its offset below every level from 2 up is not a multiple of that
/// level's span.
proof fn lemma_span2_divides(k: nat, h: nat)
    requires
        h >= 2,
        k % span(2) != 0,
    ensures
        k % span(h) != 0,
{
    let e = (h - 2) as nat;
    assert(5 * h == 5 * 2 + 5 * e);
    vstd::arithmetic::power2::lemma_pow2_adds(5 * 2, 5 * e);
    vstd::arithmetic::power2::lemma_pow2_pos(5 * e);
    lemma_span_basics(2);
    lemma_mod_mod(k as int, span(2) as int, span(e) as int);
}

/// Hanging a leaf at the end position `k` of a node and taking it out again
/// gives the node back, when the level-1 branch of `k` already held leaves
/// (so no branch was created on the way).
pub proof fn lemma_add_then_remove<T>(old: Node<T>, mid: Node<T>, new: Node<T>, h: nat, k: nat)
    requires
        wf(old, h, k % span(h + 1)),
        k % 32 == 0,
        k % span(2) != 0,
        leaf_added(old, mid, h, k),
        leaf_removed(mid, new, h, k),
    ensures
        new == old,
    decreases h,
{
    lemma_span_basics(h);
    let c = k % span(h + 1);
    let s = span(h);
    let d = digit(k, h);
    lemma_digit_split(k, h);
    assert(d == c / s);
    assert(child_count(c, s, d as int) == k % s);
    if h == 1 {
        assert(slot_wf(old->children@[d as int], 0, child_count(c, s, d as int)));
        assert(old->children@[d as int] is None);
        assert(new->children =~= old->children);
    } else {
        let g = (h - 1) as nat;
        assert(g + 1 == h);
        lemma_span2_divides(k, h);
        assert(slot_wf(old->children@[d as int], g, child_count(c, s, d as int)));
        assert(old->children@[d as int] is Some);
        lemma_add_then_remove(child(old, d as int), child(mid, d as int), child(new, d as int), g, k);
        assert(new->children@[d as int] == old->children@[d as int]);
        assert(new->children =~= old->children);
    }
}

/// Writing a value at position `k` and then writing back what was there
/// before gives the node back, when cloning a `T` gives back an equal value.
pub proof fn lemma_update_back<T: Clone>(
    n0: Node<T>,
    n1: Node<T>,
    n2: Node<T>,
    h: nat,
    k: nat,
    v: Option<T>,
)
    requires
        crate::laws::clone_exact::<T>(),
        updated(n0, n1, h, k, v),
        updated(n1, n2, h, k, lookup(n0, h, k)),
    ensures
        n2 == n0,
    decreases h,
{
    if h == 0 {
        assert(n2->elements =~= n0->elements);
    } else {
        let g = (h - 1) as nat;
        let d = digit(k, h) as int;
        let (c0, c1, c2) = (child(n0, d), child(n1, d), child(n2, d));
        assert(lookup(n0, h, k) == lookup(c0, g, k));
        if g == 0 {
            assert forall|m: int| 0 <= m < 32 implies #[trigger] c2->elements@[m]
                == c0->elements@[m] by {
                if m != k % 32 {
                    assert(opt_cloned(c0->elements@[m], c1->elements@[m]));
                    assert(opt_cloned(c1->elements@[m], c2->elements@[m]));
                }
            }
            assert(c2->elements =~= c0->elements);
        } else {
            lemma_update_back(c0, c1, c2, g, k, v);
        }
        assert(n2->children@[d] == n0->children@[d]);
        assert(n2->children =~= n0->children);
    }
}

/// Writing at position `k` the value that is already there gives the node
/// back, when cloning a `T` gives back an equal value.
pub proof fn lemma_update_same<T: Clone>(n0: Node<T>, n1: Node<T>, h: nat, k: nat)
    requires
        crate::laws::clone_exact::<T>(),
        updated(n0, n1, h, k, lookup(n0, h, k)),
    ensures
        n1 == n0,
    decreases h,
{
    if h == 0 {
        assert(n1->elements =~= n0->elements);
    } else {
        let g = (h - 1) as nat;
        let d = digit(k, h) as int;
        let (c0, c1) = (child(n0, d), child(n1, d));
        assert(lookup(n0, h, k) == lookup(c0, g, k));
        if g == 0 {
            assert forall|m: int| 0 <= m < 32 implies #[trigger] c1->elements@[m]
                == c0->elements@[m] by {
                if m != k % 32 {
                    assert(opt_cloned(c0->elements@[m], c1->elements@[m]));
                }
            }
            assert(c1->elements =~= c0->elements);
        } else {
            lemma_update_same(c0, c1, g, k);
        }
        assert(n1->children@[d] == n0->children@[d]);
        assert(n1->children =~= n0->children);
    }
}

/// Two writes of the same value at the same position of the same node give
/// the same node, when cloning a `T` gives back an equal value.
pub proof fn lemma_update_unique<T: Clone>(n0: Node<T>, n1: Node<T>, n2: Node<T>, h: nat, k: nat, v: Option<T>)
    requires
        crate::laws::clone_exact::<T>(),
        updated(n0, n1, h, k, v),
        updated(n0, n2, h, k, v),
    ensures
        n1 == n2,
    decreases h,
{
    if h == 0 {
        assert(n1->elements =~= n2->elements);
    } else {
        let g = (h - 1) as nat;
        let d = digit(k, h) as int;
        let (c0, c1, c2) = (child(n0, d), child(n1, d), child(n2, d));
        if g == 0 {
            assert forall|m: int| 0 <= m < 32 implies #[trigger] c1->elements@[m]
                == c2->elements@[m] by {
                if m != k % 32 {
                    assert(opt_cloned(c0->elements@[m], c1->elements@[m]));
                    assert(opt_cloned(c0->elements@[m], c2->elements@[m]));
                }
            }
            assert(c1->elements =~= c2->elements);
        } else {
            lemma_update_unique(c0, c1, c2, g, k, v);
        }
        assert(n1->children@[d] == n2->children@[d]);
        assert(n1->children =~= n2->children);
    }
}

/// Two branches at height 1 whose slot for the leaf of position `k` holds
/// a leaf, and which read the same at every position of that leaf, hold
/// equal leaves there.
proof fn lemma_same_leaf<T>(n1: Node<T>, n2: Node<T>, k: nat)
    requires
        n1 is Branch,
        n2 is Branch,
        n1->children@[digit(k, 1) as int] is Some,
        n2->children@[digit(k, 1) as int] is Some,
        child(n1, digit(k, 1) as int) is Leaf,
        child(n2, digit(k, 1) as int) is Leaf,
        forall|j: nat| j / 32 == k / 32 ==> #[trigger] lookup(n1, 1, j) == lookup(n2, 1, j),
    ensures
        n1->children@[digit(k, 1) as int] == n2->children@[digit(k, 1) as int],
{
    let d = digit(k, 1) as int;
    let (l1, l2) = (child(n1, d), child(n2, d));
    assert forall|m: int| 0 <= m < 32 implies #[trigger] l1->elements@[m] == l2->elements@[m] by {
        let j = (32 * (k / 32) + m) as nat;
        lemma_fundamental_div_mod_converse(j as int, 32, (k / 32) as int, m);
        lemma_same_leaf_digit(j, k, 1);
        assert(j % 32 == m);
        assert(digit(j, 1) == d);
        assert(lookup(l1, 0, j) == l1->elements@[m]);
        assert(lookup(l2, 0, j) == l2->elements@[m]);
        assert(lookup(n1, 1, j) == lookup(l1, 0, j));
        assert(lookup(n2, 1, j) == lookup(l2, 0, j));
        assert(lookup(n1, 1, j) == lookup(n2, 1, j));
    }
    assert(l1->elements =~= l2->elements);
}

/// The reads along the leaf of position `k` at height `h` are those of the
/// child in the slot of `k`, one level down.
pub proof fn lemma_block_reads_down<T>(n1: Node<T>, n2: Node<T>, h: nat, k: nat)
    requires
        h >= 2,
        n1 is Branch,
        n2 is Branch,
        n1->children@[digit(k, h) as int] is Some,
        n2->children@[digit(k, h) as int] is Some,
        forall|j: nat| j / 32 == k / 32 ==> #[trigger] lookup(n1, h, j) == lookup(n2, h, j),
    ensures
        forall|j: nat|
            j / 32 == k / 32 ==> #[trigger] lookup(child(n1, digit(k, h) as int), (h - 1) as nat, j)
                == lookup(child(n2, digit(k, h) as int), (h - 1) as nat, j),
{
    assert forall|j: nat| j / 32 == k / 32 implies #[trigger] lookup(
        child(n1, digit(k, h) as int),
        (h - 1) as nat,
        j,
    ) == lookup(child(n2, digit(k, h) as int), (h - 1) as nat, j) by {
        lemma_same_leaf_digit(j, k, h);
        assert(lookup(n1, h, j) == lookup(n2, h, j));
    }
}

/// Two fresh paths to the leaf of position `k` that read the same along
/// that leaf are equal.
pub proof fn lemma_fresh_unique<T>(n1: Node<T>, n2: Node<T>, h: nat, k: nat)
    requires
        fresh_path(n1, h, k),
        fresh_path(n2, h, k),
        forall|j: nat| j / 32 == k / 32 ==> #[trigger] lookup(n1, h, j) == lookup(n2, h, j),
    ensures
        n1 == n2,
    decreases h,
{
    let d = digit(k, h) as int;
    if h == 1 {
        lemma_same_leaf(n1, n2, k);
    } else {
        let g = (h - 1) as nat;
        lemma_block_reads_down(n1, n2, h, k);
        lemma_fresh_unique(child(n1, d), child(n2, d), g, k);
    }
    assert(n1->children@[d] == n2->children@[d]);
    assert(n1->children =~= n2->children);
}

/// Two ways of hanging a leaf at position `k` below the same node that read
/// the same along that leaf give the same node.
pub proof fn lemma_added_unique<T>(old: Node<T>, n1: Node<T>, n2: Node<T>, h: nat, k: nat)
    requires
        leaf_added(old, n1, h, k),
        leaf_added(old, n2, h, k),
        forall|j: nat| j / 32 == k / 32 ==> #[trigger] lookup(n1, h, j) == lookup(n2, h, j),
    ensures
        n1 == n2,
    decreases h,
{
    let d = digit(k, h) as int;
    if h == 1 {
        lemma_same_leaf(n1, n2, k);
    } else {
        let g = (h - 1) as nat;
        lemma_block_reads_down(n1, n2, h, k);
        if old->children@[d] is None {
            lemma_fresh_unique(child(n1, d), child(n2, d), g, k);
        } else {
            lemma_added_unique(child(old, d), child(n1, d), child(n2, d), g, k);
        }
    }
    assert(n1->children@[d] == n2->children@[d]);
    assert(n1->children =~= n2->children);
}

/// Taking out the leaf of position `k` is determined by the node.
pub proof fn lemma_removed_unique<T>(old: Node<T>, n1: Node<T>, n2: Node<T>, h: nat, k: nat)
    requires
        leaf_removed(old, n1, h, k),
        leaf_removed(old, n2, h, k),
    ensures
        n1 == n2,
    decreases h,
{
    let d = digit(k, h) as int;
    if h > 1 {
        lemma_removed_unique(child(old, d), child(n1, d), child(n2, d), (h - 1) as nat, k);
    }
    assert(n1->children@[d] == n2->children@[d]);
    assert(n1->children =~= n2->children);
}

} // verus!
