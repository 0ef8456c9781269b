use vstd::prelude::*;
use std::sync::Arc;
use vstd::arithmetic::power2::{pow2, lemma2_to64, lemma_pow2_strictly_increases, lemma_pow2_adds};
use vstd::bits::lemma_usize_shl_is_mul;
use crate::index::{span, digit, Index, Shift, BRANCH_FACTOR, BITS_PER_LEVEL, lemma_span_basics};
use crate::node::{
    leaf_added, fresh_path, leaf_removed, updated,
    Node, no_children, copy_slot, copy_element, opt_cloned, child, lookup, wf, child_count,
    lemma_lookup_reaches, lemma_updated_lookup, lemma_updated_wf, lemma_wf_lookup,
    lemma_wf_push_ready, lemma_mod_multiple32, lemma_copy_branch, lemma_add_then_remove,
    lemma_update_back, lemma_update_same, lemma_update_unique, lemma_fresh_unique,
    lemma_added_unique, lemma_removed_unique, lemma_block_reads_down,
};
use crate::laws::clone_exact;
use crate::shared::{share, make_mut};

verus! {

/// A persistent vector. The first `root_size` elements sit in the leaves
/// of a trie of shared nodes whose root's children are `shift` bits wide;
/// the last `tail_size` ones sit in `tail`.
#[derive(Debug, PartialEq, Eq, PartialOrd, Ord)]
pub struct PVec<T> {
    root: Option<Arc<Node<T>>>,
    root_size: Index,
    tail: [Option<T>; BRANCH_FACTOR],
    tail_size: Index,
    shift: Shift,
}

/// The node a root pointer holds.
pub open spec fn root_node<T>(root: Option<Arc<Node<T>>>) -> Node<T> {
    *root->0
}

/// The trie of a vector: empty with shift 0 when it holds nothing, and
/// otherwise a root just tall enough for `size` elements.
pub open spec fn tree_ok<T>(root: Option<Arc<Node<T>>>, shift: usize, size: nat) -> bool {
    &&& shift % 5 == 0
    &&& size % 32 == 0
    &&& size == 0 ==> root is None && shift == 0
    &&& size > 0 ==> {
        &&& root is Some
        &&& shift >= BITS_PER_LEVEL
        &&& span((shift / 5) as nat) <= size < span((shift / 5) as nat + 1)
        &&& wf(root_node(root), (shift / 5) as nat, size)
    }
}

/// The element at position `k` of a trie.
pub open spec fn tree_at<T>(root: Option<Arc<Node<T>>>, shift: usize, k: nat) -> Option<T> {
    lookup(root_node(root), (shift / 5) as nat, k)
}

impl<T> PVec<T> {
    /// The vector's invariant.
    pub closed spec fn wf(&self) -> bool {
        &&& tree_ok(self.root, self.shift.0, self.root_size.0 as nat)
        &&& self.tail_size.0 < BRANCH_FACTOR
        &&& self.root_size.0 + self.tail_size.0 <= usize::MAX
        &&& forall|m: int| 0 <= m < 32 ==> ((#[trigger] self.tail@[m]) is Some <==> m < self.tail_size.0)
    }

    /// The root of the trie (`None` when the trie is empty).
    pub closed spec fn trie(&self) -> Option<Arc<Node<T>>> {
        self.root
    }

    /// How many bits wide the root's children are.
    pub closed spec fn trie_shift(&self) -> nat {
        self.shift.0 as nat
    }

    /// The elements of the vector, in order.
    pub closed spec fn elems(&self) -> Seq<T> {
        Seq::new(
            (self.root_size.0 + self.tail_size.0) as nat,
            |k: int|
                if k < self.root_size.0 {
                    tree_at(self.root, self.shift.0, k as nat)->0
                } else {
                    self.tail@[k - self.root_size.0]->0
                },
        )
    }
}

impl<T> View for PVec<T> {
    type V = Seq<T>;

    open spec fn view(&self) -> Seq<T> {
        self.elems()
    }
}

/// What pushing `x` onto `a` gives: `a`'s elements followed by `x`; the
/// trie is untouched unless the push fills the tail, in which case the
/// tail moves into the trie as a new leaf at its end.
pub open spec fn pushed_vec<T>(a: PVec<T>, x: T, b: PVec<T>) -> bool {
    &&& b.wf()
    &&& b@ == a@.push(x)
    &&& a@.len() % 32 != 31 ==> b.trie() == a.trie() && b.trie_shift() == a.trie_shift()
    &&& a@.len() % 32 == 31 ==> trie_pushed(
        a.trie(),
        a.trie_shift(),
        (a@.len() - 31) as nat,
        b.trie(),
        b.trie_shift(),
    )
}

/// The new root of a trie that took a leaf at position `rs`, its end: a
/// fresh path below a new root when the trie was empty; a new root above
/// the old one when the old one was about to fill up (then holding only the
/// old root, which took the leaf); otherwise the old root with the leaf
/// hung below it.
pub open spec fn trie_pushed<T>(
    old_root: Option<Arc<Node<T>>>,
    old_shift: nat,
    rs: nat,
    new_root: Option<Arc<Node<T>>>,
    new_shift: nat,
) -> bool {
    &&& new_root is Some
    &&& if rs == 0 {
        &&& new_shift == BITS_PER_LEVEL
        &&& fresh_path(root_node(new_root), 1, 0)
    } else if rs + 32 == span(old_shift / 5 + 1) {
        &&& new_shift == old_shift + BITS_PER_LEVEL
        &&& grown_added(root_node(old_root), root_node(new_root), old_shift / 5 + 1, rs)
    } else {
        &&& new_shift == old_shift
        &&& leaf_added(root_node(old_root), root_node(new_root), old_shift / 5, rs)
    }
}

/// `new` is a new root at height `h` whose only child (in slot 0) is `old`
/// with a leaf hung at position `k`.
pub open spec fn grown_added<T>(old: Node<T>, new: Node<T>, h: nat, k: nat) -> bool {
    &&& h >= 2
    &&& new is Branch
    &&& forall|j: int| 0 < j < 32 ==> (#[trigger] new->children@[j]) is None
    &&& new->children@[0] is Some
    &&& leaf_added(old, child(new, 0), (h - 1) as nat, k)
}

/// What a write of `v` at position `i` through `get_mut` does to `a`:
/// `written` on the elements; below the tail, the trie is updated along the
/// path of `i` only (`updated`); in the tail, the trie is untouched.
pub open spec fn written_vec<T: Clone>(a: PVec<T>, i: int, v: T, b: PVec<T>) -> bool {
    &&& b.wf()
    &&& written(a@, i, v, b@)
    &&& b.trie_shift() == a.trie_shift()
    &&& i < a@.len() - a@.len() % 32 ==> {
        &&& a.trie() is Some
        &&& b.trie() is Some
        &&& updated(root_node(a.trie()), root_node(b.trie()), a.trie_shift() / 5, i as nat, Some(v))
    }
    &&& i >= a@.len() - a@.len() % 32 ==> b.trie() == a.trie()
}

/// What cloning `a` gives: a vector with the same trie (the same root,
/// shared, and the same shift) and the same elements, those of the tail
/// cloned.
pub open spec fn cloned_vec<T: Clone>(a: PVec<T>, r: PVec<T>) -> bool {
    &&& r.wf()
    &&& r@.len() == a@.len()
    &&& forall|j: int| 0 <= j < a@.len() ==> cloned(a@[j], #[trigger] r@[j])
    &&& forall|j: int| 0 <= j < a@.len() && j / 32 != a@.len() / 32 ==> #[trigger] r@[j] == a@[j]
    &&& r.trie() == a.trie()
    &&& r.trie_shift() == a.trie_shift()
}

/// What pop does to the elements and the trie of `a`: `popped` on the
/// elements; the trie is untouched unless the tail was empty, in which case
/// the last leaf of the trie was taken out (and the root lowered or
/// dropped when no longer needed).
pub open spec fn popped_vec<T: Clone>(a: PVec<T>, r: Option<T>, b: PVec<T>) -> bool {
    &&& b.wf()
    &&& popped(a@, r, b@)
    &&& (a@.len() % 32 != 0 || a@.len() == 0) ==> b.trie() == a.trie() && b.trie_shift()
        == a.trie_shift()
    &&& a@.len() % 32 == 0 && a@.len() > 0 ==> trie_popped(
        a.trie(),
        a.trie_shift(),
        (a@.len() - 32) as nat,
        b.trie(),
        b.trie_shift(),
    )
}

/// The root of a trie, with `rs` positions before its last leaf, after that
/// leaf was taken out: no trie when it was the only leaf; the old root's
/// first child, with the leaf taken out, when the rest fits one level
/// lower; otherwise the old root with the leaf taken out. The branches on
/// the way stay, even when left empty.
pub open spec fn trie_popped<T>(
    old_root: Option<Arc<Node<T>>>,
    old_shift: nat,
    rs: nat,
    new_root: Option<Arc<Node<T>>>,
    new_shift: nat,
) -> bool {
    if rs == 0 {
        new_root is None && new_shift == 0
    } else if rs + 32 == span(old_shift / 5) {
        &&& new_shift + BITS_PER_LEVEL == old_shift
        &&& new_root is Some
        &&& lowered_removed(root_node(old_root), root_node(new_root), old_shift / 5, rs)
    } else {
        &&& new_shift == old_shift
        &&& new_root is Some
        &&& leaf_removed(root_node(old_root), root_node(new_root), old_shift / 5, rs)
    }
}

/// `new` is the first child of the branch `old` at height `h`, with the
/// leaf at position `k` taken out.
pub open spec fn lowered_removed<T>(old: Node<T>, new: Node<T>, h: nat, k: nat) -> bool {
    &&& h >= 2
    &&& old is Branch
    &&& old->children@[0] is Some
    &&& leaf_removed(child(old, 0), new, (h - 1) as nat, k)
}

/// What popping `s` gives: `None` and `s` unchanged when it is empty;
/// otherwise its last element and the rest, where elements of the last
/// block may be clones; exactly `s.last()` and `s.drop_last()` when the
/// last block is not full.
pub open spec fn popped<T: Clone>(s: Seq<T>, r: Option<T>, t: Seq<T>) -> bool {
    &&& s.len() == 0 ==> r is None && t == s
    &&& s.len() > 0 ==> {
        &&& r is Some
        &&& cloned(s.last(), r->0)
        &&& t.len() == s.len() - 1
        &&& forall|j: int| 0 <= j < t.len() ==> cloned(s[j], #[trigger] t[j])
        &&& forall|j: int|
            0 <= j < t.len() && j / 32 != (s.len() - 1) / 32 ==> #[trigger] t[j] == s[j]
    }
    &&& s.len() % 32 != 0 ==> r == Some(s.last()) && t == s.drop_last()
}

/// `t` is `s` with the element at `i` set to `v`; the other elements of
/// the block of `i` may be clones, the rest are unchanged.
pub open spec fn written<T: Clone>(s: Seq<T>, i: int, v: T, t: Seq<T>) -> bool {
    &&& 0 <= i < s.len()
    &&& t.len() == s.len()
    &&& t[i] == v
    &&& forall|j: int| 0 <= j < s.len() && j != i ==> cloned(s[j], #[trigger] t[j])
    &&& forall|j: int| 0 <= j < s.len() && j / 32 != i / 32 ==> #[trigger] t[j] == s[j]
}

/// A power of two that fits in a `usize` has an exponent below its width.
pub proof fn lemma_pow2_fits(n: nat)
    requires
        pow2(n) <= usize::MAX,
    ensures
        n < usize::BITS,
{
    lemma2_to64();
    if n >= usize::BITS {
        if n > usize::BITS {
            lemma_pow2_strictly_increases(usize::BITS as nat, n);
        }
    }
}

/// A non-empty trie has a root whose children are narrower than a `usize`,
/// and which has room for one more level.
pub proof fn lemma_tree_shift<T>(root: Option<Arc<Node<T>>>, shift: usize, size: nat)
    requires
        tree_ok(root, shift, size),
        size <= usize::MAX,
    ensures
        shift < usize::BITS,
        size > 0 ==> shift + BITS_PER_LEVEL <= usize::MAX,
{
    if size > 0 {
        let h = (shift / 5) as nat;
        assert(5 * h == shift);
        lemma_pow2_fits(5 * h);
        lemma2_to64();
    }
}

/// The node a shared pointer holds.
pub open spec fn arc_val<T>(a: Arc<Node<T>>) -> Node<T> {
    *a
}

/// What `BRANCH_FACTOR << s` computes: the capacity of a root whose
/// children are `s` bits wide, or 0 when that does not fit in a `usize`.
pub proof fn lemma_capacity(s: usize)
    requires
        s % 5 == 0,
        s < usize::BITS,
    ensures
        (32usize << s) == span((s / 5) as nat + 1) || ((32usize << s) == 0 && span(
            (s / 5) as nat + 1,
        ) > usize::MAX),
{
    let h = (s / 5) as nat;
    assert(5 * (h + 1) == s + 5);
    lemma_pow2_adds(s as nat, 5);
    lemma2_to64();
    if s + 5 < usize::BITS {
        lemma_pow2_strictly_increases((s + 5) as nat, usize::BITS as nat);
        lemma_usize_shl_is_mul(32, s);
    } else {
        assert((32usize << s) == 0) by (bit_vector)
            requires
                s < usize::BITS,
                s + 5 >= usize::BITS,
        ;
        if s + 5 > usize::BITS {
            lemma_pow2_strictly_increases(usize::BITS as nat, (s + 5) as nat);
        }
    }
}

impl<T: Clone> PVec<T> {
    /// An empty vector.
    pub fn new() -> (r: Self)
        ensures
            r.wf(),
            r@ == Seq::<T>::empty(),
    {
        let r = PVec {
            root: None,
            root_size: Index(0),
            tail: no_children(),
            tail_size: Index(0),
            shift: Shift(0),
        };
        assert(r@ =~= Seq::<T>::empty());
        r
    }

    /// Appends `item` at the end; when the tail fills up, it moves into the
    /// trie as a new leaf.
    pub fn push(&mut self, item: T)
        requires
            old(self).wf(),
            old(self)@.len() < usize::MAX,
        ensures
            final(self).wf(),
            final(self)@ == old(self)@.push(item),
            pushed_vec(*old(self), item, *final(self)),
    {
        let ghost pre = self@;
        proof {
            lemma_tail_len(*old(self));
        }
        self.tail[self.tail_size.0] = Some(item);
        self.tail_size.0 = self.tail_size.0 + 1;
        if self.tail_size.0 == BRANCH_FACTOR {
            let mut tail = no_children();
            std::mem::swap(&mut tail, &mut self.tail);
            proof {
                assert forall|m: int| 0 <= m < 32 implies (#[trigger] tail@[m]) is Some by {}
            }
            self.push_tail(tail);
            self.root_size.0 = self.root_size.0 + BRANCH_FACTOR;
            self.tail_size.0 = 0;
            self.tail = no_children();
            proof {
                let rs = (self.root_size.0 - 32) as nat;
                assert forall|k: int| 0 <= k < self@.len() implies #[trigger] self@[k] == pre.push(item)[k] by {
                    if k < rs {
                        assert(tree_at(self.root, self.shift.0, k as nat) == tree_at(old(self).root, old(self).shift.0, k as nat));
                    } else {
                        assert(tree_at(self.root, self.shift.0, k as nat) == tail@[k - rs]);
                    }
                }
                assert(self@ =~= pre.push(item));
            }
        } else {
            proof {
                assert(self@ =~= pre.push(item));
            }
        }
    }

    /// Removes and returns the last element, or returns `None` when the
    /// vector is empty. When the tail is empty, the last leaf of the trie
    /// becomes the tail first; its elements may then be clones.
    pub fn pop(&mut self) -> (r: Option<T>)
        requires
            old(self).wf(),
        ensures
            final(self).wf(),
            popped(old(self)@, r, final(self)@),
            popped_vec(*old(self), r, *final(self)),
    {
        proof {
            lemma_tail_len(*old(self));
        }
        let ghost pre = self@;
        if self.len() == 0 {
            return None;
        }
        let ghost blk = (pre.len() - 1) / 32;
        if self.tail_size.0 == 0 {
            self.root_size.0 = self.root_size.0 - BRANCH_FACTOR;
            self.tail_size.0 = BRANCH_FACTOR;
            let new_tail = self.pop_tail();
            self.tail = new_tail;
            proof {
                let rs = self.root_size.0 as nat;
                assert(blk == rs / 32) by {
                    lemma_same_block(rs, (rs + 31) as nat);
                }
                assert forall|k: int| 0 <= k < pre.len() implies #[trigger] cloned(pre[k], self@[k])
                    && (k / 32 != blk ==> self@[k] == pre[k]) by {
                    if k < rs {
                        lemma_div32_lt(k as nat, rs);
                        assert(tree_at(self.root, self.shift.0, k as nat) == tree_at(old(self).root, old(self).shift.0, k as nat));
                    } else {
                        lemma_same_block(rs, k as nat);
                        assert(opt_cloned(tree_at(old(self).root, old(self).shift.0, k as nat), new_tail@[k - rs]));
                    }
                }
                assert(near_copy(pre, self@, blk));
                let h = (old(self).shift.0 / 5) as nat;
                lemma_span_basics(h);
                assert forall|m: int| 0 <= m < 32 implies (#[trigger] self.tail@[m]) is Some by {
                    let k = (rs + m) as nat;
                    lemma_same_block(rs, k);
                    vstd::arithmetic::div_mod::lemma_small_mod(k, span(h + 1));
                    lemma_wf_lookup(root_node(old(self).root), h, rs + 32, k);
                    assert(opt_cloned(tree_at(old(self).root, old(self).shift.0, k), new_tail@[k - rs]));
                }
            }
        } else {
            proof {
                assert(near_copy(pre, self@, blk));
            }
        }
        let ghost mid = self@;
        let ghost last = self.tail@[self.tail_size.0 - 1];
        proof {
            assert(last is Some);
            assert(mid.last() == last->0);
        }
        let item = self.tail[self.tail_size.0 - 1].take();
        self.tail_size.0 = self.tail_size.0 - 1;
        proof {
            assert(item == last);
            assert(self@ =~= mid.drop_last());
            lemma_near_copy_drop_last(pre, mid, blk);
        }
        item
    }

    /// The number of elements.
    pub fn len(&self) -> (r: usize)
        requires
            self.wf(),
        ensures
            r == self@.len(),
    {
        self.root_size.0 + self.tail_size.0
    }

    /// The element at `index`, or `None` when `index` is past the end but
    /// still within the last block of 32 positions.
    pub fn get(&self, index: usize) -> (r: Option<&T>)
        requires
            self.wf(),
            index / 32 <= self@.len() / 32,
        ensures
            index < self@.len() ==> r is Some && *r->0 == self@[index as int],
            index >= self@.len() ==> r is None,
    {
        proof {
            lemma_tree_shift(self.root, self.shift.0, self.root_size.0 as nat);
            lemma_len_blocks(self.root_size.0 as nat, self.tail_size.0 as nat, index as nat);
        }
        if self.root_size.0 > index {
            proof {
                let h = (self.shift.0 / 5) as nat;
                lemma_span_basics(h);
                vstd::arithmetic::div_mod::lemma_small_mod(index as nat, span(h + 1));
                lemma_wf_lookup(root_node(self.root), h, self.root_size.0 as nat, index as nat);
                lemma_lookup_reaches(root_node(self.root), h, index as nat);
            }
            self.root.as_ref().unwrap().get(Index(index), self.shift)
        } else {
            self.tail[index - self.root_size.0].as_ref()
        }
    }
}

impl<T: Clone> PVec<T> {
    /// Moves the block `tail` into the trie, right after its last
    /// element, first adding a level on top when the trie would fill up.
    fn push_tail(&mut self, tail: [Option<T>; BRANCH_FACTOR])
        requires
            tree_ok(old(self).root, old(self).shift.0, old(self).root_size.0 as nat),
            old(self).root_size.0 + 32 <= usize::MAX,
        ensures
            final(self).root is Some,
            trie_pushed(
                old(self).root,
                old(self).shift.0 as nat,
                old(self).root_size.0 as nat,
                final(self).root,
                final(self).shift.0 as nat,
            ),
            final(self).shift.0 == if old(self).root_size.0 + 32 == span(
                (old(self).shift.0 / 5) as nat + 1,
            ) {
                old(self).shift.0 + BITS_PER_LEVEL
            } else {
                old(self).shift.0 as int
            },
            (forall|m: int| 0 <= m < 32 ==> (#[trigger] tail@[m]) is Some) ==> tree_ok(
                final(self).root,
                final(self).shift.0,
                (old(self).root_size.0 + 32) as nat,
            ),
            final(self).root_size == old(self).root_size,
            final(self).tail == old(self).tail,
            final(self).tail_size == old(self).tail_size,
            forall|k: nat|
                k < old(self).root_size.0 ==> #[trigger] tree_at(final(self).root, final(self).shift.0, k)
                    == tree_at(old(self).root, old(self).shift.0, k),
            forall|k: nat|
                old(self).root_size.0 <= k < old(self).root_size.0 + 32 ==> #[trigger] tree_at(
                    final(self).root,
                    final(self).shift.0,
                    k,
                ) == tail@[k - old(self).root_size.0],
    {
        let ghost rs = self.root_size.0 as nat;
        let ghost h0 = (self.shift.0 / 5) as nat;
        proof {
            lemma_tree_shift(self.root, self.shift.0, rs);
            lemma_span_basics(h0);
            lemma_span_basics(h0 + 1);
            assert(5 * h0 == self.shift.0);
        }
        if self.root.is_none() {
            self.root = Some(Arc::new(Node::Branch { children: no_children() }));
        }
        let capacity = BRANCH_FACTOR << self.shift.0;
        proof {
            lemma_capacity(self.shift.0);
            if rs > 0 {
                lemma_mod_multiple32(rs, span(h0 + 1));
                vstd::arithmetic::div_mod::lemma_small_mod(rs, span(h0 + 1));
            }
        }
        let ghost r0 = root_node(self.root);
        let ghost grew = capacity == self.root_size.0 + BRANCH_FACTOR;
        let root = self.root.as_mut().unwrap();
        if capacity == self.root_size.0 + BRANCH_FACTOR {
            let mut nodes = no_children();
            nodes[0] = Some(share(root));
            proof {
                assert(span(h0 + 1) == rs + 32);
                assert(5 * (h0 + 1) == self.shift.0 + 5);
                lemma_pow2_fits(5 * (h0 + 1));
            }
            self.shift = self.shift.inc();
            *root = Arc::new(Node::Branch { children: nodes });
            proof {
                let h = h0 + 1;
                lemma_span_basics(h + 1);
                let r1 = arc_val(*root);
                assert(child(r1, 0) == r0);
                if rs > 0 {
                    vstd::arithmetic::div_mod::lemma_small_mod(rs, span(h));
                    vstd::arithmetic::div_mod::lemma_basic_div(rs as int, span(h) as int);
                    assert forall|j: int| 0 <= j < 32 implies crate::node::slot_wf(
                        #[trigger] r1->children@[j],
                        h0,
                        child_count(rs, span(h), j),
                    ) by {}
                    assert(wf(r1, h, rs));
                    lemma_wf_push_ready(r1, h, rs);
                    assert forall|k: nat| k < rs implies #[trigger] lookup(r1, h, k) == lookup(r0, h0, k) by {
                        vstd::arithmetic::div_mod::lemma_basic_div(k as int, span(h) as int);
                    }
                } else {
                    assert(crate::node::push_ready(r1, h, 0));
                }
            }
        } else {
            proof {
                assert(rs > 0);
                assert(rs + 32 < span(h0 + 1));
                lemma_wf_push_ready(r0, h0, rs);
            }
        }
        let ghost h = (self.shift.0 / 5) as nat;
        let ghost r = arc_val(*root);
        proof {
            assert(5 * h == self.shift.0);
            lemma_span_basics(h);
            lemma_span_basics(h + 1);
            vstd::arithmetic::div_mod::lemma_small_mod(rs, span(h + 1));
            assert(crate::node::push_ready(r, h, rs));
            crate::node::lemma_push_ready_open(r, h, rs);
            assert(forall|k: nat| k < rs ==> #[trigger] lookup(r, h, k) == tree_at(old(self).root, old(self).shift.0, k));
        }
        let node = make_mut(root);
        proof {
            lemma_copy_branch(r, *node);
        }
        node.push_tail(self.root_size, self.shift, tail);
        let ghost fin = *node;
        proof {
            assert(root_node(self.root) == fin);
            if forall|m: int| 0 <= m < 32 ==> (#[trigger] tail@[m]) is Some {
                assert(wf(fin, h, rs + 32));
            }
            assert forall|k: nat| k < rs implies #[trigger] tree_at(self.root, self.shift.0, k)
                == tree_at(old(self).root, old(self).shift.0, k) by {
                vstd::arithmetic::div_mod::lemma_basic_div(k as int, span(h + 1) as int);
                vstd::arithmetic::div_mod::lemma_basic_div(rs as int, span(h + 1) as int);
                lemma_div32_lt(k, rs);
            }
            assert forall|k: nat| rs <= k < rs + 32 implies #[trigger] tree_at(self.root, self.shift.0, k)
                == tail@[k - rs] by {
                lemma_same_block(rs, k);
            }
            assert(crate::node::leaf_added(r, fin, h, rs));
            if rs == 0 {
                assert(h == 1);
                assert(digit(0, 1) == 0);
                assert(crate::node::fresh_path(fin, 1, 0));
            } else if grew {
                vstd::arithmetic::div_mod::lemma_basic_div(rs as int, span(h) as int);
                assert(digit(rs, h) == 0);
                assert(child(r, 0) == r0);
                assert(root_node(old(self).root) == r0);
                assert(grown_added(r0, fin, h, rs));
            } else {
                assert(r == r0);
            }
        }
    }
}

impl<T: Clone> PVec<T> {
    /// Takes the last leaf out of the trie (the one at `root_size`, already
    /// lowered past it) and returns its elements, removing the top level of
    /// the trie when it is no longer needed.
    fn pop_tail(&mut self) -> (r: [Option<T>; BRANCH_FACTOR])
        requires
            tree_ok(old(self).root, old(self).shift.0, (old(self).root_size.0 + 32) as nat),
            old(self).root_size.0 + 32 <= usize::MAX,
            old(self).root_size.0 % 32 == 0,
        ensures
            tree_ok(final(self).root, final(self).shift.0, old(self).root_size.0 as nat),
            trie_popped(
                old(self).root,
                old(self).shift.0 as nat,
                old(self).root_size.0 as nat,
                final(self).root,
                final(self).shift.0 as nat,
            ),
            final(self).root_size == old(self).root_size,
            final(self).tail == old(self).tail,
            final(self).tail_size == old(self).tail_size,
            forall|k: nat|
                k < old(self).root_size.0 ==> #[trigger] tree_at(final(self).root, final(self).shift.0, k)
                    == tree_at(old(self).root, old(self).shift.0, k),
            forall|k: nat|
                old(self).root_size.0 <= k < old(self).root_size.0 + 32 ==> opt_cloned(
                    #[trigger] tree_at(old(self).root, old(self).shift.0, k),
                    r@[k - old(self).root_size.0],
                ),
    {
        let ghost rs = self.root_size.0 as nat;
        let ghost h = (self.shift.0 / 5) as nat;
        let ghost r0 = root_node(self.root);
        proof {
            lemma_tree_shift(self.root, self.shift.0, rs + 32);
            lemma_span_basics(h);
            lemma_span_basics(h + 1);
            assert(5 * h == self.shift.0);
            vstd::arithmetic::div_mod::lemma_small_mod(rs, span(h + 1));
        }
        let node = make_mut(self.root.as_mut().unwrap());
        proof {
            lemma_copy_branch(r0, *node);
        }
        proof {
            lemma_wf_lookup(r0, h, rs + 32, rs);
            lemma_lookup_reaches(r0, h, rs);
        }
        let new_tail = node.pop_tail(self.root_size, self.shift);
        let ghost fin = *node;
        proof {
            assert(root_node(self.root) == fin);
            assert forall|k: nat| k < rs implies #[trigger] lookup(fin, h, k) == lookup(r0, h, k) by {
                vstd::arithmetic::div_mod::lemma_basic_div(k as int, span(h + 1) as int);
                vstd::arithmetic::div_mod::lemma_basic_div(rs as int, span(h + 1) as int);
                lemma_div32_lt(k, rs);
            }
            assert forall|k: nat| rs <= k < rs + 32 implies opt_cloned(
                #[trigger] lookup(r0, h, k),
                new_tail@[k - rs],
            ) by {
                lemma_same_block(rs, k);
            }
        }
        if self.root_size.0 == 0 {
            proof {
                if h >= 2 {
                    lemma_span_grows(1, h);
                }
            }
            self.root = None;
            self.shift = self.shift.dec();
            return new_tail;
        }
        let sd = self.shift.dec();
        let capacity = BRANCH_FACTOR << sd.0;
        proof {
            lemma_capacity(sd.0);
            assert(sd.0 / 5 == h - 1);
            assert((h - 1) as nat + 1 == h);
        }
        let root = self.root.as_mut().unwrap();
        if capacity == self.root_size.0 + BRANCH_FACTOR {
            proof {
                assert(span(h) == rs + 32);
                if h < 2 {
                    assert(h == 1);
                }
                lemma_span_basics((h - 1) as nat);
            }
            self.shift = self.shift.dec();
            let node = make_mut(root);
            proof {
                lemma_copy_branch(fin, *node);
            }
            proof {
                let g = (h - 1) as nat;
                vstd::arithmetic::div_mod::lemma_basic_div(rs as int, span(h) as int);
                vstd::arithmetic::div_mod::lemma_small_mod(rs, span(h));
                assert(crate::node::slot_wf(fin->children@[0], g, child_count(rs, span(h), 0)));
            }
            if let Node::Branch { children } = node {
                let first = children[0].take().unwrap();
                *root = first;
            }
            proof {
                let g = (h - 1) as nat;
                let c0 = child(fin, 0);
                assert(root_node(self.root) == c0);
                assert(self.shift.0 / 5 == g);
                assert(span(g) <= rs) by {
                    lemma_span_basics(g);
                    assert(span(h) == 32 * span(g));
                }
                assert forall|k: nat| k < rs implies #[trigger] lookup(c0, g, k) == lookup(fin, h, k) by {
                    vstd::arithmetic::div_mod::lemma_basic_div(k as int, span(h) as int);
                    vstd::arithmetic::div_mod::lemma_small_mod(k, span(h));
                }
                assert(digit(rs, h) == 0);
                assert(leaf_removed(r0, fin, h, rs));
                assert(lowered_removed(r0, c0, h, rs));
            }
        } else {
            proof {
                assert(span(h) != rs + 32);
                lemma_mod_multiple32(rs, span(h));
                lemma_mod_multiple32(span(h), 32 * span(h));
                lemma_span_below(rs, h);
                assert(leaf_removed(r0, fin, h, rs));
            }
        }
        new_tail
    }
}

/// `b` is `a` with each element possibly cloned, and only the elements of
/// block `blk` possibly different.
pub open spec fn near_copy<T: Clone>(a: Seq<T>, b: Seq<T>, blk: int) -> bool {
    &&& a.len() == b.len()
    &&& forall|j: int| 0 <= j < a.len() ==> #[trigger] cloned(a[j], b[j])
    &&& forall|j: int| 0 <= j < a.len() && j / 32 != blk ==> #[trigger] b[j] == a[j]
}

/// Dropping the last element of a near copy.
pub proof fn lemma_near_copy_drop_last<T: Clone>(a: Seq<T>, b: Seq<T>, blk: int)
    requires
        near_copy(a, b, blk),
        a.len() > 0,
    ensures
        cloned(a.last(), b.last()),
        forall|j: int| 0 <= j < b.drop_last().len() ==> cloned(a[j], #[trigger] b.drop_last()[j]),
        forall|j: int|
            0 <= j < b.drop_last().len() && j / 32 != blk ==> #[trigger] b.drop_last()[j] == a[j],
{
    assert(cloned(a[a.len() - 1], b[a.len() - 1]));
}

/// Two well-formed vectors with the same elements and the same trie are the
/// same value: the sizes, the shift and the tail follow from them.
pub proof fn lemma_same_vec<T>(a: PVec<T>, b: PVec<T>)
    requires
        a.wf(),
        b.wf(),
        a@ == b@,
        a.trie() == b.trie(),
    ensures
        a == b,
{
    let n = a@.len();
    lemma_len_blocks(a.root_size.0 as nat, a.tail_size.0 as nat, 0);
    lemma_len_blocks(b.root_size.0 as nat, b.tail_size.0 as nat, 0);
    vstd::arithmetic::div_mod::lemma_fundamental_div_mod(a.root_size.0 as int, 32);
    vstd::arithmetic::div_mod::lemma_fundamental_div_mod(b.root_size.0 as int, 32);
    vstd::arithmetic::div_mod::lemma_fundamental_div_mod(n as int, 32);
    assert(a.root_size.0 == b.root_size.0);
    assert(a.tail_size.0 == b.tail_size.0);
    let rs = a.root_size.0 as int;
    assert forall|m: int| 0 <= m < 32 implies a.tail@[m] == b.tail@[m] by {
        assert(a.tail@[m] is Some <==> m < a.tail_size.0);
        assert(b.tail@[m] is Some <==> m < b.tail_size.0);
        if m < a.tail_size.0 {
            assert(a@[rs + m] == a.tail@[m]->0);
            assert(b@[rs + m] == b.tail@[m]->0);
            assert(a@[rs + m] == b@[rs + m]);
        }
    }
    assert(a.tail =~= b.tail);
    if rs > 0 {
        let ha = (a.shift.0 / 5) as nat;
        let hb = (b.shift.0 / 5) as nat;
        if ha < hb {
            if ha + 1 < hb {
                lemma_span_grows(ha + 1, hb);
            }
        } else if hb < ha {
            if hb + 1 < ha {
                lemma_span_grows(hb + 1, ha);
            }
        }
        assert(ha == hb);
    }
    assert(a.shift.0 == b.shift.0);
}

/// A clone is equal to the vector it was made from, when cloning a `T`
/// gives back an equal value: it shares the trie and holds equal elements.
pub proof fn law_clone_equal<T: Clone>(a: PVec<T>, r: PVec<T>)
    requires
        a.wf(),
        clone_exact::<T>(),
        cloned_vec(a, r),
    ensures
        r == a,
{
    assert forall|j: int| 0 <= j < a@.len() implies #[trigger] r@[j] == a@[j] by {
        assert(cloned(a@[j], r@[j]));
    }
    assert(r@ =~= a@);
    lemma_same_vec(r, a);
}

/// A pop undoes a push that leaves the tail short of a full block: it
/// returns the pushed element and gives back the very vector from before
/// the push, trie included.
pub proof fn law_pop_undoes_push<T: Clone>(a: PVec<T>, x: T, b: PVec<T>, r: Option<T>, c: PVec<T>)
    requires
        a.wf(),
        a@.len() % 32 != 31,
        pushed_vec(a, x, b),
        popped_vec(b, r, c),
    ensures
        r == Some(x),
        c == a,
{
    assert(b@.len() % 32 != 0);
    assert(b@.drop_last() =~= a@);
    lemma_same_vec(c, a);
}

/// A pop undoes a push that fills the tail, when the leaf that the push
/// hangs into the trie joins a level-1 branch that already holds leaves, or
/// the trie was empty: the pushed element comes back and, when cloning a
/// `T` gives back an equal value, so does the very vector from before the
/// push.
pub proof fn law_pop_undoes_leaf_push<T: Clone>(
    a: PVec<T>,
    x: T,
    b: PVec<T>,
    r: Option<T>,
    c: PVec<T>,
)
    requires
        a.wf(),
        clone_exact::<T>(),
        a@.len() % 32 == 31,
        a@.len() == 31 || (a@.len() - 31) % 1024 != 0,
        pushed_vec(a, x, b),
        popped_vec(b, r, c),
    ensures
        r == Some(x),
        c == a,
{
    let n = a@.len();
    let rs = (n - 31) as nat;
    lemma_tail_len(a);
    assert(a.root_size.0 == rs);
    assert(b@.len() == n + 1);
    assert(cloned(b@.last(), r->0));
    assert(b@.last() == x);
    assert forall|j: int| 0 <= j < n implies #[trigger] c@[j] == a@[j] by {
        assert(cloned(b@[j], c@[j]));
        assert(b@[j] == a@[j]);
    }
    assert(c@ =~= a@);
    let h = (a.shift.0 / 5) as nat;
    lemma_span_basics(1);
    lemma_span_basics(2);
    if rs > 0 {
        let ra = root_node(a.root);
        let rb = root_node(b.root);
        let rc = root_node(c.root);
        assert(wf(ra, h, rs));
        vstd::arithmetic::div_mod::lemma_small_mod(rs, span(h + 1));
        if rs + 32 == span(h + 1) {
            assert(b.shift.0 == a.shift.0 + 5);
            assert((b.shift.0 / 5) as nat == h + 1);
            lemma_add_then_remove(ra, child(rb, 0), rc, h, rs);
        } else {
            assert(b.shift.0 == a.shift.0);
            assert(rs + 32 != span(h));
            lemma_add_then_remove(ra, rb, rc, h, rs);
        }
        assert(c.root == a.root);
    }
    lemma_same_vec(c, a);
}

/// A push undoes a pop from a tail that is not empty: pushing back the
/// popped element gives back the very vector from before the pop.
pub proof fn law_push_undoes_pop<T: Clone>(a: PVec<T>, r: Option<T>, b: PVec<T>, c: PVec<T>)
    requires
        a.wf(),
        a@.len() % 32 != 0,
        popped_vec(a, r, b),
        pushed_vec(b, r->0, c),
    ensures
        c == a,
{
    assert(b@.len() % 32 != 31);
    assert(b@.push(r->0) =~= a@);
    lemma_same_vec(c, a);
}

/// Writing back what a write replaced undoes it: when cloning a `T` gives
/// back an equal value, the vector is the very one from before the first
/// write, trie included.
pub proof fn law_write_back<T: Clone>(a: PVec<T>, i: int, v: T, b: PVec<T>, c: PVec<T>)
    requires
        a.wf(),
        clone_exact::<T>(),
        written_vec(a, i, v, b),
        written_vec(b, i, a@[i], c),
    ensures
        c == a,
{
    let n = a@.len();
    assert forall|j: int| 0 <= j < n implies #[trigger] c@[j] == a@[j] by {
        if j != i {
            assert(cloned(a@[j], b@[j]));
            assert(cloned(b@[j], c@[j]));
        }
    }
    assert(c@ =~= a@);
    lemma_tail_len(a);
    if i < n - n % 32 {
        let h = (a.shift.0 / 5) as nat;
        let rs = a.root_size.0 as nat;
        assert(wf(root_node(a.root), h, rs));
        vstd::arithmetic::div_mod::lemma_small_mod(i as nat, span(h + 1));
        lemma_wf_lookup(root_node(a.root), h, rs, i as nat);
        assert(Some(a@[i]) == lookup(root_node(a.root), h, i as nat));
        lemma_update_back(root_node(a.root), root_node(b.root), root_node(c.root), h, i as nat, Some(v));
        assert(c.root == a.root);
    }
    lemma_same_vec(c, a);
}

/// Writing through `get_mut` the value that is already there changes
/// nothing: when cloning a `T` gives back an equal value, the vector is the
/// very one from before, trie included.
pub proof fn law_write_same<T: Clone>(a: PVec<T>, i: int, b: PVec<T>)
    requires
        a.wf(),
        clone_exact::<T>(),
        written_vec(a, i, a@[i], b),
    ensures
        b == a,
{
    let n = a@.len();
    assert forall|j: int| 0 <= j < n implies #[trigger] b@[j] == a@[j] by {
        if j != i {
            assert(cloned(a@[j], b@[j]));
        }
    }
    assert(b@ =~= a@);
    lemma_tail_len(a);
    if i < n - n % 32 {
        let h = (a.shift.0 / 5) as nat;
        let rs = a.root_size.0 as nat;
        assert(wf(root_node(a.root), h, rs));
        vstd::arithmetic::div_mod::lemma_small_mod(i as nat, span(h + 1));
        lemma_wf_lookup(root_node(a.root), h, rs, i as nat);
        assert(Some(a@[i]) == lookup(root_node(a.root), h, i as nat));
        lemma_update_same(root_node(a.root), root_node(b.root), h, i as nat);
        assert(b.root == a.root);
    }
    lemma_same_vec(b, a);
}

/// A write is determined by the vector, the position and the value: two
/// writes of `v` at `i` of the same vector give equal vectors, when cloning
/// a `T` gives back an equal value.
pub proof fn law_write_determined<T: Clone>(a: PVec<T>, i: int, v: T, b: PVec<T>, c: PVec<T>)
    requires
        a.wf(),
        clone_exact::<T>(),
        written_vec(a, i, v, b),
        written_vec(a, i, v, c),
    ensures
        b == c,
{
    let n = a@.len();
    assert forall|j: int| 0 <= j < n implies #[trigger] b@[j] == c@[j] by {
        if j != i {
            assert(cloned(a@[j], b@[j]));
            assert(cloned(a@[j], c@[j]));
        }
    }
    assert(b@ =~= c@);
    if i < n - n % 32 {
        lemma_update_unique(
            root_node(a.root),
            root_node(b.root),
            root_node(c.root),
            (a.shift.0 / 5) as nat,
            i as nat,
            Some(v),
        );
        assert(b.root == c.root);
    }
    lemma_same_vec(b, c);
}

/// Any two empty vectors are equal; in particular, `new` always gives the
/// same vector.
pub proof fn law_empty_unique<T>(a: PVec<T>, b: PVec<T>)
    requires
        a.wf(),
        b.wf(),
        a@.len() == 0,
        b@.len() == 0,
    ensures
        a == b,
{
    lemma_tail_len(a);
    lemma_tail_len(b);
    assert(a@ =~= b@);
    lemma_same_vec(a, b);
}

/// The reads of a vector's trie along the block of 32 positions from `rs`,
/// the last block of the trie, are its elements there.
proof fn lemma_last_block_reads<T>(b: PVec<T>, rs: nat)
    requires
        b.wf(),
        b.root_size.0 == rs + 32,
    ensures
        forall|j: nat|
            j / 32 == rs / 32 ==> #[trigger] lookup(root_node(b.root), (b.shift.0 / 5) as nat, j)
                == Some(b@[j as int]),
{
    let h = (b.shift.0 / 5) as nat;
    assert forall|j: nat| j / 32 == rs / 32 implies #[trigger] lookup(root_node(b.root), h, j)
        == Some(b@[j as int]) by {
        lemma_span_basics(h);
        vstd::arithmetic::div_mod::lemma_fundamental_div_mod(rs as int, 32);
        vstd::arithmetic::div_mod::lemma_fundamental_div_mod(j as int, 32);
        assert(j < rs + 32);
        vstd::arithmetic::div_mod::lemma_small_mod(j, span(h + 1));
        lemma_wf_lookup(root_node(b.root), h, rs + 32, j);
    }
}

/// A push is determined by the vector and the element: two pushes of `x`
/// onto the same vector give equal vectors.
pub proof fn law_push_determined<T>(a: PVec<T>, x: T, b: PVec<T>, c: PVec<T>)
    requires
        a.wf(),
        pushed_vec(a, x, b),
        pushed_vec(a, x, c),
    ensures
        b == c,
{
    let n = a@.len();
    if n % 32 == 31 {
        let rs = (n - 31) as nat;
        lemma_tail_len(a);
        lemma_tail_len(b);
        lemma_tail_len(c);
        assert(b.root_size.0 == rs + 32);
        assert(c.root_size.0 == rs + 32);
        lemma_last_block_reads(b, rs);
        lemma_last_block_reads(c, rs);
        assert(b.shift == c.shift);
        let h = (a.shift.0 / 5) as nat;
        let (ra, rb, rc) = (root_node(a.root), root_node(b.root), root_node(c.root));
        let hb = (b.shift.0 / 5) as nat;
        assert forall|j: nat| j / 32 == rs / 32 implies #[trigger] lookup(rb, hb, j) == lookup(rc, hb, j) by {
            assert(lookup(rb, hb, j) == Some(b@[j as int]));
            assert(lookup(rc, hb, j) == Some(c@[j as int]));
        }
        if rs == 0 {
            lemma_fresh_unique(rb, rc, 1, 0);
        } else if rs + 32 == span(h + 1) {
            assert(hb == h + 1);
            lemma_span_basics(h + 1);
            vstd::arithmetic::div_mod::lemma_basic_div(rs as int, span(h + 1) as int);
            assert(digit(rs, h + 1) == 0);
            lemma_block_reads_down(rb, rc, h + 1, rs);
            assert(h + 1 - 1 == h);
            lemma_added_unique(ra, child(rb, 0), child(rc, 0), h, rs);
            assert(rb->children@[0] == rc->children@[0]);
            assert(rb->children =~= rc->children);
        } else {
            lemma_added_unique(ra, rb, rc, h, rs);
        }
        assert(b.root == c.root);
    }
    lemma_same_vec(b, c);
}

/// A pop is determined by the vector: two pops of the same vector return
/// the same element and give equal vectors, when cloning a `T` gives back
/// an equal value.
pub proof fn law_pop_determined<T: Clone>(a: PVec<T>, r: Option<T>, b: PVec<T>, r2: Option<T>, c: PVec<T>)
    requires
        a.wf(),
        clone_exact::<T>(),
        popped_vec(a, r, b),
        popped_vec(a, r2, c),
    ensures
        r == r2,
        b == c,
{
    let n = a@.len();
    if n > 0 {
        assert(cloned(a@.last(), r->0));
        assert(cloned(a@.last(), r2->0));
        assert forall|j: int| 0 <= j < n - 1 implies #[trigger] b@[j] == c@[j] by {
            assert(cloned(a@[j], b@[j]));
            assert(cloned(a@[j], c@[j]));
        }
    }
    assert(b@ =~= c@);
    if n % 32 == 0 && n > 0 {
        let rs = (n - 32) as nat;
        let h = (a.shift.0 / 5) as nat;
        let ra = root_node(a.root);
        if rs > 0 {
            if rs + 32 == span(h) {
                lemma_removed_unique(child(ra, 0), root_node(b.root), root_node(c.root), (h - 1) as nat, rs);
            } else {
                lemma_removed_unique(ra, root_node(b.root), root_node(c.root), h, rs);
            }
            assert(b.root == c.root);
        }
    }
    lemma_same_vec(b, c);
}

/// The tail holds the elements past the last multiple of 32.
proof fn lemma_tail_len<T>(a: PVec<T>)
    requires
        a.wf(),
    ensures
        a.tail_size.0 == a@.len() % 32,
        a.root_size.0 == a@.len() - a@.len() % 32,
{
    vstd::arithmetic::div_mod::lemma_fundamental_div_mod(a.root_size.0 as int, 32);
    vstd::arithmetic::div_mod::lemma_fundamental_div_mod_converse(
        a@.len() as int,
        32,
        (a.root_size.0 / 32) as int,
        a.tail_size.0 as int,
    );
}

/// Spans grow with the height.
pub proof fn lemma_span_grows(a: nat, b: nat)
    requires
        a < b,
    ensures
        span(a) < span(b),
{
    lemma_pow2_strictly_increases(5 * a, 5 * b);
}

/// A multiple of 32 that a node's span does not exceed by exactly a block
/// (and is at most a block below) lies at or above it.
pub proof fn lemma_span_below(rs: nat, h: nat)
    requires
        h >= 1,
        rs % 32 == 0,
        span(h) <= rs + 32,
        span(h) != rs + 32,
    ensures
        span(h) <= rs,
{
    lemma_span_basics(h);
    vstd::arithmetic::div_mod::lemma_fundamental_div_mod(rs as int, 32);
    vstd::arithmetic::div_mod::lemma_fundamental_div_mod(span(h) as int, 32);
}

/// Positions below a multiple of 32 lie in earlier blocks.
pub proof fn lemma_div32_lt(k: nat, rs: nat)
    requires
        k < rs,
        rs % 32 == 0,
    ensures
        k / 32 != rs / 32,
{
    vstd::arithmetic::div_mod::lemma_fundamental_div_mod(rs as int, 32);
    vstd::arithmetic::div_mod::lemma_fundamental_div_mod(k as int, 32);
}

/// The 32 positions from a multiple of 32 on form one block.
pub proof fn lemma_same_block(rs: nat, k: nat)
    requires
        rs % 32 == 0,
        rs <= k < rs + 32,
    ensures
        k / 32 == rs / 32,
        k % 32 == k - rs,
{
    vstd::arithmetic::div_mod::lemma_fundamental_div_mod(rs as int, 32);
    vstd::arithmetic::div_mod::lemma_fundamental_div_mod_converse(
        k as int,
        32,
        (rs / 32) as int,
        (k - rs) as int,
    );
}

impl<T: Clone> PVec<T> {
    /// Mutable access to the element at `index`, or `None` when `index` is
    /// past the end but still within the last block of 32 positions. Shared
    /// trie nodes on the way are copied first, so the other elements of the
    /// same leaf may be replaced by clones.
    pub fn get_mut(&mut self, index: usize) -> (r: Option<&mut T>)
        requires
            old(self).wf(),
            index / 32 <= old(self)@.len() / 32,
        ensures
            final(self).wf(),
            index >= old(self)@.len() ==> r is None && final(self)@ == old(self)@,
            index < old(self)@.len() ==> {
                &&& r is Some
                &&& cloned(old(self)@[index as int], *r->0)
                &&& written(old(self)@, index as int, *final(r.unwrap()), final(self)@)
            },
            index < old(self)@.len() ==> written_vec(
                *old(self),
                index as int,
                *final(r.unwrap()),
                *final(self),
            ),
            index >= old(self)@.len() ==> final(self).trie() == old(self).trie()
                && final(self).trie_shift() == old(self).trie_shift(),
            index < old(self)@.len() && index / 32 == old(self)@.len() / 32 ==> {
                &&& *r->0 == old(self)@[index as int]
                &&& final(self)@ == old(self)@.update(index as int, *final(r.unwrap()))
            },
    {
        let ghost fs = *final(self);
        proof {
            lemma_tail_len(*old(self));
        }
        proof {
            lemma_tree_shift(self.root, self.shift.0, self.root_size.0 as nat);
            lemma_len_blocks(self.root_size.0 as nat, self.tail_size.0 as nat, index as nat);
        }
        if self.root_size.0 > index {
            let ghost h = (self.shift.0 / 5) as nat;
            let ghost r0 = root_node(self.root);
            proof {
                lemma_span_basics(h);
                vstd::arithmetic::div_mod::lemma_small_mod(index as nat, span(h + 1));
                lemma_wf_lookup(r0, h, self.root_size.0 as nat, index as nat);
                lemma_lookup_reaches(r0, h, index as nat);
            }
            let node = make_mut(self.root.as_mut().unwrap());
            let ghost fin = *final(node);
            proof {
                lemma_copy_branch(r0, *node);
            }
            let r = node.get_mut(Index(index), self.shift);
            proof {
                let v = *final(r.unwrap());
                lemma_updated_lookup(r0, fin, h, index as nat, Some(v));
                lemma_updated_wf(r0, fin, h, index as nat, Some(v), self.root_size.0 as nat);
                assert(root_node(fs.root) == fin);
                assert(fs.shift == old(self).shift);
                assert(fs.root_size == old(self).root_size);
                assert(fs.tail == old(self).tail);
                assert(fs.tail_size == old(self).tail_size);
                let rs = self.root_size.0 as nat;
                assert(fs@[index as int] == v);
                assert forall|j: int| 0 <= j < old(self)@.len() && j != index implies cloned(
                    old(self)@[j],
                    #[trigger] fs@[j],
                ) && (j / 32 != index / 32 ==> fs@[j] == old(self)@[j]) by {
                    if j < rs {
                        vstd::arithmetic::div_mod::lemma_basic_div(j, span(h + 1) as int);
                        vstd::arithmetic::div_mod::lemma_basic_div(index as int, span(h + 1) as int);
                        vstd::arithmetic::div_mod::lemma_small_mod(j as nat, span(h + 1));
                        lemma_wf_lookup(r0, h, rs, j as nat);
                        if j / 32 == index / 32 {
                            assert(opt_cloned(lookup(r0, h, j as nat), lookup(fin, h, j as nat)));
                        }
                    }
                }
            }
            r
        } else {
            self.tail[index - self.root_size.0].as_mut()
        }
    }
}

impl<T: Clone> Clone for PVec<T> {
    /// A vector with the same elements, sharing the trie with this one; the
    /// elements of the tail are cloned.
    fn clone(&self) -> (r: Self)
        ensures
            self.wf() ==> cloned_vec(*self, r),
    {
        let root = copy_slot(&self.root);
        let mut tail = no_children();
        let mut m: usize = 0;
        while m < BRANCH_FACTOR
            invariant
                m <= 32,
                forall|j: int| 0 <= j < m ==> opt_cloned(#[trigger] self.tail@[j], tail@[j]),
            decreases 32 - m,
        {
            tail[m] = copy_element(&self.tail[m]);
            m = m + 1;
        }
        let r = PVec {
            root,
            root_size: self.root_size,
            tail,
            tail_size: self.tail_size,
            shift: self.shift,
        };
        proof {
            assert forall|m: int| 0 <= m < 32 implies ((#[trigger] r.tail@[m]) is Some <==> self.tail@[m] is Some) by {
                assert(opt_cloned(self.tail@[m], tail@[m]));
            }
            assert forall|j: int| self.wf() && 0 <= j < self@.len() implies cloned(self@[j], #[trigger] r@[j]) by {
                if j >= self.root_size.0 {
                    assert(opt_cloned(self.tail@[j - self.root_size.0], tail@[j - self.root_size.0]));
                }
            }
            if self.wf() {
                assert forall|j: int| 0 <= j < self@.len() && j / 32 != self@.len() / 32 implies #[trigger] r@[j]
                    == self@[j] by {
                    lemma_len_blocks(self.root_size.0 as nat, self.tail_size.0 as nat, j as nat);
                    if j >= self.root_size.0 {
                        lemma_same_block(self.root_size.0 as nat, j as nat);
                    }
                }
            }
        }
        r
    }
}

impl<T: Clone> PVec<T> {
    /// The element at `i`, which lies below the length.
    pub fn index(&self, i: usize) -> (r: &T)
        requires
            self.wf(),
            i < self@.len(),
        ensures
            *r == self@[i as int],
    {
        proof {
            vstd::arithmetic::div_mod::lemma_div_is_ordered(i as int, self@.len() as int, 32);
        }
        self.get(i).unwrap()
    }

    /// Mutable access to the element at `i`, which lies below the length;
    /// as `get_mut`, the other elements of its block may become clones.
    pub fn index_mut(&mut self, i: usize) -> (r: &mut T)
        requires
            old(self).wf(),
            i < old(self)@.len(),
        ensures
            final(self).wf(),
            cloned(old(self)@[i as int], *r),
            written(old(self)@, i as int, *final(r), final(self)@),
            written_vec(*old(self), i as int, *final(r), *final(self)),
    {
        proof {
            vstd::arithmetic::div_mod::lemma_div_is_ordered(i as int, old(self)@.len() as int, 32);
        }
        self.get_mut(i).unwrap()
    }
}

/// With the trie holding a multiple of 32 and the tail fewer than 32
/// elements, a position in the last block of 32 lies in the tail.
pub proof fn lemma_len_blocks(root_size: nat, tail_size: nat, index: nat)
    requires
        root_size % 32 == 0,
        tail_size < 32,
        index / 32 <= (root_size + tail_size) / 32,
    ensures
        index < root_size + 32,
        (root_size + tail_size) / 32 == root_size / 32,
{
    vstd::arithmetic::div_mod::lemma_fundamental_div_mod(root_size as int, 32);
    vstd::arithmetic::div_mod::lemma_fundamental_div_mod_converse(
        (root_size + tail_size) as int,
        32,
        (root_size / 32) as int,
        tail_size as int,
    );
    vstd::arithmetic::div_mod::lemma_fundamental_div_mod(index as int, 32);
}

} // verus!
