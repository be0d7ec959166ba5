use vstd::prelude::*;

use crate::error::ErrorCode;
use crate::state::AccountTag;

verus! {

/// The handle that stands for "no node".
pub const NIL: u32 = 4294967295;

/// A resting order: its key, its owner's callback information and what is left of it.
#[derive(Clone, Copy, Debug)]
pub struct LeafNode {
    pub key: u128,
    pub callback_info: [u8; 32],
    pub base_quantity: u64,
}

/// A branching node: keys below it agree with `key_prefix` on the top
/// `prefix_len` bits and split on the bit at `critical_bit_shift`.
#[derive(Clone, Copy, Debug)]
pub struct InnerNode {
    pub prefix_len: u32,
    pub critical_bit_shift: u32,
    pub key_prefix: u128,
    pub children: [u32; 2],
}

/// One slot of the slab.
#[derive(Clone, Copy, Debug)]
pub enum Node {
    Inner(InnerNode),
    Leaf(LeafNode),
    /// A slot on the free list, holding the next free handle.
    Free(u32),
}

/// Bit `s` of `k`, as 0 or 1.
pub open spec fn bit(k: u128, s: u32) -> u128 {
    (k >> s) & 1u128
}

/// `a` and `b` agree on every bit above bit `s`.
pub open spec fn agree_above(a: u128, b: u128, s: u32) -> bool {
    s >= 127 || (a >> ((s + 1) as u32)) == (b >> ((s + 1) as u32))
}

pub proof fn lemma_bit_range(k: u128, s: u32)
    ensures
        bit(k, s) == 0 || bit(k, s) == 1,
{
    assert(((k >> s) & 1u128) == 0 || ((k >> s) & 1u128) == 1) by (bit_vector);
}

/// Two keys that agree above bit `s` are ordered by bit `s`.
pub proof fn lemma_order_at_bit(a: u128, b: u128, s: u32)
    requires
        s < 128,
        agree_above(a, b, s),
        bit(a, s) == 1,
        bit(b, s) == 0,
    ensures
        a > b,
{
    assert(s < 128u32 && (s >= 127u32 || (a >> ((s + 1) as u32)) == (b >> ((s + 1) as u32)))
        && ((a >> s) & 1u128) == 1u128 && ((b >> s) & 1u128) == 0u128 ==> a > b) by (bit_vector);
}

/// Agreement above a bit carries to the next bit up.
pub proof fn lemma_agree_up(a: u128, b: u128, s: u32)
    requires
        s < 127,
        agree_above(a, b, s),
    ensures
        agree_above(a, b, (s + 1) as u32),
{
    if s + 1 < 127 {
        assert(s < 126u32 ==> (a >> ((s + 2) as u32)) == ((a >> ((s + 1) as u32)) >> 1u32))
            by (bit_vector);
        assert(s < 126u32 ==> (b >> ((s + 2) as u32)) == ((b >> ((s + 1) as u32)) >> 1u32))
            by (bit_vector);
    }
}

/// Agreement above a bit carries to every higher bit.
pub proof fn lemma_agree_mono(a: u128, b: u128, s: u32, t: u32)
    requires
        s <= t,
        t < 128,
        agree_above(a, b, s),
    ensures
        agree_above(a, b, t),
    decreases t - s,
{
    if s < t && s < 127 {
        lemma_agree_up(a, b, s);
        lemma_agree_mono(a, b, (s + 1) as u32, t);
    }
}

/// Agreement above a bit fixes every higher bit.
pub proof fn lemma_agree_bit(a: u128, b: u128, s: u32, t: u32)
    requires
        s < t,
        t < 128,
        agree_above(a, b, s),
    ensures
        bit(a, t) == bit(b, t),
{
    lemma_agree_mono(a, b, s, (t - 1) as u32);
    assert((((t - 1) as u32 + 1) as u32) == t);
}

/// Agreement above bit `s` and on bit `s` is agreement above bit `s - 1`.
pub proof fn lemma_agree_step(a: u128, b: u128, s: u32)
    requires
        0 < s < 128,
        agree_above(a, b, s),
        bit(a, s) == bit(b, s),
    ensures
        agree_above(a, b, (s - 1) as u32),
{
    assert(0u32 < s && s < 128u32 && (s >= 127u32 || (a >> ((s + 1) as u32)) == (b >> ((s + 1) as u32)))
        && ((a >> s) & 1u128) == ((b >> s) & 1u128) ==> (((s - 1) as u32) >= 127u32 || (a >> s) == (b
        >> s))) by (bit_vector);
}

/// Keys that agree above bit 0 and on bit 0 are equal.
pub proof fn lemma_agree_zero(a: u128, b: u128)
    requires
        agree_above(a, b, 0),
        bit(a, 0) == bit(b, 0),
    ensures
        a == b,
{
    assert((a >> 1u32) == (b >> 1u32) && ((a >> 0u32) & 1u128) == ((b >> 0u32) & 1u128) ==> a == b)
        by (bit_vector);
}

/// The shape of a non-empty tree, with the handle of each node.
pub enum Tree {
    Leaf { h: u32, leaf: LeafNode },
    Inner { h: u32, shift: u32, prefix: u128, left: Box<Tree>, right: Box<Tree> },
}

impl Tree {
    pub open spec fn handle(self) -> u32 {
        match self {
            Tree::Leaf { h, .. } => h,
            Tree::Inner { h, .. } => h,
        }
    }

    /// Every key below this node, with its leaf.
    pub open spec fn map(self) -> Map<u128, LeafNode>
        decreases self,
    {
        match self {
            Tree::Leaf { leaf, .. } => map![leaf.key => leaf],
            Tree::Inner { left, right, .. } => left.map().union_prefer_right(right.map()),
        }
    }

    /// Every handle used by this subtree.
    pub open spec fn handles(self) -> Set<u32>
        decreases self,
    {
        match self {
            Tree::Leaf { h, .. } => set![h],
            Tree::Inner { h, left, right, .. } => left.handles().union(right.handles()).insert(h),
        }
    }

    pub open spec fn leaves(self) -> nat
        decreases self,
    {
        match self {
            Tree::Leaf { .. } => 1,
            Tree::Inner { left, right, .. } => left.leaves() + right.leaves(),
        }
    }

    pub open spec fn inners(self) -> nat
        decreases self,
    {
        match self {
            Tree::Leaf { .. } => 0,
            Tree::Inner { left, right, .. } => left.inners() + right.inners() + 1,
        }
    }

    /// The node is a leaf, or branches on a bit below `s`.
    pub open spec fn below(self, s: u32) -> bool {
        match self {
            Tree::Leaf { .. } => true,
            Tree::Inner { shift, .. } => shift < s,
        }
    }

    /// The crit-bit ordering: at each branch, the keys on the left have a 0 at
    /// the critical bit, those on the right a 1, all of them agree with the prefix
    /// above it, and the branches below split on lower bits; no handle is used twice.
    pub open spec fn wf(self) -> bool
        decreases self,
    {
        match self {
            Tree::Leaf { .. } => true,
            Tree::Inner { h, shift, prefix, left, right } => {
                &&& shift < 128
                &&& left.wf()
                &&& right.wf()
                &&& forall|k: u128| #[trigger]
                    left.map().contains_key(k) ==> bit(k, shift) == 0 && agree_above(
                        k,
                        prefix,
                        shift,
                    )
                &&& forall|k: u128| #[trigger]
                    right.map().contains_key(k) ==> bit(k, shift) == 1 && agree_above(
                        k,
                        prefix,
                        shift,
                    )
                &&& left.below(shift)
                &&& right.below(shift)
                &&& left.handles().disjoint(right.handles())
                &&& !left.handles().contains(h)
                &&& !right.handles().contains(h)
            },
        }
    }

    /// The leaf reached by following the bits of `k` from this node.
    pub open spec fn descend(self, k: u128) -> LeafNode
        decreases self,
    {
        match self {
            Tree::Leaf { leaf, .. } => leaf,
            Tree::Inner { shift, left, right, .. } => if bit(k, shift) == 0 {
                left.descend(k)
            } else {
                right.descend(k)
            },
        }
    }

    /// The handle of the leaf reached by following the bits of `k`.
    pub open spec fn descend_handle(self, k: u128) -> u32
        decreases self,
    {
        match self {
            Tree::Leaf { h, .. } => h,
            Tree::Inner { shift, left, right, .. } => if bit(k, shift) == 0 {
                left.descend_handle(k)
            } else {
                right.descend_handle(k)
            },
        }
    }

    /// Hangs a new leaf beside this subtree under a new branch on bit `d`.
    pub open spec fn split(self, leaf: LeafNode, d: u32, hl: u32, hi: u32) -> Tree {
        let new_leaf = Tree::Leaf { h: hl, leaf };
        if bit(leaf.key, d) == 0 {
            Tree::Inner {
                h: hi,
                shift: d,
                prefix: leaf.key,
                left: Box::new(new_leaf),
                right: Box::new(self),
            }
        } else {
            Tree::Inner {
                h: hi,
                shift: d,
                prefix: leaf.key,
                left: Box::new(self),
                right: Box::new(new_leaf),
            }
        }
    }

    /// The tree after inserting `leaf`, whose key first differs from the
    /// existing keys on its path at bit `d`, in slots `hl` (leaf) and `hi` (branch).
    pub open spec fn insert(self, leaf: LeafNode, d: u32, hl: u32, hi: u32) -> Tree
        decreases self,
    {
        match self {
            Tree::Leaf { .. } => self.split(leaf, d, hl, hi),
            Tree::Inner { h, shift, prefix, left, right } => if shift > d {
                if bit(leaf.key, shift) == 0 {
                    Tree::Inner {
                        h,
                        shift,
                        prefix,
                        left: Box::new(left.insert(leaf, d, hl, hi)),
                        right,
                    }
                } else {
                    Tree::Inner {
                        h,
                        shift,
                        prefix,
                        left,
                        right: Box::new(right.insert(leaf, d, hl, hi)),
                    }
                }
            } else {
                self.split(leaf, d, hl, hi)
            },
        }
    }

    /// The tree after removing key `k`; `None` when `k` was its only key.
    pub open spec fn remove(self, k: u128) -> Option<Tree>
        decreases self,
    {
        match self {
            Tree::Leaf { .. } => None,
            Tree::Inner { h, shift, prefix, left, right } => if bit(k, shift) == 0 {
                match left.remove(k) {
                    None => Some(*right),
                    Some(l) => Some(
                        Tree::Inner { h, shift, prefix, left: Box::new(l), right },
                    ),
                }
            } else {
                match right.remove(k) {
                    None => Some(*left),
                    Some(r) => Some(
                        Tree::Inner { h, shift, prefix, left, right: Box::new(r) },
                    ),
                }
            },
        }
    }

    /// The tree with the leaf on the path of `leaf.key` replaced by `leaf`.
    pub open spec fn set_leaf(self, leaf: LeafNode) -> Tree
        decreases self,
    {
        match self {
            Tree::Leaf { h, .. } => Tree::Leaf { h, leaf },
            Tree::Inner { h, shift, prefix, left, right } => if bit(leaf.key, shift) == 0 {
                Tree::Inner { h, shift, prefix, left: Box::new(left.set_leaf(leaf)), right }
            } else {
                Tree::Inner { h, shift, prefix, left, right: Box::new(right.set_leaf(leaf)) }
            },
        }
    }
}

/// The slots of `nodes` hold the tree `t`.
pub open spec fn matches(nodes: Seq<Node>, t: Tree) -> bool
    decreases t,
{
    match t {
        Tree::Leaf { h, leaf } => h < nodes.len() && nodes[h as int] == Node::Leaf(leaf),
        Tree::Inner { h, shift, prefix, left, right } => {
            &&& h < nodes.len()
            &&& nodes[h as int] is Inner
            &&& nodes[h as int]->Inner_0.prefix_len == 127 - shift
            &&& nodes[h as int]->Inner_0.critical_bit_shift == shift
            &&& nodes[h as int]->Inner_0.key_prefix == prefix
            &&& nodes[h as int]->Inner_0.children[0] == left.handle()
            &&& nodes[h as int]->Inner_0.children[1] == right.handle()
            &&& matches(nodes, *left)
            &&& matches(nodes, *right)
        },
    }
}

pub proof fn lemma_matches_frame(a: Seq<Node>, b: Seq<Node>, t: Tree)
    requires
        matches(a, t),
        a.len() <= b.len(),
        forall|i: u32| #[trigger] t.handles().contains(i) ==> b[i as int] == a[i as int],
    ensures
        matches(b, t),
    decreases t,
{
    match t {
        Tree::Leaf { h, .. } => {
            assert(t.handles().contains(h));
        },
        Tree::Inner { h, left, right, .. } => {
            assert(t.handles().contains(h));
            assert forall|i: u32| #[trigger] left.handles().contains(i) implies b[i as int]
                == a[i as int] by {
                assert(t.handles().contains(i));
            }
            assert forall|i: u32| #[trigger] right.handles().contains(i) implies b[i as int]
                == a[i as int] by {
                assert(t.handles().contains(i));
            }
            lemma_matches_frame(a, b, *left);
            lemma_matches_frame(a, b, *right);
        },
    }
}

pub proof fn lemma_handles_in_range(nodes: Seq<Node>, t: Tree)
    requires
        matches(nodes, t),
    ensures
        forall|i: u32| #[trigger] t.handles().contains(i) ==> i < nodes.len(),
    decreases t,
{
    match t {
        Tree::Leaf { h, leaf } => {
            assert(nodes[h as int] == Node::Leaf(leaf));
            assert(h < nodes.len());
            assert forall|i: u32| #[trigger] t.handles().contains(i) implies i < nodes.len() by {
                assert(t.handles() == set![h]);
                assert(set![h].contains(i) ==> i == h);
            }
        },
        Tree::Inner { h, left, right, .. } => {
            lemma_handles_in_range(nodes, *left);
            lemma_handles_in_range(nodes, *right);
            assert forall|i: u32| #[trigger] t.handles().contains(i) implies i < nodes.len() by {
                assert(t.handles() == left.handles().union(right.handles()).insert(h));
            }
        },
    }
}

pub proof fn lemma_handle_in(t: Tree)
    ensures
        t.handles().contains(t.handle()),
{
}

pub proof fn lemma_map_finite(t: Tree)
    ensures
        t.map().dom().finite(),
        t.handles().finite(),
    decreases t,
{
    match t {
        Tree::Leaf { leaf, .. } => {
            assert(t.map().dom() =~= set![leaf.key]);
        },
        Tree::Inner { left, right, .. } => {
            lemma_map_finite(*left);
            lemma_map_finite(*right);
            assert(t.map().dom() =~= left.map().dom().union(right.map().dom()));
        },
    }
}

/// In a well-formed branch every key agrees with the prefix above the
/// critical bit, and the two sides hold different keys.
pub proof fn lemma_inner_facts(t: Tree)
    requires
        t.wf(),
        t is Inner,
    ensures
        forall|k: u128| #[trigger]
            t.map().contains_key(k) ==> agree_above(k, t->prefix, t->shift),
        t->left.map().dom().disjoint(t->right.map().dom()),
        forall|k: u128| #[trigger]
            t.map().contains_key(k) ==> (t->left.map().contains_key(k) <==> bit(k, t->shift) == 0),
{
    if let Tree::Inner { shift, left, right, .. } = t {
    assert forall|k: u128| #[trigger] t.map().contains_key(k) implies (left.map().contains_key(k)
        <==> bit(k, shift) == 0) by {
        if right.map().contains_key(k) {
            assert(bit(k, shift) == 1);
        }
    }
    assert(left.map().dom().disjoint(right.map().dom())) by {
        assert forall|k: u128| !(left.map().dom().contains(k) && right.map().dom().contains(k)) by {
            if left.map().contains_key(k) {
                assert(bit(k, shift) == 0);
            }
        }
    }
    }
}

/// The leaf reached by following a key's bits belongs to the tree, and is that
/// key's own leaf when the key is present.
pub proof fn lemma_descend(t: Tree, k: u128)
    requires
        t.wf(),
    ensures
        t.map().contains_key(t.descend(k).key),
        t.map()[t.descend(k).key] == t.descend(k),
        t.map().contains_key(k) ==> t.descend(k).key == k,
        t.handles().contains(t.descend_handle(k)),
    decreases t,
{
    match t {
        Tree::Leaf { leaf, .. } => {},
        Tree::Inner { shift, left, right, .. } => {
            lemma_inner_facts(t);
            lemma_descend(*left, k);
            lemma_descend(*right, k);
            lemma_bit_range(k, shift);
            let f = t.descend(k);
            if bit(k, shift) == 0 {
                if right.map().contains_key(f.key) {
                    assert(left.map().dom().contains(f.key));
                }
            }
        },
    }
}

/// All keys of the left side of a branch are below all keys of its right side.
pub proof fn lemma_sides_ordered(t: Tree, a: u128, b: u128)
    requires
        t.wf(),
        t is Inner,
        t->left.map().contains_key(a),
        t->right.map().contains_key(b),
    ensures
        a < b,
{
    if let Tree::Inner { shift, prefix, left, right, .. } = t {
        assert(bit(a, shift) == 0 && agree_above(a, prefix, shift));
        assert(bit(b, shift) == 1 && agree_above(b, prefix, shift));
        lemma_order_at_bit(b, a, shift);
    }
}

} // verus!

verus! {

/// The crit-bit tree's map of a possibly empty tree.
pub open spec fn tree_map(t: Option<Tree>) -> Map<u128, LeafNode> {
    match t {
        None => Map::empty(),
        Some(t) => t.map(),
    }
}

pub open spec fn tree_handles(t: Option<Tree>) -> Set<u32> {
    match t {
        None => Set::empty(),
        Some(t) => t.handles(),
    }
}

pub open spec fn tree_leaves(t: Option<Tree>) -> nat {
    match t {
        None => 0,
        Some(t) => t.leaves(),
    }
}

pub open spec fn tree_inners(t: Option<Tree>) -> nat {
    match t {
        None => 0,
        Some(t) => t.inners(),
    }
}

/// The leaf slot reached by a key is the slot of that key's leaf.
pub proof fn lemma_descend_slot(nodes: Seq<Node>, t: Tree, k: u128)
    requires
        t.wf(),
        matches(nodes, t),
        t.map().contains_key(k),
    ensures
        t.descend_handle(k) < nodes.len(),
        nodes[t.descend_handle(k) as int] == Node::Leaf(t.map()[k]),
        t.map()[k].key == k,
    decreases t,
{
    match t {
        Tree::Leaf { .. } => {},
        Tree::Inner { shift, left, right, .. } => {
            lemma_inner_facts(t);
            if bit(k, shift) == 0 {
                lemma_descend_slot(nodes, *left, k);
            } else {
                lemma_bit_range(k, shift);
                lemma_descend_slot(nodes, *right, k);
            }
        },
    }
}

pub proof fn lemma_map_len(t: Tree)
    requires
        t.wf(),
    ensures
        t.map().len() == t.leaves(),
        t.map().dom().finite(),
        t.leaves() >= 1,
    decreases t,
{
    lemma_map_finite(t);
    match t {
        Tree::Leaf { leaf, .. } => {
            assert(t.map().dom() =~= set![leaf.key]);
        },
        Tree::Inner { left, right, .. } => {
            lemma_map_len(*left);
            lemma_map_len(*right);
            lemma_inner_facts(t);
            assert(t.map().dom() =~= left.map().dom().union(right.map().dom()));
            vstd::set_lib::lemma_set_disjoint_lens(left.map().dom(), right.map().dom());
        },
    }
}

/// Replacing the payload of a leaf keeps the tree's shape.
pub proof fn lemma_set_leaf(nodes: Seq<Node>, t: Tree, leaf: LeafNode)
    requires
        t.wf(),
        matches(nodes, t),
        t.map().contains_key(leaf.key),
    ensures
        t.set_leaf(leaf).wf(),
        matches(nodes.update(t.descend_handle(leaf.key) as int, Node::Leaf(leaf)), t.set_leaf(leaf)),
        t.set_leaf(leaf).map() == t.map().insert(leaf.key, leaf),
        t.set_leaf(leaf).handles() == t.handles(),
        t.set_leaf(leaf).handle() == t.handle(),
        t.set_leaf(leaf).leaves() == t.leaves(),
        t.set_leaf(leaf).inners() == t.inners(),
        forall|s: u32| t.below(s) ==> #[trigger] t.set_leaf(leaf).below(s),
        forall|k: u128| #[trigger] t.set_leaf(leaf).descend_handle(k) == t.descend_handle(k),
    decreases t,
{
    let k = leaf.key;
    let h = t.descend_handle(k);
    lemma_descend(t, k);
    lemma_descend_slot(nodes, t, k);
    lemma_handles_in_range(nodes, t);
    let n2 = nodes.update(h as int, Node::Leaf(leaf));
    match t {
        Tree::Leaf { leaf: old_leaf, .. } => {
            assert(t.map().insert(k, leaf) =~= map![k => leaf]);
            assert forall|x: u128| #[trigger] t.set_leaf(leaf).descend_handle(x) == t.descend_handle(x) by {}
        },
        Tree::Inner { h: hh, shift, prefix, left, right } => {
            lemma_inner_facts(t);
            lemma_bit_range(k, shift);
            if bit(k, shift) == 0 {
                lemma_set_leaf(nodes, *left, leaf);
                lemma_descend(*left, k);
                assert(left.handles().contains(h));
                assert forall|i: u32| #[trigger] right.handles().contains(i) implies n2[i as int]
                    == nodes[i as int] by {
                    assert(!(left.handles().contains(i) && right.handles().contains(i)));
                    assert(t.handles().contains(i));
                }
                lemma_matches_frame(nodes, n2, *right);
                let l2 = left.set_leaf(leaf);
                assert forall|x: u128| #[trigger] l2.map().contains_key(x) implies bit(x, shift)
                    == 0 && agree_above(x, prefix, shift) by {
                    if x != k {
                        assert(left.map().contains_key(x));
                    }
                }
                assert(t.set_leaf(leaf).map() =~= t.map().insert(k, leaf));
                assert forall|x: u128| #[trigger] t.set_leaf(leaf).descend_handle(x) == t.descend_handle(x) by {
                    assert(l2.descend_handle(x) == left.descend_handle(x));
                }
            } else {
                lemma_set_leaf(nodes, *right, leaf);
                lemma_descend(*right, k);
                assert(right.handles().contains(h));
                assert forall|i: u32| #[trigger] left.handles().contains(i) implies n2[i as int]
                    == nodes[i as int] by {
                    assert(!(left.handles().contains(i) && right.handles().contains(i)));
                    assert(t.handles().contains(i));
                }
                lemma_matches_frame(nodes, n2, *left);
                let r2 = right.set_leaf(leaf);
                assert forall|x: u128| #[trigger] r2.map().contains_key(x) implies bit(x, shift)
                    == 1 && agree_above(x, prefix, shift) by {
                    if x != k {
                        assert(right.map().contains_key(x));
                    }
                }
                assert(t.set_leaf(leaf).map() =~= t.map().insert(k, leaf));
                assert forall|x: u128| #[trigger] t.set_leaf(leaf).descend_handle(x) == t.descend_handle(x) by {
                    assert(r2.descend_handle(x) == right.descend_handle(x));
                }
            }
            assert(hh != h);
        },
    }
}

} // verus!

verus! {

/// Reads bit `s` of `k`.
fn key_bit(k: u128, s: u32) -> (r: usize)
    requires
        s < 128,
    ensures
        r as u128 == bit(k, s),
        r == 0 || r == 1,
{
    proof {
        lemma_bit_range(k, s);
    }
    ((k >> s) & 1u128) as usize
}

/// The highest bit at which two different keys differ.
fn crit_bit(a: u128, b: u128) -> (d: u32)
    requires
        a != b,
    ensures
        d < 128,
        agree_above(a, b, d),
        bit(a, d) != bit(b, d),
{
    let mut d: u32 = 127;
    while key_bit(a, d) == key_bit(b, d)
        invariant
            d < 128,
            agree_above(a, b, d),
            a != b,
        decreases d,
    {
        proof {
            if d == 0 {
                lemma_agree_zero(a, b);
            } else {
                lemma_agree_step(a, b, d);
            }
        }
        d = d - 1;
    }
    d
}

/// Follows the bits of `key` from the node `root` down to a leaf.
fn descend_slot(nodes: &Vec<Node>, root: u32, Ghost(t): Ghost<Tree>, key: u128) -> (r: u32)
    requires
        t.wf(),
        matches(nodes@, t),
        t.handle() == root,
    ensures
        r == t.descend_handle(key),
        r < nodes@.len(),
        nodes@[r as int] == Node::Leaf(t.descend(key)),
{
    let mut h = root;
    let ghost mut cur = t;
    loop
        invariant
            cur.wf(),
            matches(nodes@, cur),
            cur.handle() == h,
            t.descend_handle(key) == cur.descend_handle(key),
            t.descend(key) == cur.descend(key),
        decreases cur.inners(),
    {
        proof {
            lemma_handles_in_range(nodes@, cur);
        }
        match nodes[h as usize] {
            Node::Inner(inner) => {
                let dir = key_bit(key, inner.critical_bit_shift);
                proof {
                    if dir == 0 {
                        cur = *cur->left;
                    } else {
                        cur = *cur->right;
                    }
                }
                h = inner.children[dir];
            },
            _ => {
                return h;
            },
        }
    }
}

/// Inserts `leaf`, already written at slot `hl`, below the node `h`, using
/// slot `hi` for the new branch; returns the subtree's new top handle.
fn insert_below(
    nodes: &mut Vec<Node>,
    h: u32,
    Ghost(t): Ghost<Tree>,
    leaf: LeafNode,
    d: u32,
    hl: u32,
    hi: u32,
) -> (r: u32)
    requires
        t.wf(),
        matches(old(nodes)@, t),
        t.handle() == h,
        !t.map().contains_key(leaf.key),
        d < 128,
        agree_above(leaf.key, t.descend(leaf.key).key, d),
        bit(leaf.key, d) != bit(t.descend(leaf.key).key, d),
        hl != hi,
        !t.handles().contains(hl),
        !t.handles().contains(hi),
        hl < old(nodes)@.len(),
        hi < old(nodes)@.len(),
        old(nodes)@[hl as int] == Node::Leaf(leaf),
    ensures
        final(nodes)@.len() == old(nodes)@.len(),
        forall|i: int|
            0 <= i < old(nodes)@.len() && i != hi && !t.handles().contains(#[verifier::truncate] (i as u32))
                ==> #[trigger] final(nodes)@[i] == old(nodes)@[i],
        r == t.insert(leaf, d, hl, hi).handle(),
        matches(final(nodes)@, t.insert(leaf, d, hl, hi)),
        t.insert(leaf, d, hl, hi).wf(),
        t.insert(leaf, d, hl, hi).map() == t.map().insert(leaf.key, leaf),
        t.insert(leaf, d, hl, hi).handles() == t.handles().insert(hl).insert(hi),
        forall|s: u32| t.below(s) && d < s ==> #[trigger] t.insert(leaf, d, hl, hi).below(s),
        t.insert(leaf, d, hl, hi).leaves() == t.leaves() + 1,
        t.insert(leaf, d, hl, hi).inners() == t.inners() + 1,
    decreases t,
{
    proof {
        lemma_handles_in_range(old(nodes)@, t);
        lemma_descend(t, leaf.key);
    }
    let node = nodes[h as usize];
    if let Node::Inner(inner) = node {
        if inner.critical_bit_shift > d {
            assert(t is Inner);
            let ghost shift = t->shift;
            let ghost prefix = t->prefix;
            let ghost left = *t->left;
            let ghost right = *t->right;
            let dir = key_bit(leaf.key, inner.critical_bit_shift);
            let c = inner.children[dir];
            let ghost child = if dir == 0 { left } else { right };
            let ghost other = if dir == 0 { right } else { left };
            proof {
                lemma_inner_facts(t);
                assert(child.handles().subset_of(t.handles()));
                assert(other.handles().subset_of(t.handles()));
            }
            let ghost before = nodes@;
            let nc = insert_below(nodes, c, Ghost(child), leaf, d, hl, hi);
            let ghost mid = nodes@;
            let mut n = inner;
            n.children[dir] = nc;
            nodes.set(h as usize, Node::Inner(n));
            proof {
                let t2 = t.insert(leaf, d, hl, hi);
                let c2 = child.insert(leaf, d, hl, hi);
                let f = t.descend(leaf.key);
                assert(f == child.descend(leaf.key));
                lemma_descend(child, leaf.key);
                assert(t.map().contains_key(f.key));
                assert(agree_above(f.key, prefix, shift));
                lemma_agree_mono(leaf.key, f.key, d, shift);
                assert(agree_above(leaf.key, prefix, shift));
                assert forall|i: u32| #[trigger] c2.handles().contains(i) implies nodes@[i as int]
                    == mid[i as int] by {
                    assert(i != h);
                }
                lemma_handles_in_range(mid, c2);
                lemma_matches_frame(mid, nodes@, c2);
                assert forall|i: u32| #[trigger] other.handles().contains(i) implies nodes@[i as int]
                    == before[i as int] by {
                    assert(t.handles().contains(i));
                    assert(!child.handles().contains(i));
                }
                lemma_matches_frame(before, nodes@, other);
                if dir == 0 {
                    assert forall|k: u128| #[trigger] c2.map().contains_key(k) implies bit(k, shift)
                        == 0 && agree_above(k, prefix, shift) by {
                        if k != leaf.key {
                            assert(left.map().contains_key(k));
                        }
                    }
                    assert(t2.map() =~= t.map().insert(leaf.key, leaf));
                    assert(t2.handles() =~= t.handles().insert(hl).insert(hi));
                } else {
                    assert forall|k: u128| #[trigger] c2.map().contains_key(k) implies bit(k, shift)
                        == 1 && agree_above(k, prefix, shift) by {
                        if k != leaf.key {
                            assert(right.map().contains_key(k));
                        }
                    }
                    assert(t2.map() =~= t.map().insert(leaf.key, leaf));
                    assert(t2.handles() =~= t.handles().insert(hl).insert(hi));
                }
            }
            return h;
        }
    }
    let b = key_bit(leaf.key, d);
    let children: [u32; 2] = if b == 0 {
        [hl, h]
    } else {
        [h, hl]
    };
    let ghost before = nodes@;
    nodes.set(
        hi as usize,
        Node::Inner(
            InnerNode {
                prefix_len: 127 - d,
                critical_bit_shift: d,
                key_prefix: leaf.key,
                children,
            },
        ),
    );
    proof {
        let t2 = t.insert(leaf, d, hl, hi);
        let f = t.descend(leaf.key);
        let nl = Tree::Leaf { h: hl, leaf };
        lemma_bit_range(leaf.key, d);
        lemma_bit_range(f.key, d);
        // Every key of this subtree sits with `f` on the far side of bit `d`.
        assert forall|k: u128| #[trigger] t.map().contains_key(k) implies bit(k, d) == bit(f.key, d)
            && agree_above(k, leaf.key, d) by {
            match t {
                Tree::Leaf { .. } => {
                    assert(k == f.key);
                },
                Tree::Inner { shift, prefix, left, right, .. } => {
                    lemma_inner_facts(t);
                    lemma_bit_range(leaf.key, shift);
                    lemma_bit_range(f.key, shift);
                    if bit(leaf.key, shift) == 0 {
                        lemma_descend(*left, leaf.key);
                    } else {
                        lemma_descend(*right, leaf.key);
                    }
                    assert(bit(f.key, shift) == bit(leaf.key, shift));
                    assert(shift != d);
                    assert(agree_above(k, prefix, shift));
                    assert(agree_above(f.key, prefix, shift));
                    assert(agree_above(k, f.key, shift));
                    lemma_agree_bit(k, f.key, shift, d);
                    lemma_agree_mono(k, f.key, shift, d);
                },
            }
        }
        assert forall|i: u32| #[trigger] t.handles().contains(i) implies nodes@[i as int]
            == before[i as int] by {}
        lemma_matches_frame(before, nodes@, t);
        assert(matches(nodes@, nl));
        match t {
            Tree::Inner { shift, .. } => {
                assert(shift <= d);
                lemma_bit_range(leaf.key, shift);
                lemma_bit_range(f.key, shift);
                lemma_inner_facts(t);
                if bit(leaf.key, shift) == 0 {
                    lemma_descend(*t->left, leaf.key);
                } else {
                    lemma_descend(*t->right, leaf.key);
                }
                assert(shift != d);
                assert(t2 == t.split(leaf, d, hl, hi));
            },
            Tree::Leaf { .. } => {
                assert(t2 == t.split(leaf, d, hl, hi));
            },
        }
        assert(t.below(d));
        assert(nl.map().dom() =~= set![leaf.key]);
        assert(nl.handles() =~= set![hl]);
        assert(nl.map().contains_key(leaf.key));
        if bit(leaf.key, d) == 0 {
            assert(t2.map() == nl.map().union_prefer_right(t.map()));
            assert(t2.handles() == nl.handles().union(t.handles()).insert(hi));
            assert forall|k: u128| #[trigger] t.map().contains_key(k) implies bit(k, d) == 1
                && agree_above(k, leaf.key, d) by {}
            assert forall|k: u128| #[trigger] nl.map().contains_key(k) implies bit(k, d) == 0
                && agree_above(k, leaf.key, d) by {
                assert(k == leaf.key);
            }
            assert(t2.leaves() == nl.leaves() + t.leaves());
            assert(t2.inners() == nl.inners() + t.inners() + 1);
            assert(nl.handles().disjoint(t.handles()));
            assert(!nl.handles().contains(hi));
            assert(nl.wf());
            assert(nl.below(d));
            assert(t2 == Tree::Inner { h: hi, shift: d, prefix: leaf.key, left: Box::new(nl), right: Box::new(t) });
            assert(t2.wf());
        } else {
            assert(t2.map() == t.map().union_prefer_right(nl.map()));
            assert(t2.handles() == t.handles().union(nl.handles()).insert(hi));
            assert forall|k: u128| #[trigger] t.map().contains_key(k) implies bit(k, d) == 0
                && agree_above(k, leaf.key, d) by {}
            assert forall|k: u128| #[trigger] nl.map().contains_key(k) implies bit(k, d) == 1
                && agree_above(k, leaf.key, d) by {
                assert(k == leaf.key);
            }
            assert(t2.leaves() == nl.leaves() + t.leaves());
            assert(t2.inners() == nl.inners() + t.inners() + 1);
            assert(t.handles().disjoint(nl.handles()));
            assert(!nl.handles().contains(hi));
            assert(nl.wf());
            assert(nl.below(d));
            assert(t2 == Tree::Inner { h: hi, shift: d, prefix: leaf.key, left: Box::new(t), right: Box::new(nl) });
            assert(t2.wf());
        }
        assert(t2.map() =~= t.map().insert(leaf.key, leaf));
        assert(t2.handles() =~= t.handles().insert(hl).insert(hi));
    }
    hi
}

} // verus!

verus! {

/// Removes the leaf of `key` from below the node `h`. Returns the subtree's new
/// top handle (`NIL` when the subtree was that leaf alone), the slot of the
/// removed leaf, and the slot of the branch that went with it (`NIL` if none).
fn remove_below(nodes: &mut Vec<Node>, h: u32, Ghost(t): Ghost<Tree>, key: u128) -> (r: (
    u32,
    u32,
    u32,
))
    requires
        t.wf(),
        matches(old(nodes)@, t),
        t.handle() == h,
        t.map().contains_key(key),
        old(nodes)@.len() < NIL,
    ensures
        final(nodes)@.len() == old(nodes)@.len(),
        forall|i: int|
            0 <= i < old(nodes)@.len() && !t.handles().contains(
                #[verifier::truncate]
                (i as u32),
            ) ==> #[trigger] final(nodes)@[i] == old(nodes)@[i],
        r.1 == t.descend_handle(key),
        old(nodes)@[r.1 as int] == Node::Leaf(t.map()[key]),
        t.handles().contains(r.1),
        match t.remove(key) {
            None => {
                &&& r.0 == NIL
                &&& r.2 == NIL
                &&& t.handles() == set![r.1]
                &&& t.map() == map![key => t.map()[key]]
                &&& t.leaves() == 1
                &&& t.inners() == 0
            },
            Some(t2) => {
                &&& r.0 == t2.handle()
                &&& matches(final(nodes)@, t2)
                &&& t2.wf()
                &&& t2.map() == t.map().remove(key)
                &&& t.handles().contains(r.2)
                &&& r.1 != r.2
                &&& t2.handles() == t.handles().remove(r.1).remove(r.2)
                &&& forall|s: u32| t.below(s) ==> #[trigger] t2.below(s)
                &&& t2.leaves() + 1 == t.leaves()
                &&& t2.inners() + 1 == t.inners()
            },
        },
    decreases t,
{
    proof {
        lemma_handles_in_range(old(nodes)@, t);
        lemma_descend(t, key);
        lemma_descend_slot(old(nodes)@, t, key);
    }
    let node = nodes[h as usize];
    match node {
        Node::Inner(inner) => {
            assert(t is Inner);
            let ghost shift = t->shift;
            let ghost prefix = t->prefix;
            let ghost left = *t->left;
            let ghost right = *t->right;
            let dir = key_bit(key, inner.critical_bit_shift);
            let c = inner.children[dir];
            let o = inner.children[1 - dir];
            let ghost child = if dir == 0 { left } else { right };
            let ghost other = if dir == 0 { right } else { left };
            proof {
                lemma_inner_facts(t);
                assert(child.map().contains_key(key));
                assert(child.handles().subset_of(t.handles()));
                assert(other.handles().subset_of(t.handles()));
                lemma_descend(child, key);
            }
            let ghost before = nodes@;
            let (nc, lh, ph) = remove_below(nodes, c, Ghost(child), key);
            if nc == NIL {
                proof {
                    assert forall|i: u32| #[trigger] other.handles().contains(i) implies nodes@[i as int]
                        == before[i as int] by {
                        assert(t.handles().contains(i));
                        assert(!child.handles().contains(i));
                    }
                    lemma_matches_frame(before, nodes@, other);
                    assert(t.remove(key) == Some(other));
                    assert(child.map().dom() =~= set![key]);
                    assert(other.map() =~= t.map().remove(key)) by {
                        assert(!other.map().contains_key(key));
                    }
                    assert(other.handles() =~= t.handles().remove(lh).remove(h)) by {
                        assert(!other.handles().contains(lh));
                    }
                    assert(t.leaves() == child.leaves() + other.leaves());
                    assert(t.inners() == child.inners() + other.inners() + 1);
                }
                return (o, lh, h);
            }
            let ghost mid = nodes@;
            let mut n = inner;
            n.children[dir] = nc;
            nodes.set(h as usize, Node::Inner(n));
            proof {
                let c2 = child.remove(key)->Some_0;
                let t2 = t.remove(key)->Some_0;
                assert forall|i: u32| #[trigger] c2.handles().contains(i) implies nodes@[i as int]
                    == mid[i as int] by {
                    assert(child.handles().contains(i));
                    assert(i != h);
                }
                lemma_handles_in_range(mid, c2);
                lemma_matches_frame(mid, nodes@, c2);
                assert forall|i: u32| #[trigger] other.handles().contains(i) implies nodes@[i as int]
                    == before[i as int] by {
                    assert(t.handles().contains(i));
                    assert(!child.handles().contains(i));
                }
                lemma_matches_frame(before, nodes@, other);
                if dir == 0 {
                    assert(t2 == Tree::Inner { h, shift, prefix, left: Box::new(c2), right: Box::new(right) });
                    assert forall|k: u128| #[trigger] c2.map().contains_key(k) implies bit(k, shift)
                        == 0 && agree_above(k, prefix, shift) by {
                        assert(left.map().contains_key(k));
                    }
                } else {
                    assert(t2 == Tree::Inner { h, shift, prefix, left: Box::new(left), right: Box::new(c2) });
                    assert forall|k: u128| #[trigger] c2.map().contains_key(k) implies bit(k, shift)
                        == 1 && agree_above(k, prefix, shift) by {
                        assert(right.map().contains_key(k));
                    }
                }
                assert(t2.wf());
                assert(t2.map() =~= t.map().remove(key));
                assert(t2.handles() =~= t.handles().remove(lh).remove(ph));
            }
            (h, lh, ph)
        },
        _ => {
            proof {
                assert(t is Leaf);
                assert(t.map().dom() =~= set![key]);
                assert(t.map() =~= map![key => t.map()[key]]);
                assert(t.handles() =~= set![h]);
            }
            (NIL, h, NIL)
        },
    }
}

} // verus!

verus! {

/// A fixed-capacity arena of nodes holding one crit-bit tree of resting orders.
///
/// Slots below `bump_index` are each in the tree or on the free list; slots
/// from `bump_index` on have never been handed out.
pub struct Slab {
    account_tag: AccountTag,
    nodes: Vec<Node>,
    root: u32,
    leaf_count: u64,
    free_list_head: u32,
    bump_index: u32,
    tree: Ghost<Option<Tree>>,
    free_list: Ghost<Seq<u32>>,
}

impl View for Slab {
    type V = Map<u128, LeafNode>;

    /// The resting orders, by key.
    closed spec fn view(&self) -> Map<u128, LeafNode> {
        tree_map(self.tree@)
    }
}

impl Slab {
    /// The allocator and tree invariant, with the slots of `pending` handed out
    /// but not yet placed in the tree.
    closed spec fn inv(&self, pending: Seq<u32>) -> bool {
        let fl = self.free_list@;
        let th = tree_handles(self.tree@);
        &&& self.nodes@.len() < NIL
        &&& self.bump_index <= self.nodes@.len()
        &&& fl.no_duplicates()
        &&& (fl.len() == 0 ==> self.free_list_head == NIL)
        &&& (fl.len() > 0 ==> self.free_list_head == fl[0])
        &&& self.free_list_ok(pending)
        &&& pending.no_duplicates()
        &&& forall|i: int|
            0 <= i < pending.len() ==> #[trigger] pending[i] < self.bump_index && !th.contains(
                pending[i],
            )
        &&& forall|h: u32| #[trigger] th.contains(h) ==> h < self.bump_index
        &&& match self.tree@ {
            None => self.root == NIL,
            Some(t) => t.wf() && matches(self.nodes@, t) && t.handle() == self.root,
        }
        &&& self.leaf_count == tree_leaves(self.tree@)
        &&& tree_leaves(self.tree@) + tree_inners(self.tree@) + fl.len() + pending.len()
            == self.bump_index
    }

    /// Each free-list entry is a used-before slot marked free, pointing at the next entry,
    /// outside the tree and outside `pending`.
    closed spec fn free_list_ok(&self, pending: Seq<u32>) -> bool {
        let fl = self.free_list@;
        forall|i: int|
            0 <= i < fl.len() ==> {
                &&& #[trigger] fl[i] < self.bump_index
                &&& self.nodes@[fl[i] as int] == Node::Free(
                    if i + 1 < fl.len() {
                        fl[i + 1]
                    } else {
                        NIL
                    },
                )
                &&& !tree_handles(self.tree@).contains(fl[i])
                &&& !pending.contains(fl[i])
            }
    }

    /// The free list survives a change that leaves its slots alone.
    proof fn lemma_free_list_kept(a: &Slab, b: &Slab, pa: Seq<u32>, pb: Seq<u32>)
        requires
            a.free_list_ok(pa),
            b.free_list == a.free_list,
            b.bump_index == a.bump_index,
            forall|i: int|
                0 <= i < a.free_list@.len() ==> #[trigger] b.nodes@[a.free_list@[i] as int]
                    == a.nodes@[a.free_list@[i] as int] && !tree_handles(b.tree@).contains(
                    a.free_list@[i],
                ) && !pb.contains(a.free_list@[i]),
        ensures
            b.free_list_ok(pb),
    {
    }

    /// The slab is well formed.
    pub closed spec fn wf(&self) -> bool {
        self.inv(seq![])
    }

    /// What the slab holds: bids or asks.
    pub closed spec fn tag(&self) -> AccountTag {
        self.account_tag
    }

    /// Returns what the slab holds: bids or asks.
    pub fn account_tag(&self) -> (r: AccountTag)
        ensures
            r == self.tag(),
    {
        self.account_tag
    }

    /// Number of slots.
    pub closed spec fn capacity_spec(&self) -> nat {
        self.nodes@.len()
    }

    /// Number of slots that can still be handed out.
    pub closed spec fn free_slots(&self) -> nat {
        (self.free_list@.len() + self.nodes@.len() - self.bump_index) as nat
    }

    /// Slots ever handed out by bumping.
    pub closed spec fn allocated(&self) -> nat {
        self.bump_index as nat
    }

    /// Length of the free list.
    pub closed spec fn free_list_len(&self) -> nat {
        self.free_list@.len()
    }

    /// Whether the free list holds no handle twice.
    pub closed spec fn free_list_distinct(&self) -> bool {
        self.free_list@.no_duplicates()
    }

    /// Number of branch nodes in the tree.
    pub closed spec fn inner_count(&self) -> nat {
        tree_inners(self.tree@)
    }

    /// The stored leaf count.
    pub closed spec fn leaf_count_spec(&self) -> nat {
        self.leaf_count as nat
    }

    /// Slot `h` holds the leaf of a resting order.
    pub closed spec fn holds_leaf(&self, h: u32) -> bool {
        match self.tree@ {
            None => false,
            Some(t) => {
                &&& h < self.nodes@.len()
                &&& self.nodes@[h as int] is Leaf
                &&& t.map().contains_key(self.nodes@[h as int]->Leaf_0.key)
                &&& t.descend_handle(self.nodes@[h as int]->Leaf_0.key) == h
            },
        }
    }

    /// The key of the leaf in slot `h`.
    pub closed spec fn key_at(&self, h: u32) -> u128 {
        self.nodes@[h as int]->Leaf_0.key
    }

    /// Facts that hold of every well-formed slab.
    pub proof fn lemma_wf(&self)
        requires
            self.wf(),
        ensures
            self@.dom().finite(),
            self@.len() == self.leaf_count_spec(),
            self.leaf_count_spec() + self.inner_count() + self.free_list_len() == self.allocated(),
            self.allocated() <= self.capacity_spec(),
            self.free_slots() + self.allocated() == self.capacity_spec() + self.free_list_len(),
            self.free_list_distinct(),
            forall|k: u128| #[trigger] self@.contains_key(k) ==> self@[k].key == k,
    {
        match self.tree@ {
            None => {},
            Some(t) => {
                lemma_map_len(t);
                assert forall|k: u128| #[trigger] self@.contains_key(k) implies self@[k].key == k by {
                    lemma_descend_slot(self.nodes@, t, k);
                }
            },
        }
    }

    /// Makes an empty slab of `capacity` slots.
    pub fn new(capacity: u32, account_tag: AccountTag) -> (r: Slab)
        requires
            capacity < NIL,
        ensures
            r.wf(),
            r@ == Map::<u128, LeafNode>::empty(),
            r.capacity_spec() == capacity,
            r.free_slots() == capacity,
            r.tag() == account_tag,
    {
        let mut nodes: Vec<Node> = Vec::new();
        let mut i: u32 = 0;
        while i < capacity
            invariant
                i <= capacity,
                nodes@.len() == i,
            decreases capacity - i,
        {
            nodes.push(Node::Free(NIL));
            i = i + 1;
        }
        Slab {
            account_tag,
            nodes,
            root: NIL,
            leaf_count: 0,
            free_list_head: NIL,
            bump_index: 0,
            tree: Ghost(None),
            free_list: Ghost(Seq::empty()),
        }
    }

    /// Number of slots.
    pub fn capacity(&self) -> (r: usize)
        ensures
            r == self.capacity_spec(),
    {
        self.nodes.len()
    }

    /// Number of resting orders.
    pub fn leaf_count(&self) -> (r: u64)
        requires
            self.wf(),
        ensures
            r == self@.len(),
    {
        proof {
            self.lemma_wf();
        }
        self.leaf_count
    }

    /// The handle of the root node, if the tree is not empty.
    pub fn root(&self) -> (r: Option<u32>)
        requires
            self.wf(),
        ensures
            r is None <==> self@.len() == 0,
    {
        proof {
            self.lemma_wf();
            if let Some(t) = self.tree@ {
                lemma_map_len(t);
                lemma_handles_in_range(self.nodes@, t);
                lemma_handle_in(t);
            }
        }
        if self.root == NIL {
            None
        } else {
            Some(self.root)
        }
    }

    /// Hands out a slot: the head of the free list, else the next never-used slot.
    fn alloc_node(&mut self, Ghost(pending): Ghost<Seq<u32>>) -> (r: Option<u32>)
        requires
            old(self).inv(pending),
        ensures
            r is None <==> old(self).free_slots() == 0,
            r is None ==> *final(self) == *old(self),
            r matches Some(h) ==> {
                &&& final(self).inv(pending.push(h))
                &&& final(self).free_slots() + 1 == old(self).free_slots()
                &&& h < old(self).nodes@.len()
                &&& final(self).tree == old(self).tree
                &&& final(self).nodes == old(self).nodes
                &&& final(self).root == old(self).root
                &&& final(self).tag() == old(self).tag()
            },
    {
        if self.free_list_head != NIL {
            let h = self.free_list_head;
            proof {
                let fl = self.free_list@;
                assert(fl[0] < self.bump_index);
            }
            if let Node::Free(next) = self.nodes[h as usize] {
                self.free_list_head = next;
            }
            let ghost fl = self.free_list@;
            self.free_list = Ghost(fl.drop_first());
            proof {
                let grown = pending.push(h);
                let fl2 = self.free_list@;
                assert(fl[0] == h);
                assert forall|i: int| 0 <= i < fl2.len() implies #[trigger] fl2[i] != h by {
                    assert(fl[i + 1] == fl2[i]);
                }
                assert forall|i: int| 0 <= i < fl2.len() implies !grown.contains(#[trigger] fl2[i]) by {
                    assert(fl[i + 1] == fl2[i]);
                    if grown.contains(fl2[i]) {
                        let j = choose|j: int| 0 <= j < grown.len() && grown[j] == fl2[i];
                        if j < pending.len() {
                            assert(pending.contains(fl2[i]));
                        }
                    }
                }
                assert forall|i: int| 0 <= i < fl2.len() implies {
                    &&& #[trigger] fl2[i] < self.bump_index
                    &&& self.nodes@[fl2[i] as int] == Node::Free(
                        if i + 1 < fl2.len() {
                            fl2[i + 1]
                        } else {
                            NIL
                        },
                    )
                    &&& !tree_handles(self.tree@).contains(fl2[i])
                } by {
                    assert(fl[i + 1] == fl2[i]);
                }
                assert(!pending.contains(h));
                assert forall|i: int| 0 <= i < grown.len() implies #[trigger] grown[i] < self.bump_index
                    && !tree_handles(self.tree@).contains(grown[i]) by {
                    if i < pending.len() {
                        assert(grown[i] == pending[i]);
                    }
                }
                assert(fl2.no_duplicates());
                assert(grown.no_duplicates());
            }
            Some(h)
        } else if (self.bump_index as usize) < self.nodes.len() {
            let h = self.bump_index;
            self.bump_index = self.bump_index + 1;
            proof {
                let grown = pending.push(h);
                let fl = self.free_list@;
                assert(fl.len() == 0);
                assert forall|i: int| 0 <= i < grown.len() implies #[trigger] grown[i] < self.bump_index
                    && !tree_handles(self.tree@).contains(grown[i]) by {
                    if i < pending.len() {
                        assert(grown[i] == pending[i]);
                    }
                }
                assert(!pending.contains(h));
                assert(grown.no_duplicates());
            }
            Some(h)
        } else {
            None
        }
    }

    /// Puts the most recently handed-out slot back on the free list.
    fn free_node(&mut self, h: u32, Ghost(pending): Ghost<Seq<u32>>)
        requires
            old(self).inv(pending),
            pending.len() > 0,
            pending.last() == h,
        ensures
            final(self).inv(pending.drop_last()),
            final(self).free_slots() == old(self).free_slots() + 1,
            final(self).tree == old(self).tree,
            final(self).root == old(self).root,
            final(self).tag() == old(self).tag(),
            final(self).nodes@.len() == old(self).nodes@.len(),
            forall|i: int| 0 <= i < old(self).nodes@.len() && i != h ==> #[trigger] final(self).nodes@[i] == old(self).nodes@[i],
    {
        let ghost fl = self.free_list@;
        let ghost th = tree_handles(self.tree@);
        proof {
            assert(pending[pending.len() - 1] == h);
            if let Some(t) = self.tree@ {
                lemma_handles_in_range(self.nodes@, t);
            }
        }
        let ghost before = self.nodes@;
        self.nodes.set(h as usize, Node::Free(self.free_list_head));
        self.free_list_head = h;
        self.free_list = Ghost(seq![h].add(fl));
        proof {
            let fl2 = self.free_list@;
            let grown = pending.drop_last();
            assert forall|i: int| 0 <= i < fl.len() implies #[trigger] fl[i] != h by {}
            assert forall|i: int| 0 <= i < fl2.len() implies {
                &&& #[trigger] fl2[i] < self.bump_index
                &&& self.nodes@[fl2[i] as int] == Node::Free(
                    if i + 1 < fl2.len() {
                        fl2[i + 1]
                    } else {
                        NIL
                    },
                )
                &&& !th.contains(fl2[i])
                &&& !grown.contains(fl2[i])
            } by {
                if i > 0 {
                    assert(fl2[i] == fl[i - 1]);
                    if grown.contains(fl2[i]) {
                        let j = choose|j: int| 0 <= j < grown.len() && grown[j] == fl2[i];
                        assert(pending[j] == fl2[i]);
                    }
                } else {
                    if grown.contains(h) {
                        let j = choose|j: int| 0 <= j < grown.len() && grown[j] == h;
                        assert(pending[j] == h);
                    }
                }
            }
            assert(fl2.no_duplicates());
            assert forall|i: int| 0 <= i < grown.len() implies #[trigger] grown[i] < self.bump_index
                && !th.contains(grown[i]) by {
                assert(grown[i] == pending[i]);
            }
            assert(grown.no_duplicates());
            if let Some(t) = self.tree@ {
                assert forall|i: u32| #[trigger] t.handles().contains(i) implies self.nodes@[i as int]
                    == before[i as int] by {}
                lemma_matches_frame(before, self.nodes@, t);
            }
        }
    }
}


impl Slab {
    /// Finds the slot of the leaf with key `key`.
    pub fn find_by_key(&self, key: u128) -> (r: Option<u32>)
        requires
            self.wf(),
        ensures
            r is Some <==> self@.contains_key(key),
            r matches Some(h) ==> self.holds_leaf(h) && self.key_at(h) == key,
    {
        if self.root == NIL {
            return None;
        }
        let ghost t = self.tree@->Some_0;
        let h = descend_slot(&self.nodes, self.root, Ghost(t), key);
        proof {
            lemma_descend(t, key);
        }
        if let Node::Leaf(l) = self.nodes[h as usize] {
            if l.key == key {
                return Some(h);
            }
        }
        None
    }

    /// Finds the slot of the leaf with the largest key.
    pub fn find_max(&self) -> (r: Option<u32>)
        requires
            self.wf(),
        ensures
            r is None <==> self@.len() == 0,
            r matches Some(h) ==> self.holds_leaf(h) && self@.contains_key(self.key_at(h)) && forall|k: u128|
                #[trigger] self@.contains_key(k) ==> k <= self.key_at(h),
    {
        proof {
            self.lemma_wf();
        }
        if self.root == NIL {
            return None;
        }
        let ghost t = self.tree@->Some_0;
        proof {
            lemma_map_len(t);
        }
        let mut h = self.root;
        let ghost mut cur = t;
        loop
            invariant
                self.wf(),
                self.tree@ == Some(t),
                self@.len() >= 1,
                cur.wf(),
                matches(self.nodes@, cur),
                cur.handle() == h,
                forall|k: u128| #[trigger]
                    cur.map().contains_key(k) ==> t.map().contains_key(k) && t.descend_handle(k)
                        == cur.descend_handle(k),
                forall|k1: u128, k2: u128|
                    #[trigger] t.map().contains_key(k1) && !cur.map().contains_key(k1) && #[trigger] cur.map().contains_key(k2)
                        ==> k1 < k2,
            decreases cur.inners(),
        {
            proof {
                lemma_handles_in_range(self.nodes@, cur);
            }
            match self.nodes[h as usize] {
                Node::Inner(inner) => {
                    proof {
                        let left = *cur->left;
                        let right = *cur->right;
                        lemma_inner_facts(cur);
                        assert forall|k1: u128, k2: u128|
                            #[trigger] t.map().contains_key(k1) && !right.map().contains_key(k1)
                                && #[trigger] right.map().contains_key(k2) implies k1 < k2 by {
                            assert(cur.map().contains_key(k2));
                            if left.map().contains_key(k1) {
                                lemma_sides_ordered(cur, k1, k2);
                            } else {
                                assert(!cur.map().contains_key(k1));
                            }
                        }
                        assert forall|k: u128| #[trigger] right.map().contains_key(k) implies t.map().contains_key(k)
                            && t.descend_handle(k) == right.descend_handle(k) by {
                            assert(cur.map().contains_key(k));
                        }
                        cur = right;
                    }
                    h = inner.children[1];
                },
                _ => {
                    proof {
                        let leaf = cur->leaf;
                        assert(cur.map().contains_key(leaf.key));
                        assert forall|k: u128| #[trigger] self@.contains_key(k) implies k <= self.key_at(h) by {
                            if k != leaf.key {
                                assert(!cur.map().contains_key(k));
                            }
                        }
                    }
                    return Some(h);
                },
            }
        }
    }

    /// Finds the slot of the leaf with the smallest key.
    pub fn find_min(&self) -> (r: Option<u32>)
        requires
            self.wf(),
        ensures
            r is None <==> self@.len() == 0,
            r matches Some(h) ==> self.holds_leaf(h) && self@.contains_key(self.key_at(h)) && forall|k: u128|
                #[trigger] self@.contains_key(k) ==> self.key_at(h) <= k,
    {
        proof {
            self.lemma_wf();
        }
        if self.root == NIL {
            return None;
        }
        let ghost t = self.tree@->Some_0;
        proof {
            lemma_map_len(t);
        }
        let mut h = self.root;
        let ghost mut cur = t;
        loop
            invariant
                self.wf(),
                self.tree@ == Some(t),
                self@.len() >= 1,
                cur.wf(),
                matches(self.nodes@, cur),
                cur.handle() == h,
                forall|k: u128| #[trigger]
                    cur.map().contains_key(k) ==> t.map().contains_key(k) && t.descend_handle(k)
                        == cur.descend_handle(k),
                forall|k1: u128, k2: u128|
                    #[trigger] t.map().contains_key(k1) && !cur.map().contains_key(k1) && #[trigger] cur.map().contains_key(k2)
                        ==> k2 < k1,
            decreases cur.inners(),
        {
            proof {
                lemma_handles_in_range(self.nodes@, cur);
            }
            match self.nodes[h as usize] {
                Node::Inner(inner) => {
                    proof {
                        let left = *cur->left;
                        let right = *cur->right;
                        lemma_inner_facts(cur);
                        assert forall|k1: u128, k2: u128|
                            #[trigger] t.map().contains_key(k1) && !left.map().contains_key(k1)
                                && #[trigger] left.map().contains_key(k2) implies k2 < k1 by {
                            assert(cur.map().contains_key(k2));
                            if right.map().contains_key(k1) {
                                lemma_sides_ordered(cur, k2, k1);
                            } else {
                                assert(!cur.map().contains_key(k1));
                            }
                        }
                        assert forall|k: u128| #[trigger] left.map().contains_key(k) implies t.map().contains_key(k)
                            && t.descend_handle(k) == left.descend_handle(k) by {
                            assert(cur.map().contains_key(k));
                        }
                        cur = left;
                    }
                    h = inner.children[0];
                },
                _ => {
                    proof {
                        let leaf = cur->leaf;
                        assert(cur.map().contains_key(leaf.key));
                        assert forall|k: u128| #[trigger] self@.contains_key(k) implies self.key_at(h) <= k by {
                            if k != leaf.key {
                                assert(!cur.map().contains_key(k));
                            }
                        }
                    }
                    return Some(h);
                },
            }
        }
    }

    /// Reads the leaf in slot `h`.
    pub fn get_leaf(&self, h: u32) -> (r: LeafNode)
        requires
            self.wf(),
            self.holds_leaf(h),
        ensures
            r.key == self.key_at(h),
            self@.contains_key(r.key),
            r == self@[r.key],
    {
        proof {
            lemma_descend_slot(self.nodes@, self.tree@->Some_0, self.key_at(h));
        }
        match self.nodes[h as usize] {
            Node::Leaf(l) => l,
            _ => {
                proof {
                    assert(false);
                }
                LeafNode { key: 0, callback_info: [0u8; 32], base_quantity: 0 }
            },
        }
    }
}

impl Slab {
    /// Overwrites the leaf in slot `h` with `leaf`, which keeps its key.
    pub fn write_leaf(&mut self, h: u32, leaf: LeafNode)
        requires
            old(self).wf(),
            old(self).holds_leaf(h),
            leaf.key == old(self).key_at(h),
        ensures
            final(self).wf(),
            final(self)@ == old(self)@.insert(leaf.key, leaf),
            final(self).holds_leaf(h),
            final(self).key_at(h) == leaf.key,
            final(self).free_slots() == old(self).free_slots(),
            final(self).capacity_spec() == old(self).capacity_spec(),
            final(self).tag() == old(self).tag(),
    {
        let ghost t = self.tree@->Some_0;
        let ghost before = self.nodes@;
        proof {
            lemma_set_leaf(before, t, leaf);
            lemma_descend(t, leaf.key);
            lemma_handles_in_range(before, t);
        }
        self.nodes.set(h as usize, Node::Leaf(leaf));
        self.tree = Ghost(Some(t.set_leaf(leaf)));
        proof {
            assert(self.nodes@ == before.update(h as int, Node::Leaf(leaf)));
            let fl = self.free_list@;
            let t2 = t.set_leaf(leaf);
            assert forall|i: int| 0 <= i < fl.len() implies #[trigger] self.nodes@[fl[i] as int]
                == before[fl[i] as int] && !tree_handles(self.tree@).contains(fl[i]) && !Seq::<u32>::empty().contains(fl[i]) by {
                assert(!t.handles().contains(fl[i]));
            }
            Slab::lemma_free_list_kept(old(self), self, seq![], seq![]);
            assert(t2.map().contains_key(leaf.key));
            assert forall|hh: u32| #[trigger] t2.handles().contains(hh) implies hh < self.bump_index by {
                assert(tree_handles(old(self).tree@).contains(hh));
            }
            assert(self.inv(seq![]));
        }
    }

    /// Inserts a new leaf. Needs one free slot when the tree is empty, two
    /// otherwise; fails with `SlabOutOfSpace` and changes nothing else when
    /// they are not there.
    pub fn insert_leaf(&mut self, leaf: LeafNode) -> (r: Result<(), ErrorCode>)
        requires
            old(self).wf(),
            !old(self)@.contains_key(leaf.key),
        ensures
            final(self).wf(),
            r is Ok <==> old(self).free_slots() >= (if old(self)@.len() == 0 { 1nat } else { 2nat }),
            r is Ok ==> final(self)@ == old(self)@.insert(leaf.key, leaf)
                && final(self).free_slots() + (if old(self)@.len() == 0 { 1nat } else { 2nat })
                == old(self).free_slots(),
            r is Err ==> r == Err::<(), ErrorCode>(ErrorCode::SlabOutOfSpace) && final(self)@
                == old(self)@ && final(self).free_slots() == old(self).free_slots(),
            final(self).capacity_spec() == old(self).capacity_spec(),
            final(self).tag() == old(self).tag(),
    {
        proof {
            self.lemma_wf();
            if let Some(t) = self.tree@ {
                lemma_map_len(t);
            }
        }
        let ghost empty_seq: Seq<u32> = Seq::empty();
        if self.root == NIL {
            let hl = match self.alloc_node(Ghost(empty_seq)) {
                Some(h) => h,
                None => {
                    return Err(ErrorCode::SlabOutOfSpace);
                },
            };
            let ghost before = self.nodes@;
            self.nodes.set(hl as usize, Node::Leaf(leaf));
            self.root = hl;
            self.tree = Ghost(Some(Tree::Leaf { h: hl, leaf }));
            self.leaf_count = self.leaf_count + 1;
            proof {
                let one_out = empty_seq.push(hl);
                assert(one_out[0] == hl);
                let fl = self.free_list@;
                assert forall|i: int| 0 <= i < fl.len() implies #[trigger] self.nodes@[fl[i] as int]
                    == before[fl[i] as int] by {
                    assert(fl[i] != hl) by {
                        assert(!one_out.contains(fl[i]));
                    }
                }
                assert(Tree::Leaf { h: hl, leaf }.handles() =~= set![hl]);
                assert(Tree::Leaf { h: hl, leaf }.map() =~= Map::<u128, LeafNode>::empty().insert(leaf.key, leaf));
                assert(self.inv(seq![]));
            }
            return Ok(());
        }
        let ghost t = self.tree@->Some_0;
        let f = descend_slot(&self.nodes, self.root, Ghost(t), leaf.key);
        let fkey = match self.nodes[f as usize] {
            Node::Leaf(l) => l.key,
            _ => 0,
        };
        proof {
            lemma_descend(t, leaf.key);
        }
        let d = crit_bit(leaf.key, fkey);
        let hl = match self.alloc_node(Ghost(empty_seq)) {
            Some(h) => h,
            None => {
                return Err(ErrorCode::SlabOutOfSpace);
            },
        };
        let ghost one_out = empty_seq.push(hl);
        let hi = match self.alloc_node(Ghost(one_out)) {
            Some(h) => h,
            None => {
                self.free_node(hl, Ghost(one_out));
                proof {
                    assert(one_out.drop_last() =~= empty_seq);
                }
                return Err(ErrorCode::SlabOutOfSpace);
            },
        };
        let ghost grown = one_out.push(hi);
        proof {
            assert(grown[0] == hl && grown[1] == hi);
            assert(grown.contains(hl));
            assert(grown.contains(hi));
            lemma_handles_in_range(self.nodes@, t);
        }
        let ghost before = self.nodes@;
        self.nodes.set(hl as usize, Node::Leaf(leaf));
        proof {
            assert forall|i: u32| #[trigger] t.handles().contains(i) implies self.nodes@[i as int]
                == before[i as int] by {}
            lemma_matches_frame(before, self.nodes@, t);
        }
        let ghost mid = self.nodes@;
        let new_root = insert_below(&mut self.nodes, self.root, Ghost(t), leaf, d, hl, hi);
        self.root = new_root;
        self.tree = Ghost(Some(t.insert(leaf, d, hl, hi)));
        self.leaf_count = self.leaf_count + 1;
        proof {
            let fl = self.free_list@;
            assert forall|i: int| 0 <= i < fl.len() implies #[trigger] self.nodes@[fl[i] as int]
                == before[fl[i] as int] by {
                assert(!grown.contains(fl[i]));
                assert(fl[i] != hl && fl[i] != hi);
                assert(!t.handles().contains(fl[i]));
            }
            let t2 = t.insert(leaf, d, hl, hi);
            assert forall|hh: u32| #[trigger] t2.handles().contains(hh) implies hh < self.bump_index by {
                if hh != hl && hh != hi {
                    assert(t.handles().contains(hh));
                }
            }
            assert forall|i: int| 0 <= i < fl.len() implies !t2.handles().contains(#[trigger] fl[i]) by {
                assert(!grown.contains(fl[i]));
            }
            assert(self.inv(seq![]));
        }
        Ok(())
    }

    /// Removes the leaf with key `key`, if there is one, and returns it.
    #[verifier::rlimit(50)]
    pub fn remove_by_key(&mut self, key: u128) -> (r: Option<LeafNode>)
        requires
            old(self).wf(),
        ensures
            final(self).wf(),
            r is Some <==> old(self)@.contains_key(key),
            r matches Some(l) ==> l == old(self)@[key] && final(self)@ == old(self)@.remove(key)
                && final(self).free_slots() == old(self).free_slots() + (if old(self)@.len() == 1 {
                1nat
            } else {
                2nat
            }),
            r is None ==> *final(self) == *old(self),
            final(self).capacity_spec() == old(self).capacity_spec(),
            final(self).tag() == old(self).tag(),
    {
        let found = self.find_by_key(key);
        let lh0 = match found {
            Some(h) => h,
            None => {
                return None;
            },
        };
        let leaf = self.get_leaf(lh0);
        let ghost t = self.tree@->Some_0;
        proof {
            self.lemma_wf();
            lemma_map_len(t);
            lemma_handles_in_range(self.nodes@, t);
        }
        let ghost before = self.nodes@;
        let (nc, lh, ph) = remove_below(&mut self.nodes, self.root, Ghost(t), key);
        let ghost empty_seq: Seq<u32> = Seq::empty();
        if nc == NIL {
            self.root = NIL;
            self.tree = Ghost(None);
            self.leaf_count = 0;
            proof {
                let one_out = empty_seq.push(lh);
                let fl = self.free_list@;
                assert(one_out[0] == lh);
                assert forall|i: int| 0 <= i < fl.len() implies #[trigger] self.nodes@[fl[i] as int]
                    == before[fl[i] as int] && !tree_handles(self.tree@).contains(fl[i]) && !one_out.contains(fl[i]) by {
                    assert(!tree_handles(old(self).tree@).contains(fl[i]));
                }
                Slab::lemma_free_list_kept(old(self), self, seq![], one_out);
                assert(tree_handles(old(self).tree@).contains(lh));
                assert(self.inv(one_out));
            }
            self.free_node(lh, Ghost(empty_seq.push(lh)));
            proof {
                assert(empty_seq.push(lh).drop_last() =~= empty_seq);
                assert(old(self)@.remove(key) =~= Map::<u128, LeafNode>::empty());
                assert(old(self)@.len() == 1);
            }
        } else {
            let ghost t2 = t.remove(key)->Some_0;
            self.root = nc;
            self.tree = Ghost(Some(t2));
            self.leaf_count = self.leaf_count - 1;
            let ghost grown = empty_seq.push(lh).push(ph);
            proof {
                let fl = self.free_list@;
                assert(grown[0] == lh && grown[1] == ph);
                assert forall|i: int| 0 <= i < fl.len() implies #[trigger] self.nodes@[fl[i] as int]
                    == before[fl[i] as int] && !tree_handles(self.tree@).contains(fl[i]) && !grown.contains(fl[i]) by {
                    assert(!tree_handles(old(self).tree@).contains(fl[i]));
                }
                Slab::lemma_free_list_kept(old(self), self, seq![], grown);
                assert forall|hh: u32| #[trigger] t2.handles().contains(hh) implies hh < self.bump_index by {
                    assert(tree_handles(old(self).tree@).contains(hh));
                }
                assert(tree_handles(old(self).tree@).contains(lh));
                assert(tree_handles(old(self).tree@).contains(ph));
                assert(self.inv(grown));
            }
            self.free_node(ph, Ghost(grown));
            proof {
                assert(grown.drop_last() =~= empty_seq.push(lh));
            }
            self.free_node(lh, Ghost(empty_seq.push(lh)));
            proof {
                assert(empty_seq.push(lh).drop_last() =~= empty_seq);
                lemma_map_len(t.remove(key)->Some_0);
                assert(t.leaves() >= 2);
            }
        }
        Some(leaf)
    }

    /// Removes the leaf with the smallest key and returns it.
    pub fn remove_min(&mut self) -> (r: Option<LeafNode>)
        requires
            old(self).wf(),
        ensures
            final(self).wf(),
            r is None <==> old(self)@.len() == 0,
            r is None ==> final(self)@ == old(self)@ && final(self).free_slots() == old(self).free_slots(),
            r matches Some(l) ==> {
                &&& old(self)@.contains_key(l.key)
                &&& l == old(self)@[l.key]
                &&& forall|k: u128| #[trigger] old(self)@.contains_key(k) ==> l.key <= k
                &&& final(self)@ == old(self)@.remove(l.key)
                &&& final(self).free_slots() == old(self).free_slots() + (if old(self)@.len() == 1 {
                    1nat
                } else {
                    2nat
                })
            },
            final(self).capacity_spec() == old(self).capacity_spec(),
            final(self).tag() == old(self).tag(),
    {
        match self.find_min() {
            None => None,
            Some(h) => {
                let l = self.get_leaf(h);
                self.remove_by_key(l.key)
            },
        }
    }

    /// Removes the leaf with the largest key and returns it.
    pub fn remove_max(&mut self) -> (r: Option<LeafNode>)
        requires
            old(self).wf(),
        ensures
            final(self).wf(),
            r is None <==> old(self)@.len() == 0,
            r is None ==> final(self)@ == old(self)@ && final(self).free_slots() == old(self).free_slots(),
            r matches Some(l) ==> {
                &&& old(self)@.contains_key(l.key)
                &&& l == old(self)@[l.key]
                &&& forall|k: u128| #[trigger] old(self)@.contains_key(k) ==> k <= l.key
                &&& final(self)@ == old(self)@.remove(l.key)
                &&& final(self).free_slots() == old(self).free_slots() + (if old(self)@.len() == 1 {
                    1nat
                } else {
                    2nat
                })
            },
            final(self).capacity_spec() == old(self).capacity_spec(),
            final(self).tag() == old(self).tag(),
    {
        match self.find_max() {
            None => None,
            Some(h) => {
                let l = self.get_leaf(h);
                self.remove_by_key(l.key)
            },
        }
    }
}

impl Slab {
    /// `self` and `other` hold the same slots, tree and allocator state.
    pub closed spec fn same(&self, other: &Slab) -> bool {
        &&& self.account_tag == other.account_tag
        &&& self.nodes@ == other.nodes@
        &&& self.root == other.root
        &&& self.leaf_count == other.leaf_count
        &&& self.free_list_head == other.free_list_head
        &&& self.bump_index == other.bump_index
        &&& self.tree == other.tree
        &&& self.free_list == other.free_list
    }

    /// Slabs holding the same state look the same through every accessor.
    pub proof fn lemma_same(&self, other: &Slab)
        requires
            self.same(other),
        ensures
            self.wf() == other.wf(),
            self@ == other@,
            self.tag() == other.tag(),
            self.capacity_spec() == other.capacity_spec(),
            self.free_slots() == other.free_slots(),
            self.allocated() == other.allocated(),
            self.free_list_len() == other.free_list_len(),
            self.inner_count() == other.inner_count(),
            self.leaf_count_spec() == other.leaf_count_spec(),
            forall|h: u32| self.holds_leaf(h) == other.holds_leaf(h) && self.key_at(h) == other.key_at(h),
    {
    }

    pub proof fn lemma_same_refl(&self)
        ensures
            self.same(self),
    {
    }

    /// A slot-for-slot copy.
    pub fn duplicate(&self) -> (r: Slab)
        ensures
            r.same(self),
    {
        let mut nodes: Vec<Node> = Vec::new();
        let mut i: usize = 0;
        while i < self.nodes.len()
            invariant
                i <= self.nodes@.len(),
                nodes@ == self.nodes@.subrange(0, i as int),
            decreases self.nodes@.len() - i,
        {
            nodes.push(self.nodes[i]);
            i = i + 1;
        }
        assert(nodes@ =~= self.nodes@);
        Slab {
            account_tag: self.account_tag,
            nodes,
            root: self.root,
            leaf_count: self.leaf_count,
            free_list_head: self.free_list_head,
            bump_index: self.bump_index,
            tree: self.tree,
            free_list: self.free_list,
        }
    }
}

/// Allocator soundness: after any sequence of insertions and removals, the
/// leaf count is the slots handed out minus those on the free list minus the
/// branch nodes, and no handle is on the free list twice.
pub proof fn lemma_allocator_soundness(slab: &Slab)
    requires
        slab.wf(),
    ensures
        slab.leaf_count_spec() == slab.allocated() - slab.free_list_len() - slab.inner_count(),
        slab.free_list_distinct(),
        slab@.len() == slab.leaf_count_spec(),
{
    slab.lemma_wf();
}

} // verus!
