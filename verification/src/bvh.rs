//! Dynamic AABB tree — the engine's broadphase.
//!
//! Every entry ("proxy") is a leaf holding a box, a category bitmask and an
//! entity. Internal nodes hold the union of their two children's boxes and
//! the OR of their bits, so a query descends only into subtrees whose box
//! and bits match.
//!
//! Nodes live in one flat array; parent and child links are indices, and
//! removed nodes go on a free list threaded through the same array by the
//! `parent` field.
//!
//! Stored boxes are fat: callers inflate the box they pass by a margin, and
//! while an entry's tight box stays inside its fat one `update` is a no-op.
//!
//! The tree may over-report — fat boxes, box against shape — and callers
//! re-run their exact test on candidates. It never under-reports.

use vstd::prelude::*;

use crate::aabb::{
    enclosed_overlaps_less, encloses, joined, least, num_min, numeric, overlapping,
    union_encloses_both, union_keeps_overlaps, Aabb,
};
use crate::id::Id;
use crate::order::{le_num, lt_num, nan, num_le, num_lt};

verus! {

/// The index that is no node.
pub const NULL: u32 = 0xffff_ffff;

#[derive(Clone, Copy)]
struct Node {
    /// Leaf: the fat box. Internal: union of children.
    aabb: Aabb,
    /// Leaf: category bits. Internal: OR of children.
    bits: u64,
    /// Leaf payload; unused on internal nodes.
    id: Id,
    /// Parent index; doubles as free-list next while the node is free.
    parent: u32,
    child1: u32,
    child2: u32,
    /// Leaves are 0, internals 1 + max of children; -1 marks a free node.
    height: i32,
}

/// One entry as contracts see it.
pub ghost struct Proxy {
    pub fat: Aabb,
    pub bits: u64,
    pub id: Id,
}

/// The node array with its bookkeeping: which indices are linked into the
/// tree, and a rank that falls from parent to child.
ghost struct Lay {
    nodes: Seq<Node>,
    root: u32,
    live: Set<u32>,
    rank: spec_fn(u32) -> nat,
}

spec fn taller(a: i32, b: i32) -> i32 {
    if a >= b {
        a
    } else {
        b
    }
}

impl Lay {
    spec fn at(self, i: u32) -> Node {
        self.nodes[i as int]
    }

    spec fn leaf(self, i: u32) -> bool {
        self.at(i).child1 == NULL
    }

    spec fn r(self, i: u32) -> nat {
        (self.rank)(i)
    }

    /// The links of one node agree with those of its neighbours.
    spec fn node_ok(self, i: u32) -> bool {
        let n = self.at(i);
        &&& i < self.nodes.len()
        &&& n.height >= 0
        &&& self.leaf(i) ==> n.child2 == NULL && n.height == 0
        &&& !self.leaf(i) ==> {
            &&& n.height >= 1
            &&& n.child1 != n.child2
            &&& self.live.contains(n.child1) && self.live.contains(n.child2)
            &&& self.at(n.child1).parent == i && self.at(n.child2).parent == i
            &&& self.r(n.child1) < self.r(i) && self.r(n.child2) < self.r(i)
        }
        &&& i == self.root ==> n.parent == NULL
        &&& i != self.root ==> {
            &&& self.live.contains(n.parent)
            &&& !self.leaf(n.parent)
            &&& self.at(n.parent).child1 == i || self.at(n.parent).child2 == i
            &&& self.r(i) < self.r(n.parent)
        }
    }

    /// All links agree.
    spec fn links(self) -> bool {
        &&& self.nodes.len() <= NULL
        &&& forall|i: u32| self.live.contains(i) ==> #[trigger] self.node_ok(i)
        &&& self.root == NULL <==> self.live =~= Set::empty()
        &&& self.root != NULL ==> self.live.contains(self.root)
    }

    /// The box, bits and height of an internal node are those of its
    /// children.
    spec fn fits(self, i: u32) -> bool {
        let n = self.at(i);
        let a = self.at(n.child1);
        let b = self.at(n.child2);
        !self.leaf(i) ==> {
            &&& n.height == 1 + taller(a.height, b.height)
            &&& n.aabb == joined(a.aabb, b.aabb)
            &&& n.bits == a.bits | b.bits
        }
    }

    /// Every linked node fits, save for those in `gaps`.
    spec fn fitted(self, gaps: Set<u32>) -> bool {
        forall|i: u32| self.live.contains(i) && !gaps.contains(i) ==> #[trigger] self.fits(i)
    }

    /// The entries.
    spec fn proxies(self) -> Map<u32, Proxy> {
        Map::new(
            |i: u32| self.live.contains(i) && self.leaf(i),
            |i: u32| Proxy { fat: self.at(i).aabb, bits: self.at(i).bits, id: self.at(i).id },
        )
    }

    /// Whether both children rank below this node.
    spec fn descends(self, x: u32) -> bool {
        &&& !self.leaf(x)
        &&& self.r(self.at(x).child1) < self.r(x)
        &&& self.r(self.at(x).child2) < self.r(x)
    }

    /// The nodes of a subtree.
    spec fn below(self, x: u32) -> Set<int>
        decreases self.r(x),
    {
        if self.descends(x) {
            self.below(self.at(x).child1).union(self.below(self.at(x).child2)).insert(x as int)
        } else {
            set![x as int]
        }
    }

    /// How many nodes a subtree has.
    spec fn size(self, x: u32) -> nat
        decreases self.r(x),
    {
        if self.descends(x) {
            1 + self.size(self.at(x).child1) + self.size(self.at(x).child2)
        } else {
            1
        }
    }

    /// The leaves of a subtree that a masked search reaches, in visiting
    /// order: a subtree is entered when its bits meet the mask and its box
    /// passes the test, second child first.
    spec fn found(self, x: u32, test: spec_fn(Aabb) -> bool, mask: u64) -> Seq<u32>
        decreases self.r(x),
    {
        if self.at(x).bits & mask == 0 || !test(self.at(x).aabb) {
            Seq::empty()
        } else if self.descends(x) {
            self.found(self.at(x).child2, test, mask) + self.found(self.at(x).child1, test, mask)
        } else {
            seq![x]
        }
    }

    /// What a search still has to report, given its stack.
    spec fn pending(self, stack: Seq<u32>, test: spec_fn(Aabb) -> bool, mask: u64) -> Seq<u32>
        decreases stack.len(),
    {
        if stack.len() == 0 {
            Seq::empty()
        } else {
            self.found(stack.last(), test, mask) + self.pending(stack.drop_last(), test, mask)
        }
    }

    /// Every node of a subtree in visiting order.
    spec fn listing(self, x: u32) -> Seq<u32>
        decreases self.r(x),
    {
        if self.descends(x) {
            seq![x] + (self.listing(self.at(x).child2) + self.listing(self.at(x).child1))
        } else {
            seq![x]
        }
    }

    /// What a full visit still has to list, given its stack.
    spec fn unlisted(self, stack: Seq<u32>) -> Seq<u32>
        decreases stack.len(),
    {
        if stack.len() == 0 {
            Seq::empty()
        } else {
            self.listing(stack.last()) + self.unlisted(stack.drop_last())
        }
    }

    /// How many nodes a search may still visit.
    spec fn weight(self, stack: Seq<u32>) -> nat
        decreases stack.len(),
    {
        if stack.len() == 0 {
            0
        } else {
            self.size(stack.last()) + self.weight(stack.drop_last())
        }
    }
}

// --- the shape of the tree --------------------------------------------------

/// A subtree holds its own root, only linked nodes, and none ranked above
/// its root.
proof fn below_basics(l: Lay, x: u32)
    requires
        l.links(),
        l.live.contains(x),
    ensures
        l.below(x).contains(x as int),
        l.below(x).finite(),
        forall|y: int| #[trigger]
            l.below(x).contains(y) ==> 0 <= y < l.nodes.len() && l.live.contains(y as u32) && l.r(
                y as u32,
            ) <= l.r(x),
    decreases l.r(x),
{
    assert(l.node_ok(x));
    if !l.leaf(x) {
        below_basics(l, l.at(x).child1);
        below_basics(l, l.at(x).child2);
    }
}

/// Whatever lies in a subtree is its root or hangs from the subtree.
proof fn below_hangs(l: Lay, x: u32, y: u32)
    requires
        l.links(),
        l.live.contains(x),
        l.below(x).contains(y as int),
        y != x,
    ensures
        y != l.root,
        l.below(x).contains(l.at(y).parent as int),
    decreases l.r(x),
{
    assert(l.node_ok(x));
    let a = l.at(x).child1;
    let b = l.at(x).child2;
    assert(!l.leaf(x));
    assert(l.node_ok(a));
    assert(l.node_ok(b));
    below_basics(l, x);
    below_basics(l, a);
    below_basics(l, b);
    if l.below(a).contains(y as int) {
        if y != a {
            below_hangs(l, a, y);
        } else if y == l.root {
            assert(l.at(a).parent == x);
        }
    } else {
        if y != b {
            below_hangs(l, b, y);
        } else if y == l.root {
            assert(l.at(b).parent == x);
        }
    }
}

/// The subtrees of two siblings share no node.
proof fn siblings_apart(l: Lay, x: u32, y: u32)
    requires
        l.links(),
        l.live.contains(x),
        !l.leaf(x),
    ensures
        !(l.below(l.at(x).child1).contains(y as int) && l.below(l.at(x).child2).contains(y as int)),
    decreases l.r(x) - l.r(y),
{
    assert(l.node_ok(x));
    let a = l.at(x).child1;
    let b = l.at(x).child2;
    below_basics(l, a);
    below_basics(l, b);
    if l.below(a).contains(y as int) && l.below(b).contains(y as int) {
        if y == a {
            below_hangs(l, b, y);
            assert(l.below(b).contains(x as int));
        } else if y == b {
            below_hangs(l, a, y);
            assert(l.below(a).contains(x as int));
        } else {
            below_hangs(l, a, y);
            below_hangs(l, b, y);
            assert(l.node_ok(y));
            siblings_apart(l, x, l.at(y).parent);
        }
    }
}

/// A subtree of height `h` has at least `2h + 1` nodes.
proof fn tall_needs_nodes(l: Lay, x: u32, gaps: Set<u32>)
    requires
        l.links(),
        l.fitted(gaps),
        l.live.contains(x),
        forall|y: u32| #[trigger] gaps.contains(y) && l.live.contains(y) ==> l.r(y) > l.r(x),
    ensures
        l.below(x).len() >= 2 * l.at(x).height + 1,
        l.below(x).len() <= l.nodes.len(),
    decreases l.r(x), 1nat,
{
    assert(l.node_ok(x));
    below_basics(l, x);
    assert(l.below(x).subset_of(vstd::set_lib::set_int_range(0, l.nodes.len() as int)));
    vstd::set_lib::lemma_int_range(0, l.nodes.len() as int);
    vstd::set_lib::lemma_len_subset(
        l.below(x),
        vstd::set_lib::set_int_range(0, l.nodes.len() as int),
    );
    if !l.leaf(x) {
        assert(l.fits(x));
        children_count(l, x, gaps);
    } else {
        assert(l.below(x) =~= set![x as int]);
    }
}

/// An unlinked index leaves a subtree that much less to be tall with.
proof fn tall_needs_more(l: Lay, x: u32, y: u32)
    requires
        l.links(),
        l.fitted(Set::empty()),
        l.live.contains(x),
        !l.live.contains(y),
        y < l.nodes.len(),
    ensures
        2 * l.at(x).height + 2 <= l.nodes.len(),
{
    below_basics(l, x);
    tall_needs_nodes(l, x, Set::empty());
    let all = vstd::set_lib::set_int_range(0, l.nodes.len() as int);
    vstd::set_lib::lemma_int_range(0, l.nodes.len() as int);
    vstd::set_lib::lemma_len_subset(l.below(x).insert(y as int), all);
}

/// The subtree of a node counts itself and both of its disjoint children.
proof fn children_count(l: Lay, x: u32, gaps: Set<u32>)
    requires
        l.links(),
        l.fitted(gaps),
        l.live.contains(x),
        !l.leaf(x),
        forall|y: u32| #[trigger] gaps.contains(y) && l.live.contains(y) ==> y == x || l.r(y) > l.r(x),
    ensures
        l.below(x).len() == 1 + l.below(l.at(x).child1).len() + l.below(l.at(x).child2).len(),
        l.below(x).len() >= 2 * (1 + taller(
            l.at(l.at(x).child1).height,
            l.at(l.at(x).child2).height,
        )) + 1,
        l.below(x).len() <= l.nodes.len(),
    decreases l.r(x), 0nat,
{
    assert(l.node_ok(x));
    let a = l.at(x).child1;
    let b = l.at(x).child2;
    tall_needs_nodes(l, a, gaps);
    tall_needs_nodes(l, b, gaps);
    below_basics(l, x);
    below_basics(l, a);
    below_basics(l, b);
    let sa = l.below(a);
    let sb = l.below(b);
    assert forall|y: int| !(sa.contains(y) && sb.contains(y)) by {
        if sa.contains(y) && sb.contains(y) {
            siblings_apart(l, x, y as u32);
        }
    }
    vstd::set_lib::lemma_set_disjoint_lens(sa, sb);
    assert(!(sa + sb).contains(x as int));
    assert(l.below(x) =~= (sa + sb).insert(x as int));
    assert(l.below(x).subset_of(vstd::set_lib::set_int_range(0, l.nodes.len() as int)));
    vstd::set_lib::lemma_int_range(0, l.nodes.len() as int);
    vstd::set_lib::lemma_len_subset(
        l.below(x),
        vstd::set_lib::set_int_range(0, l.nodes.len() as int),
    );
}

/// Every child of a subtree's node belongs to the subtree.
proof fn below_closed(l: Lay, x: u32, y: u32)
    requires
        l.links(),
        l.live.contains(x),
        l.below(x).contains(y as int),
        !l.leaf(y),
    ensures
        l.below(x).contains(l.at(y).child1 as int),
        l.below(x).contains(l.at(y).child2 as int),
    decreases l.r(x),
{
    assert(l.node_ok(x));
    below_basics(l, x);
    if y == x {
        below_basics(l, l.at(x).child1);
        below_basics(l, l.at(x).child2);
    } else if l.below(l.at(x).child1).contains(y as int) {
        below_closed(l, l.at(x).child1, y);
    } else {
        below_closed(l, l.at(x).child2, y);
    }
}

/// Indices ranked above a node.
spec fn higher(l: Lay, x: u32) -> Set<int> {
    Set::new(|y: int| 0 <= y < l.nodes.len() && l.r(y as u32) > l.r(x))
}

proof fn higher_finite(l: Lay, x: u32)
    ensures
        higher(l, x).finite(),
{
    vstd::set_lib::lemma_int_range(0, l.nodes.len() as int);
    vstd::set_lib::lemma_len_subset(
        higher(l, x),
        vstd::set_lib::set_int_range(0, l.nodes.len() as int),
    );
}

/// A node has fewer indices ranked above it than each of its children.
proof fn higher_shrinks(l: Lay, x: u32)
    requires
        l.links(),
        l.live.contains(x),
        x != l.root,
    ensures
        higher(l, l.at(x).parent).len() < higher(l, x).len(),
{
    assert(l.node_ok(x));
    let p = l.at(x).parent;
    assert(l.node_ok(p));
    higher_finite(l, x);
    higher_finite(l, p);
    assert(higher(l, x).contains(p as int));
    assert(higher(l, p).subset_of(higher(l, x).remove(p as int)));
    vstd::set_lib::lemma_len_subset(higher(l, p), higher(l, x).remove(p as int));
}

/// Every linked node hangs below the root.
proof fn all_below_root(l: Lay, x: u32)
    requires
        l.links(),
        l.live.contains(x),
    ensures
        l.root != NULL,
        l.below(l.root).contains(x as int),
    decreases higher(l, x).len(),
{
    assert(l.node_ok(x));
    if l.root == NULL {
        assert(Set::<u32>::empty().contains(x));
    }
    below_basics(l, l.root);
    if x != l.root {
        higher_shrinks(l, x);
        all_below_root(l, l.at(x).parent);
        assert(l.node_ok(l.at(x).parent));
        below_closed(l, l.root, l.at(x).parent);
    }
}

/// Exempting more nodes asks less.
proof fn fitted_widens(l: Lay, a: Set<u32>, b: Set<u32>)
    requires
        l.fitted(a),
        a.subset_of(b),
    ensures
        l.fitted(b),
{
    assert forall|i: u32| l.live.contains(i) && !b.contains(i) implies #[trigger] l.fits(i) by {
        assert(!a.contains(i));
    }
}

// --- searching --------------------------------------------------------------

/// What a masked search may report of an entry.
spec fn wanted(l: Lay, y: u32, test: spec_fn(Aabb) -> bool, mask: u64) -> bool {
    l.leaf(y) && l.at(y).bits & mask != 0 && test(l.at(y).aabb)
}

/// Whether the test lets a union through as soon as it lets one of the two
/// boxes through.
pub open spec fn grows(test: spec_fn(Aabb) -> bool) -> bool {
    forall|a: Aabb, b: Aabb| test(a) || test(b) ==> test(#[trigger] joined(a, b))
}

proof fn mask_or(a: u64, b: u64, mask: u64)
    ensures
        (a | b) & mask == 0 <==> a & mask == 0 && b & mask == 0,
{
    assert((a | b) & mask == 0 <==> a & mask == 0 && b & mask == 0) by (bit_vector);
}

/// A search reports only wanted leaves of the subtree, each once.
proof fn found_sound(l: Lay, x: u32, test: spec_fn(Aabb) -> bool, mask: u64)
    requires
        l.links(),
        l.live.contains(x),
    ensures
        l.found(x, test, mask).no_duplicates(),
        forall|k: int|
            0 <= k < l.found(x, test, mask).len() ==> {
                &&& l.below(x).contains(#[trigger] l.found(x, test, mask)[k] as int)
                &&& wanted(l, l.found(x, test, mask)[k], test, mask)
            },
    decreases l.r(x),
{
    assert(l.node_ok(x));
    below_basics(l, x);
    if l.at(x).bits & mask == 0 || !test(l.at(x).aabb) {
    } else if !l.leaf(x) {
        let a = l.at(x).child1;
        let b = l.at(x).child2;
        found_sound(l, a, test, mask);
        found_sound(l, b, test, mask);
        let fa = l.found(a, test, mask);
        let fb = l.found(b, test, mask);
        let all = l.found(x, test, mask);
        assert(all == fb + fa);
        assert forall|k: int| 0 <= k < all.len() implies {
            &&& l.below(x).contains(#[trigger] all[k] as int)
            &&& wanted(l, all[k], test, mask)
        } by {
            if k < fb.len() {
                assert(all[k] == fb[k]);
            } else {
                assert(all[k] == fa[k - fb.len()]);
            }
        }
        assert forall|i: int, j: int| 0 <= i < j < all.len() implies all[i] != all[j] by {
            if j < fb.len() {
                assert(all[i] == fb[i] && all[j] == fb[j]);
            } else if i >= fb.len() {
                assert(all[i] == fa[i - fb.len()] && all[j] == fa[j - fb.len()]);
            } else {
                assert(all[i] == fb[i] && all[j] == fa[j - fb.len()]);
                siblings_apart(l, x, all[i]);
            }
        }
    }
}

/// A search whose test grows with the box misses no wanted leaf.
proof fn found_complete(l: Lay, x: u32, y: u32, test: spec_fn(Aabb) -> bool, mask: u64)
    requires
        l.links(),
        l.fitted(Set::empty()),
        grows(test),
        l.live.contains(x),
        l.below(x).contains(y as int),
        wanted(l, y, test, mask),
    ensures
        l.found(x, test, mask).contains(y),
        l.at(x).bits & mask != 0,
        test(l.at(x).aabb),
    decreases l.r(x),
{
    assert(l.node_ok(x));
    assert(l.fits(x));
    below_basics(l, x);
    if l.leaf(x) {
        assert(l.found(x, test, mask)[0] == y);
    } else {
        let a = l.at(x).child1;
        let b = l.at(x).child2;
        let fa = l.found(a, test, mask);
        let fb = l.found(b, test, mask);
        mask_or(l.at(a).bits, l.at(b).bits, mask);
        assert(y != x);
        if l.below(a).contains(y as int) {
            found_complete(l, a, y, test, mask);
            let k = choose|k: int| 0 <= k < fa.len() && fa[k] == y;
            assert((fb + fa)[fb.len() + k] == y);
        } else {
            found_complete(l, b, y, test, mask);
            let k = choose|k: int| 0 <= k < fb.len() && fb[k] == y;
            assert((fb + fa)[k] == y);
        }
        let _ = joined(l.at(a).aabb, l.at(b).aabb);
    }
}

/// Opening an internal node leaves what is to be reported.
proof fn pending_opens(
    l: Lay,
    stack: Seq<u32>,
    x: u32,
    test: spec_fn(Aabb) -> bool,
    mask: u64,
)
    requires
        l.links(),
        l.live.contains(x),
        !l.leaf(x),
    ensures
        l.pending(stack.push(l.at(x).child1).push(l.at(x).child2), test, mask) == l.found(
            l.at(x).child2,
            test,
            mask,
        ) + l.found(l.at(x).child1, test, mask) + l.pending(stack, test, mask),
        l.weight(stack.push(l.at(x).child1).push(l.at(x).child2)) + 1 == l.weight(
            stack.push(x),
        ),
{
    assert(l.node_ok(x));
    let a = l.at(x).child1;
    let b = l.at(x).child2;
    assert(stack.push(a).push(b).drop_last() =~= stack.push(a));
    assert(stack.push(a).drop_last() =~= stack);
    assert(stack.push(x).drop_last() =~= stack);
    assert(l.pending(stack.push(a), test, mask) == l.found(a, test, mask) + l.pending(
        stack,
        test,
        mask,
    ));
    assert(l.weight(stack.push(a)) == l.size(a) + l.weight(stack));
    assert(l.pending(stack.push(a).push(b), test, mask) =~= l.found(b, test, mask) + l.found(
        a,
        test,
        mask,
    ) + l.pending(stack, test, mask));
}

/// Taking the top off the stack.
proof fn pending_pops(l: Lay, stack: Seq<u32>, x: u32, test: spec_fn(Aabb) -> bool, mask: u64)
    requires
        l.links(),
        l.live.contains(x),
    ensures
        l.pending(stack.push(x), test, mask) == l.found(x, test, mask) + l.pending(
            stack,
            test,
            mask,
        ),
        l.weight(stack.push(x)) == l.size(x) + l.weight(stack),
        l.size(x) > 0,
{
    assert(stack.push(x).drop_last() =~= stack);
}

/// A full visit lists every node of a subtree once.
proof fn listing_exact(l: Lay, x: u32)
    requires
        l.links(),
        l.live.contains(x),
    ensures
        l.listing(x).no_duplicates(),
        forall|y: u32| #[trigger] l.listing(x).contains(y) <==> l.below(x).contains(y as int),
    decreases l.r(x),
{
    assert(l.node_ok(x));
    let all = l.listing(x);
    if !l.leaf(x) {
        let a = l.at(x).child1;
        let b = l.at(x).child2;
        listing_exact(l, a);
        listing_exact(l, b);
        below_basics(l, a);
        below_basics(l, b);
        let la = l.listing(a);
        let lb = l.listing(b);
        assert(all == seq![x] + (lb + la));
        assert(!la.contains(x) && !lb.contains(x));
        assert forall|i: int, j: int| 0 <= i < j < all.len() implies all[i] != all[j] by {
            if i == 0 {
                if j - 1 < lb.len() {
                    assert(all[j] == lb[j - 1]);
                    assert(lb.contains(all[j]));
                } else {
                    assert(all[j] == la[j - 1 - lb.len()]);
                    assert(la.contains(all[j]));
                }
            } else if j - 1 < lb.len() {
                assert(all[i] == lb[i - 1] && all[j] == lb[j - 1]);
            } else if i - 1 >= lb.len() {
                assert(all[i] == la[i - 1 - lb.len()] && all[j] == la[j - 1 - lb.len()]);
            } else {
                assert(all[i] == lb[i - 1] && all[j] == la[j - 1 - lb.len()]);
                assert(lb.contains(all[i]) && la.contains(all[j]));
                siblings_apart(l, x, all[i]);
            }
        }
        assert forall|y: u32| #[trigger] all.contains(y) <==> l.below(x).contains(y as int) by {
            if all.contains(y) {
                let k = choose|k: int| 0 <= k < all.len() && all[k] == y;
                if k > 0 {
                    if k - 1 < lb.len() {
                        assert(lb[k - 1] == y);
                        assert(lb.contains(y));
                    } else {
                        assert(la[k - 1 - lb.len()] == y);
                        assert(la.contains(y));
                    }
                }
            }
            if l.below(x).contains(y as int) {
                if y == x {
                    assert(all[0] == y);
                } else if l.below(a).contains(y as int) {
                    assert(la.contains(y));
                    let k = choose|k: int| 0 <= k < la.len() && la[k] == y;
                    assert(all[1 + lb.len() + k] == y);
                } else {
                    assert(lb.contains(y));
                    let k = choose|k: int| 0 <= k < lb.len() && lb[k] == y;
                    assert(all[1 + k] == y);
                }
            }
        }
    } else {
        assert(all =~= seq![x]);
        assert(all[0] == x);
    }
}

/// The next item of a list without repetition is new.
proof fn listing_grows(all: Seq<u32>, done: Seq<u32>, i: u32, rest: Seq<u32>)
    requires
        all.no_duplicates(),
        all == done.push(i) + rest,
    ensures
        !done.contains(i),
        forall|y: u32| #[trigger] done.push(i).contains(y) <==> done.contains(y) || y == i,
{
    if done.contains(i) {
        let k = choose|k: int| 0 <= k < done.len() && done[k] == i;
        assert(all[k] == i);
        assert(all[done.len() as int] == i);
    }
    assert forall|y: u32| #[trigger] done.push(i).contains(y) <==> done.contains(y) || y == i by {
        if done.contains(y) {
            let k = choose|k: int| 0 <= k < done.len() && done[k] == y;
            assert(done.push(i)[k] == y);
        }
        assert(done.push(i)[done.len() as int] == i);
    }
}

/// Opening a node in a full visit.
proof fn unlisted_opens(l: Lay, stack: Seq<u32>, x: u32)
    requires
        l.links(),
        l.live.contains(x),
    ensures
        l.leaf(x) ==> l.unlisted(stack.push(x)) == seq![x] + l.unlisted(stack) && l.weight(
            stack,
        ) < l.weight(stack.push(x)),
        !l.leaf(x) ==> l.unlisted(stack.push(x)) == seq![x] + l.unlisted(
            stack.push(l.at(x).child1).push(l.at(x).child2),
        ) && l.weight(stack.push(l.at(x).child1).push(l.at(x).child2)) < l.weight(stack.push(x)),
{
    assert(l.node_ok(x));
    let a = l.at(x).child1;
    let b = l.at(x).child2;
    assert(stack.push(x).drop_last() =~= stack);
    assert(l.unlisted(stack.push(x)) == l.listing(x) + l.unlisted(stack));
    if !l.leaf(x) {
        assert(stack.push(a).push(b).drop_last() =~= stack.push(a));
        assert(stack.push(a).drop_last() =~= stack);
        assert(l.unlisted(stack.push(a)) == l.listing(a) + l.unlisted(stack));
        assert(l.weight(stack.push(a)) == l.size(a) + l.weight(stack));
        assert(l.unlisted(stack.push(x)) =~= seq![x] + l.unlisted(stack.push(a).push(b)));
    }
}

/// Whatever a search still has to report is wanted.
proof fn pending_wanted(l: Lay, stack: Seq<u32>, test: spec_fn(Aabb) -> bool, mask: u64)
    requires
        l.links(),
        forall|k: int| 0 <= k < stack.len() ==> l.live.contains(#[trigger] stack[k]),
    ensures
        forall|k: int|
            0 <= k < l.pending(stack, test, mask).len() ==> wanted(
                l,
                #[trigger] l.pending(stack, test, mask)[k],
                test,
                mask,
            ),
    decreases stack.len(),
{
    if stack.len() > 0 {
        found_sound(l, stack.last(), test, mask);
        pending_wanted(l, stack.drop_last(), test, mask);
        let top = l.found(stack.last(), test, mask);
        let rest = l.pending(stack.drop_last(), test, mask);
        let all = l.pending(stack, test, mask);
        assert forall|k: int| 0 <= k < all.len() implies wanted(
            l,
            #[trigger] all[k],
            test,
            mask,
        ) by {
            if k < top.len() {
                assert(all[k] == top[k]);
            } else {
                assert(all[k] == rest[k - top.len()]);
            }
        }
    }
}

// --- reshaping --------------------------------------------------------------

/// A node with its child link `from` turned to `to`.
spec fn turned(n: Node, from: u32, to: u32) -> Node {
    if n.child1 == from {
        Node { child1: to, ..n }
    } else {
        Node { child2: to, ..n }
    }
}

/// Array and root with the parent's link to `from` — or the root — turned
/// to `to`.
spec fn hung(nodes: Seq<Node>, parent: u32, from: u32, to: u32) -> Seq<Node> {
    if parent == NULL {
        nodes
    } else {
        nodes.update(parent as int, turned(nodes[parent as int], from, to))
    }
}

/// A node with box, bits and height taken from its children.
spec fn rederived(nodes: Seq<Node>, i: u32) -> Node {
    let n = nodes[i as int];
    let a = nodes[n.child1 as int];
    let b = nodes[n.child2 as int];
    Node {
        height: (1 + taller(a.height, b.height)) as i32,
        aabb: joined(a.aabb, b.aabb),
        bits: a.bits | b.bits,
        ..n
    }
}

/// The array after a fresh parent `p` was spliced in between `sib` and its
/// old parent, with `leaf` as its second child.
spec fn spliced(nodes: Seq<Node>, p: u32, sib: u32, leaf: u32) -> Seq<Node> {
    let up = nodes[sib as int].parent;
    let made = Node { parent: up, child1: sib, child2: leaf, ..nodes[p as int] };
    let n1 = nodes.update(p as int, made);
    let n2 = n1.update(sib as int, Node { parent: p, ..n1[sib as int] });
    let n3 = n2.update(leaf as int, Node { parent: p, ..n2[leaf as int] });
    hung(n3, up, sib, p)
}

proof fn splice_links(l: Lay, p: u32, sib: u32, leaf: u32) -> (l2: Lay)
    requires
        l.links(),
        l.fitted(Set::empty()),
        l.live.contains(sib),
        !l.live.contains(p),
        !l.live.contains(leaf),
        p != leaf,
        p < l.nodes.len(),
        leaf < l.nodes.len(),
        l.at(p).height >= 1,
        l.at(leaf).child1 == NULL,
        l.at(leaf).child2 == NULL,
        l.at(leaf).height == 0,
    ensures
        l2.nodes == spliced(l.nodes, p, sib, leaf),
        l2.root == if l.at(sib).parent == NULL {
            p
        } else {
            l.root
        },
        l2.live == l.live.insert(p).insert(leaf),
        l2.links(),
        l2.fitted(set![p, l.at(sib).parent]),
        !l2.leaf(p),
        l2.proxies() =~= l.proxies().insert(
            leaf,
            Proxy { fat: l.at(leaf).aabb, bits: l.at(leaf).bits, id: l.at(leaf).id },
        ),
{
    let up = l.at(sib).parent;
    assert(l.node_ok(sib));
    assert(up == NULL <==> sib == l.root) by {
        if sib != l.root {
            assert(l.node_ok(up));
        }
    }
    if up != NULL {
        assert(l.node_ok(up));
    }
    assert(up != p && up != leaf && up != sib);
    let rank = |x: u32|
        if x == p {
            (2 * l.r(sib) + 1) as nat
        } else if x == leaf {
            0nat
        } else {
            (2 * l.r(x)) as nat
        };
    let l2 = Lay {
        nodes: spliced(l.nodes, p, sib, leaf),
        root: if up == NULL {
            p
        } else {
            l.root
        },
        live: l.live.insert(p).insert(leaf),
        rank,
    };
    assert(l2.at(p) == Node { parent: up, child1: sib, child2: leaf, ..l.at(p) });
    assert(sib < l.nodes.len());
    assert forall|i: u32| l2.live.contains(i) implies #[trigger] l2.node_ok(i) by {
        if i == p {
            if up != NULL {
                assert(l.node_ok(up));
            }
        } else if i == leaf {
        } else {
            assert(l.node_ok(i));
            let n = l.at(i);
            if !l.leaf(i) {
                assert(l.node_ok(n.child1));
                assert(l.node_ok(n.child2));
            }
            if i != l.root {
                assert(l.node_ok(n.parent));
            }
            if up != NULL {
                assert(l.node_ok(up));
            }
        }
    }
    assert(l2.live.contains(p));
    assert forall|i: u32|
        l2.live.contains(i) && !set![p, up].contains(i) implies #[trigger] l2.fits(i) by {
        if i != leaf {
            assert(l.node_ok(i));
            assert(l.fits(i));
            let n = l.at(i);
            if !l.leaf(i) {
                assert(l.node_ok(n.child1));
                assert(l.node_ok(n.child2));
            }
        }
    }
    assert forall|i: u32| l.live.contains(i) implies l2.leaf(i) == l.leaf(i) && l2.at(i).aabb
        == l.at(i).aabb && l2.at(i).bits == l.at(i).bits && l2.at(i).id == l.at(i).id by {
        assert(l.node_ok(i));
        if i == up {
            assert(l.node_ok(up));
        }
    }
    l2
}

/// The array after a leaf and its parent were taken out, the sibling taking
/// the parent's place.
spec fn cut(nodes: Seq<Node>, leaf: u32) -> Seq<Node> {
    let parent = nodes[leaf as int].parent;
    let grand = nodes[parent as int].parent;
    let sib = if nodes[parent as int].child1 == leaf {
        nodes[parent as int].child2
    } else {
        nodes[parent as int].child1
    };
    hung(
        nodes.update(sib as int, Node { parent: grand, ..nodes[sib as int] }),
        grand,
        parent,
        sib,
    )
}

/// A leaf taken out with its parent leaves the links of the rest whole, and
/// only the grandparent's box stale.
#[verifier::rlimit(30)]
proof fn cut_links(l: Lay, leaf: u32) -> (l2: Lay)
    requires
        l.links(),
        l.fitted(Set::empty()),
        l.live.contains(leaf),
        l.leaf(leaf),
        leaf != l.root,
    ensures
        ({
            let parent = l.at(leaf).parent;
            let grand = l.at(parent).parent;
            let sib = if l.at(parent).child1 == leaf {
                l.at(parent).child2
            } else {
                l.at(parent).child1
            };
            &&& l.live.contains(parent)
            &&& l.live.contains(sib)
            &&& grand == NULL || l.live.contains(grand)
            &&& grand != leaf && grand != parent && grand != sib && sib != leaf && sib != parent
            &&& parent != leaf
            &&& l2.nodes == cut(l.nodes, leaf)
            &&& l2.root == if grand == NULL {
                sib
            } else {
                l.root
            }
            &&& l2.live == l.live.remove(leaf).remove(parent)
            &&& l2.fitted(set![grand])
            &&& grand != NULL ==> l2.live.contains(grand) && !l2.leaf(grand)
        }),
        l2.rank == l.rank,
        l2.links(),
        l2.proxies() =~= l.proxies().remove(leaf),
{
    assert(l.node_ok(leaf));
    let parent = l.at(leaf).parent;
    assert(l.node_ok(parent));
    let grand = l.at(parent).parent;
    let sib = if l.at(parent).child1 == leaf {
        l.at(parent).child2
    } else {
        l.at(parent).child1
    };
    assert(l.node_ok(sib));
    assert(grand == NULL <==> parent == l.root) by {
        if parent != l.root {
            assert(l.node_ok(grand));
        }
    }
    if grand != NULL {
        assert(l.node_ok(grand));
    }
    let l2 = Lay {
        nodes: cut(l.nodes, leaf),
        root: if grand == NULL {
            sib
        } else {
            l.root
        },
        live: l.live.remove(leaf).remove(parent),
        rank: l.rank,
    };
    assert forall|i: u32| l2.live.contains(i) implies #[trigger] l2.node_ok(i) by {
        assert(l.node_ok(i));
        let n = l.at(i);
        if !l.leaf(i) {
            assert(l.node_ok(n.child1));
            assert(l.node_ok(n.child2));
        }
        if i != l.root {
            assert(l.node_ok(n.parent));
        }
    }
    assert(l2.live.contains(sib));
    assert forall|i: u32|
        l2.live.contains(i) && !set![grand].contains(i) implies #[trigger] l2.fits(i) by {
        assert(l.node_ok(i));
        assert(l.fits(i));
        let n = l.at(i);
        if !l.leaf(i) {
            assert(l.node_ok(n.child1));
            assert(l.node_ok(n.child2));
        }
    }
    assert forall|i: u32| l2.live.contains(i) implies l2.leaf(i) == l.leaf(i) && l2.at(i).aabb
        == l.at(i).aabb && l2.at(i).bits == l.at(i).bits && l2.at(i).id == l.at(i).id by {
        assert(l.node_ok(i));
    }
    l2
}

/// The array after child `c` was rotated above its parent `a`: `c` keeps
/// `keep` and hands `give` down into the slot it vacated.
#[verifier::opaque]
spec fn rotated(nodes: Seq<Node>, a: u32, c: u32, keep: u32, give: u32) -> Seq<Node> {
    let ap = nodes[a as int].parent;
    let n1 = nodes.update(
        c as int,
        Node { parent: ap, child1: a, child2: keep, ..nodes[c as int] },
    );
    let n2 = hung(n1, ap, a, c);
    let n3 = n2.update(a as int, Node { parent: c, ..turned(n2[a as int], c, give) });
    n3.update(give as int, Node { parent: a, ..n3[give as int] })
}

/// The nodes and the root: what a tree looks like.
ghost struct Shape {
    nodes: Seq<Node>,
    root: u32,
}

/// A node re-derived from its children.
spec fn derived_at(s: Shape, i: u32) -> Shape {
    Shape { nodes: s.nodes.update(i as int, rederived(s.nodes, i)), ..s }
}

/// The taller child of `c` and the other one; the first when they tie.
spec fn by_height(nodes: Seq<Node>, c: u32) -> (u32, u32) {
    let n = nodes[c as int];
    if nodes[n.child1 as int].height >= nodes[n.child2 as int].height {
        (n.child1, n.child2)
    } else {
        (n.child2, n.child1)
    }
}

/// The links of a rotation of `c` above `a`, whose shorter grandchild moves
/// to the slot `c` vacated.
spec fn relinked(s: Shape, c: u32, a: u32) -> Shape {
    let (keep, give) = by_height(s.nodes, c);
    Shape {
        nodes: rotated(s.nodes, a, c, keep, give),
        root: if s.nodes[a as int].parent == NULL {
            c
        } else {
            s.root
        },
    }
}

/// Child `c` rotated above its parent `a`, both re-derived bottom-up.
spec fn rotated_up(s: Shape, c: u32, a: u32) -> Shape {
    derived_at(derived_at(relinked(s, c, a), a), c)
}

/// The height rule: when one child of `a` is two levels taller than the
/// other, it rotates up. Gives the node now in `a`'s position.
spec fn balanced(s: Shape, a: u32) -> (Shape, u32) {
    let n = s.nodes[a as int];
    let diff = s.nodes[n.child2 as int].height - s.nodes[n.child1 as int].height;
    if n.height >= 2 && diff > 1 {
        (rotated_up(s, n.child2, a), n.child2)
    } else if n.height >= 2 && diff < -1 {
        (rotated_up(s, n.child1, a), n.child1)
    } else {
        (s, a)
    }
}

/// One level of the walk to the root: balance, re-derive, go up.
spec fn climbed(at: (Shape, u32)) -> (Shape, u32) {
    let (s, i) = balanced(at.0, at.1);
    (derived_at(s, i), s.nodes[i as int].parent)
}

/// The walk from a node to the root, level by level.
spec fn climb(walk: Seq<(Shape, u32)>) -> bool {
    &&& walk.len() > 0
    &&& walk.last().1 == NULL
    &&& steps(walk)
}

/// Each level of a walk follows from the one below.
spec fn steps(walk: Seq<(Shape, u32)>) -> bool {
    forall|k: int|
        0 <= k < walk.len() - 1 ==> (#[trigger] walk[k]).1 != NULL && walk[k + 1] == climbed(walk[k])
}

/// A walk with one level more.
proof fn one_step_more(walk: Seq<(Shape, u32)>, next: (Shape, u32))
    requires
        walk.len() > 0,
        steps(walk),
        walk.last().1 != NULL,
        next == climbed(walk.last()),
    ensures
        steps(walk.push(next)),
{
    let longer = walk.push(next);
    assert forall|k: int| 0 <= k < longer.len() - 1 implies (#[trigger] longer[k]).1 != NULL
        && longer[k + 1] == climbed(longer[k]) by {
        if k < walk.len() - 1 {
            assert(longer[k] == walk[k] && longer[k + 1] == walk[k + 1]);
        } else {
            assert(longer[k] == walk.last());
        }
    }
}

/// The tree once everything from `start` up to the root was re-derived and
/// balanced.
spec fn refitted(before: Shape, start: u32, after: Shape) -> bool {
    exists|walk: Seq<(Shape, u32)>| #[trigger]
        climb(walk) && walk[0] == (before, start) && walk.last().0 == after
}

/// A node put at an index, at the end of the array when that is past it.
spec fn stored(nodes: Seq<Node>, i: u32, n: Node) -> Seq<Node> {
    if i == nodes.len() {
        nodes.push(n)
    } else {
        nodes.update(i as int, n)
    }
}

/// An unlinked leaf spliced in beside a sibling, under a new parent at `p`.
spec fn paired(s: Shape, p: u32, sib: u32, leaf: u32) -> Shape {
    let n = s.nodes[leaf as int];
    let b = s.nodes[sib as int];
    let made = Node {
        aabb: joined(n.aabb, b.aabb),
        bits: n.bits | b.bits,
        id: Id(0),
        parent: b.parent,
        child1: sib,
        child2: leaf,
        height: (b.height + 1) as i32,
    };
    Shape {
        nodes: spliced(stored(s.nodes, p, made), p, sib, leaf),
        root: if b.parent == NULL {
            p
        } else {
            s.root
        },
    }
}

/// The array after a rotation, node by node.
proof fn rotated_at(nodes: Seq<Node>, a: u32, c: u32, keep: u32, give: u32)
    requires
        a < nodes.len(),
        c < nodes.len(),
        give < nodes.len(),
        nodes[a as int].parent == NULL || nodes[a as int].parent < nodes.len(),
        c != a,
        give != a,
        give != c,
        nodes[a as int].parent != a,
        nodes[a as int].parent != c,
        nodes[a as int].parent != give,
    ensures
        ({
            let ap = nodes[a as int].parent;
            let n2 = rotated(nodes, a, c, keep, give);
            &&& n2.len() == nodes.len()
            &&& n2[c as int] == Node { parent: ap, child1: a, child2: keep, ..nodes[c as int] }
            &&& n2[a as int] == Node { parent: c, ..turned(nodes[a as int], c, give) }
            &&& n2[give as int] == Node { parent: a, ..nodes[give as int] }
            &&& ap != NULL ==> n2[ap as int] == turned(nodes[ap as int], a, c)
            &&& forall|i: int|
                0 <= i < nodes.len() && i != c && i != a && i != give && i != ap
                    ==> #[trigger] n2[i] == nodes[i]
        }),
{
    reveal(rotated);
}

#[verifier::rlimit(60)]
proof fn rotate_links(l: Lay, a: u32, c: u32, keep: u32, give: u32) -> (l2: Lay)
    requires
        l.links(),
        l.fitted(set![a, l.at(a).parent]),
        l.live.contains(a),
        !l.leaf(a),
        l.at(a).child1 == c || l.at(a).child2 == c,
        !l.leaf(c),
        (keep == l.at(c).child1 && give == l.at(c).child2) || (keep == l.at(c).child2 && give
            == l.at(c).child1),
    ensures
        l2.nodes == rotated(l.nodes, a, c, keep, give),
        l2.root == if l.at(a).parent == NULL {
            c
        } else {
            l.root
        },
        l2.live == l.live,
        l2.links(),
        l2.fitted(set![a, c, l.at(a).parent]),
        l2.r(a) < l2.r(c),
        l2.at(c).parent == l.at(a).parent,
        !l2.leaf(a) && !l2.leaf(c),
        l2.at(a).parent == c,
        l.live.contains(c),
        c != a && c != l.at(a).parent && a != l.at(a).parent,
        c == l2.root <==> l.at(a).parent == NULL,
        forall|x: int|
            0 <= x < l.nodes.len() ==> (l2.r(x as u32) > l2.r(c) <==> #[trigger] l.r(x as u32)
                > l.r(a)),
        l2.proxies() =~= l.proxies(),
{
    assert(l.node_ok(a));
    assert(l.node_ok(c));
    assert(l.node_ok(keep));
    assert(l.node_ok(give));
    let ap = l.at(a).parent;
    assert(ap == NULL <==> a == l.root) by {
        if a != l.root {
            assert(l.node_ok(ap));
        }
    }
    if ap != NULL {
        assert(l.node_ok(ap));
    }
    assert(c != a && give != a && give != c && give != ap && c != ap && a != ap && keep != give);
    let rank = |x: u32|
        if x == c {
            (2 * l.r(a) + 1) as nat
        } else {
            (2 * l.r(x)) as nat
        };
    let l2 = Lay {
        nodes: rotated(l.nodes, a, c, keep, give),
        root: if ap == NULL {
            c
        } else {
            l.root
        },
        live: l.live,
        rank,
    };
    let b = if l.at(a).child1 == c {
        l.at(a).child2
    } else {
        l.at(a).child1
    };
    assert(l.node_ok(b));
    rotated_at(l.nodes, a, c, keep, give);
    assert(l2.node_ok(a));
    assert(l2.node_ok(c));
    assert(l2.node_ok(give)) by {
        if !l.leaf(give) {
            assert(l.node_ok(l.at(give).child1));
            assert(l.node_ok(l.at(give).child2));
        }
    }
    assert forall|i: u32| l2.live.contains(i) implies #[trigger] l2.node_ok(i) by {
        assert(l.node_ok(i));
        if i != a && i != c && i != give {
            let n = l.at(i);
            if !l.leaf(i) {
                assert(l.node_ok(n.child1));
                assert(l.node_ok(n.child2));
            }
            if i != l.root {
                assert(l.node_ok(n.parent));
            }
            assert(l2.node_ok(i));
        }
    }
    assert forall|i: u32|
        l2.live.contains(i) && !set![a, c, ap].contains(i) implies #[trigger] l2.fits(i) by {
        assert(l.node_ok(i));
        assert(l.fits(i));
        let n = l.at(i);
        if !l.leaf(i) {
            assert(l.node_ok(n.child1));
            assert(l.node_ok(n.child2));
        }
    }
    assert forall|i: u32| l2.live.contains(i) implies l2.leaf(i) == l.leaf(i) && l2.at(i).aabb
        == l.at(i).aabb && l2.at(i).bits == l.at(i).bits && l2.at(i).id == l.at(i).id by {
        assert(l.node_ok(i));
    }
    l2
}

// --- where a new leaf goes --------------------------------------------------

/// What pairing a new leaf with a node costs, in surface area; `f32` bit
/// patterns.
#[derive(Clone, Copy, PartialEq, Eq, Debug, Structural)]
pub struct Price {
    /// Area of the node's box grown to fit the leaf.
    pub direct: u32,
    /// How much of that is growth.
    pub growth: u32,
    /// Area the leaf has short of the node's, never above zero.
    pub slack: u32,
    /// Squared distance of the two centres.
    pub gap: u32,
}

/// The largest finite number.
pub const MOST: u32 = 0x7f7f_ffff;

/// How far the search for a sibling has come.
#[derive(Clone, Copy)]
struct Hunt {
    index: u32,
    here: Price,
    /// Growth inflicted on every ancestor of `index`.
    inherited: u32,
    best: u32,
    best_cost: u32,
}

/// What one step of the search worked out.
#[derive(Clone, Copy)]
struct Look {
    cost: u32,
    inherited: u32,
    price1: Price,
    price2: Price,
    cost1: u32,
    cost2: u32,
    lower1: u32,
    lower2: u32,
}

/// A subtree's lower bound is what its ancestors grow by, its own grown
/// area, and its slack, summed in that order.
spec fn bounded<S: Fn(u32, u32) -> u32>(
    inherited: u32,
    price: Price,
    plus: S,
    lower: u32,
) -> bool {
    exists|m: u32| #[trigger]
        plus.ensures((inherited, price.direct), m) && plus.ensures((m, price.slack), lower)
}

/// The numbers of one step follow from the node looked at.
spec fn looked<P: Fn(&Aabb, &Aabb) -> Price, S: Fn(u32, u32) -> u32>(
    l: Lay,
    fat: Aabb,
    h: Hunt,
    k: Look,
    price: P,
    plus: S,
) -> bool {
    let c1 = l.at(h.index).child1;
    let c2 = l.at(h.index).child2;
    &&& plus.ensures((h.here.direct, h.inherited), k.cost)
    &&& plus.ensures((h.inherited, h.here.growth), k.inherited)
    &&& price.ensures((&l.at(c1).aabb, &fat), k.price1)
    &&& price.ensures((&l.at(c2).aabb, &fat), k.price2)
    &&& l.leaf(c1) ==> plus.ensures((k.price1.direct, k.inherited), k.cost1) && k.lower1 == MOST
    &&& l.leaf(c2) ==> plus.ensures((k.price2.direct, k.inherited), k.cost2) && k.lower2 == MOST
    &&& !l.leaf(c1) ==> bounded(k.inherited, k.price1, plus, k.lower1)
    &&& !l.leaf(c2) ==> bounded(k.inherited, k.price2, plus, k.lower2)
}

/// The best candidate after a step: the node itself and its leaf children
/// each replace it when strictly cheaper.
spec fn weighed(l: Lay, h: Hunt, k: Look) -> (u32, u32) {
    let c1 = l.at(h.index).child1;
    let c2 = l.at(h.index).child2;
    let own = if lt_num(k.cost, h.best_cost) {
        (h.index, k.cost)
    } else {
        (h.best, h.best_cost)
    };
    let first = if l.leaf(c1) && lt_num(k.cost1, own.1) {
        (c1, k.cost1)
    } else {
        own
    };
    if l.leaf(c2) && lt_num(k.cost2, first.1) {
        (c2, k.cost2)
    } else {
        first
    }
}

/// The search ends where both children are leaves or no lower bound can
/// beat the best.
spec fn stops(l: Lay, h: Hunt, k: Look) -> bool {
    let best = weighed(l, h, k).1;
    ||| l.leaf(l.at(h.index).child1) && l.leaf(l.at(h.index).child2)
    ||| le_num(best, k.lower1) && le_num(best, k.lower2)
}

/// The search goes into the first child when its bound — or, between equal
/// bounds, its centre — is nearer.
spec fn goes_first(l: Lay, h: Hunt, k: Look) -> bool {
    let inner = !l.leaf(l.at(h.index).child1);
    let tie = le_num(k.lower1, k.lower2) && le_num(k.lower2, k.lower1) && inner;
    inner && if tie {
        lt_num(k.price1.gap, k.price2.gap)
    } else {
        lt_num(k.lower1, k.lower2)
    }
}

/// The search after a step.
spec fn gone(l: Lay, h: Hunt, k: Look) -> Hunt {
    Hunt {
        index: if goes_first(l, h, k) {
            l.at(h.index).child1
        } else {
            l.at(h.index).child2
        },
        here: if goes_first(l, h, k) {
            k.price1
        } else {
            k.price2
        },
        inherited: k.inherited,
        best: weighed(l, h, k).0,
        best_cost: weighed(l, h, k).1,
    }
}

/// Where the search starts.
spec fn outset<P: Fn(&Aabb, &Aabb) -> Price>(l: Lay, fat: Aabb, price: P, h: Hunt) -> bool {
    &&& price.ensures((&l.at(l.root).aabb, &fat), h.here)
    &&& h == Hunt {
        index: l.root,
        here: h.here,
        inherited: 0,
        best: l.root,
        best_cost: h.here.direct,
    }
}

/// One step that did not end the search.
spec fn strode<P: Fn(&Aabb, &Aabb) -> Price, S: Fn(u32, u32) -> u32>(
    l: Lay,
    fat: Aabb,
    h: Hunt,
    k: Look,
    price: P,
    plus: S,
    h2: Hunt,
) -> bool {
    &&& !l.leaf(h.index)
    &&& looked(l, fat, h, k, price, plus)
    &&& !stops(l, h, k)
    &&& h2 == gone(l, h, k)
}

/// A run of the search from the root.
spec fn hunt_run<P: Fn(&Aabb, &Aabb) -> Price, S: Fn(u32, u32) -> u32>(
    l: Lay,
    fat: Aabb,
    hs: Seq<Hunt>,
    ks: Seq<Look>,
    price: P,
    plus: S,
) -> bool {
    &&& hs.len() == ks.len() + 1
    &&& outset(l, fat, price, hs[0])
    &&& forall|i: int|
        0 <= i < ks.len() ==> strode(l, fat, hs[i], #[trigger] ks[i], price, plus, hs[i + 1])
}

/// The sibling the search settles on: one greedy path down from the root,
/// each candidate priced by its own growth plus that of its ancestors.
spec fn settles<P: Fn(&Aabb, &Aabb) -> Price, S: Fn(u32, u32) -> u32>(
    l: Lay,
    fat: Aabb,
    price: P,
    plus: S,
    r: u32,
) -> bool {
    exists|hs: Seq<Hunt>, ks: Seq<Look>, k: Look|
        {
            &&& #[trigger] hunt_run(l, fat, hs, ks, price, plus)
            &&& if l.leaf(hs.last().index) {
                r == hs.last().best
            } else {
                &&& #[trigger] looked(l, fat, hs.last(), k, price, plus)
                &&& stops(l, hs.last(), k)
                &&& r == weighed(l, hs.last(), k).0
            }
        }
}

/// A leaf joined a tree: alone it is the root; otherwise it is paired with
/// the sibling the search settles on, and the way up is re-derived and
/// balanced.
spec fn leaf_joined<P: Fn(&Aabb, &Aabb) -> Price, S: Fn(u32, u32) -> u32>(
    l: Lay,
    p: u32,
    leaf: u32,
    price: P,
    plus: S,
    after: Shape,
) -> bool {
    let before = Shape { nodes: l.nodes, root: l.root };
    if l.root == NULL {
        after == Shape {
            nodes: l.nodes.update(leaf as int, Node { parent: NULL, ..l.at(leaf) }),
            root: leaf,
        }
    } else {
        exists|sib: u32| #[trigger]
            settles(l, l.at(leaf).aabb, price, plus, sib) && refitted(
                paired(before, p, sib, leaf),
                p,
                after,
            )
    }
}

/// A leaf left a tree: alone it leaves it empty; otherwise its sibling takes
/// the parent's place, the parent's index heads the free list, and the way up
/// is re-derived and balanced.
spec fn leaf_left(before: Shape, free: u32, leaf: u32, after: Shape) -> bool {
    if before.root == leaf {
        after == Shape { root: NULL, ..before }
    } else {
        let parent = before.nodes[leaf as int].parent;
        let up = before.nodes[parent as int];
        let nodes = cut(before.nodes, leaf);
        refitted(
            Shape {
                nodes: nodes.update(
                    parent as int,
                    Node { parent: free, height: -1i32, ..nodes[parent as int] },
                ),
                root: if up.parent != NULL {
                    before.root
                } else if up.child1 == leaf {
                    up.child2
                } else {
                    up.child1
                },
            },
            up.parent,
            after,
        )
    }
}

/// The linked nodes fit in the index range.
proof fn live_fits(l: Lay)
    requires
        l.links(),
    ensures
        l.live.finite(),
        l.live.len() <= l.nodes.len(),
{
    let wide = l.live.map(|i: u32| i as int);
    let all = vstd::set_lib::set_int_range(0, l.nodes.len() as int);
    vstd::set_lib::lemma_int_range(0, l.nodes.len() as int);
    let narrow = all.map(|i: int| i as u32);
    assert forall|i: u32| l.live.contains(i) implies narrow.contains(i) by {
        assert(l.node_ok(i));
        assert(all.contains(i as int));
        assert((i as int) as u32 == i);
    }
    all.lemma_map_finite(|i: int| i as u32);
    vstd::set_lib::lemma_map_size_bound(all, narrow, |i: int| i as u32);
    vstd::set_lib::lemma_len_subset(l.live, narrow);
}

/// Writing to an unlinked index, or to a fresh one, changes nothing about the
/// tree.
proof fn slot_stored(l: Lay, l2: Lay, x: u32)
    requires
        l.links(),
        !l.live.contains(x),
        l2.live == l.live,
        l2.rank == l.rank,
        l2.root == l.root,
        l.nodes.len() <= l2.nodes.len() <= NULL,
        forall|i: int| 0 <= i < l.nodes.len() && i != x ==> #[trigger] l2.nodes[i] == l.nodes[i],
    ensures
        l2.links(),
        forall|gaps: Set<u32>| #[trigger] l.fitted(gaps) ==> l2.fitted(gaps),
        l2.proxies() =~= l.proxies(),
{
    assert forall|i: u32| l.live.contains(i) implies #[trigger] l2.at(i) == l.at(i) by {
        assert(l.node_ok(i));
    }
    assert forall|i: u32| l2.live.contains(i) implies #[trigger] l2.node_ok(i) by {
        assert(l.node_ok(i));
        let n = l.at(i);
        if !l.leaf(i) {
            assert(l.node_ok(n.child1));
            assert(l.node_ok(n.child2));
        }
        if i != l.root {
            assert(l.node_ok(n.parent));
        }
    }
    assert forall|gaps: Set<u32>| #[trigger] l.fitted(gaps) implies l2.fitted(gaps) by {
        assert forall|i: u32| l2.live.contains(i) && !gaps.contains(i) implies #[trigger] l2.fits(
            i,
        ) by {
            assert(l.node_ok(i));
            assert(l.fits(i));
        }
    }
}

/// A linked node has a linked leaf at or below it.
proof fn a_leaf_below(l: Lay, i: u32) -> (x: u32)
    requires
        l.links(),
        l.live.contains(i),
    ensures
        l.live.contains(x),
        l.leaf(x),
    decreases l.r(i),
{
    assert(l.node_ok(i));
    if l.leaf(i) {
        i
    } else {
        a_leaf_below(l, l.at(i).child1)
    }
}

/// A tree has a root exactly when it has entries.
proof fn roots_hold_entries(l: Lay)
    requires
        l.links(),
    ensures
        l.root == NULL <==> l.proxies().dom() == Set::<u32>::empty(),
{
    if l.root == NULL {
        assert(l.proxies().dom() =~= Set::<u32>::empty());
    } else {
        let x = a_leaf_below(l, l.root);
        assert(l.proxies().dom().contains(x));
    }
}

/// The free indices and the count of nodes once `n` more nodes are in use:
/// freed indices first, then fresh ones.
pub open spec fn drawn(spares: Seq<u32>, slots: nat, n: nat) -> (Seq<u32>, nat) {
    if n <= spares.len() {
        (spares.skip(n as int), slots)
    } else {
        (Seq::empty(), (slots + n - spares.len()) as nat)
    }
}

/// `n` indices were taken into use.
#[verifier::opaque]
spec fn drew(before: (Seq<u32>, nat), after: (Seq<u32>, nat), n: nat) -> bool {
    after == drawn(before.0, before.1, n)
}

/// One index taken after another is two.
proof fn drew_twice(a: (Seq<u32>, nat), b: (Seq<u32>, nat), c: (Seq<u32>, nat))
    requires
        drew(a, b, 1),
        drew(b, c, 1),
    ensures
        drew(a, c, 2),
{
    reveal(drew);
    let spares = a.0;
    if spares.len() >= 2 {
        assert(spares.skip(1).skip(1) =~= spares.skip(2));
    } else if spares.len() == 1 {
        assert(spares.skip(1) =~= Seq::<u32>::empty());
    }
}

/// What an index freed and taken again leaves.
proof fn drew_back(a: (Seq<u32>, nat), freed: u32, c: (Seq<u32>, nat))
    requires
        drew((seq![freed] + a.0, a.1), c, 1),
    ensures
        c == a,
{
    reveal(drew);
    assert((seq![freed] + a.0).skip(1) =~= a.0);
}

/// The test of a query: whether a box overlaps the queried one.
pub open spec fn meeting(q: Aabb) -> spec_fn(Aabb) -> bool {
    |b: Aabb| overlapping(b, q)
}

/// The entities behind a run of proxies.
pub open spec fn ids_of(entries: Map<u32, Proxy>, proxies: Seq<u32>) -> Seq<Id> {
    Seq::new(proxies.len(), |k: int| entries[proxies[k]].id)
}

// --- the tree ---------------------------------------------------------------

/// Incrementally maintained bounding volume hierarchy over entity-tagged
/// fat boxes.
pub struct DynamicTree {
    nodes: Vec<Node>,
    root: u32,
    free: u32,
    leaves: usize,
    live: Ghost<Set<u32>>,
    rank: Ghost<spec_fn(u32) -> nat>,
    spare: Ghost<Seq<u32>>,
}

/// The free list runs through `spare` in order and touches no linked node.
spec fn chained(nodes: Seq<Node>, free: u32, spare: Seq<u32>, live: Set<u32>) -> bool {
    &&& free == if spare.len() == 0 {
        NULL
    } else {
        spare[0]
    }
    &&& forall|k: int|
        0 <= k < spare.len() ==> {
            &&& (#[trigger] spare[k]) < nodes.len()
            &&& !live.contains(spare[k])
            &&& nodes[spare[k] as int].parent == if k + 1 < spare.len() {
                spare[k + 1]
            } else {
                NULL
            }
        }
    &&& spare.no_duplicates()
}

impl View for DynamicTree {
    type V = Map<u32, Proxy>;

    closed spec fn view(&self) -> Map<u32, Proxy> {
        self.lay().proxies()
    }
}

impl DynamicTree {
    spec fn lay(&self) -> Lay {
        Lay { nodes: self.nodes@, root: self.root, live: self.live@, rank: self.rank@ }
    }

    spec fn shape(&self) -> Shape {
        Shape { nodes: self.nodes@, root: self.root }
    }

    spec fn listed(&self) -> bool {
        chained(self.nodes@, self.free, self.spare@, self.live@)
    }

    /// Links, boxes, bits and heights all agree, the free list is intact and
    /// the leaf count is right.
    pub closed spec fn wf(&self) -> bool {
        &&& self.lay().links()
        &&& self.lay().fitted(Set::empty())
        &&& self.listed()
        &&& self@.dom().finite()
        &&& self.leaves == self@.dom().len()
    }

    /// Nodes ever allocated; what must stay below the index range.
    pub closed spec fn slots(&self) -> nat {
        self.nodes@.len()
    }

    /// The indices freed and not used again, newest first.
    pub closed spec fn spares(&self) -> Seq<u32> {
        self.spare@
    }

    /// The proxy the next entry gets: the newest freed index, or a fresh one.
    pub open spec fn next(&self) -> u32 {
        if self.spares().len() == 0 {
            self.slots() as u32
        } else {
            self.spares()[0]
        }
    }

    /// The free indices and the count of nodes.
    spec fn stock(&self) -> (Seq<u32>, nat) {
        (self.spare@, self.nodes@.len())
    }

    /// The index the next node gets.
    spec fn head(&self) -> u32 {
        if self.free == NULL {
            self.nodes@.len() as u32
        } else {
            self.free
        }
    }

    /// The head of the free list once an index was taken off it.
    spec fn following(&self) -> u32 {
        if self.free == NULL {
            NULL
        } else {
            self.nodes@[self.free as int].parent
        }
    }

    /// The head of the free list once a leaf joined: past the first leaf, a
    /// join takes an index for the parent.
    spec fn free_past_join(&self) -> u32 {
        if self.root == NULL {
            self.free
        } else {
            self.following()
        }
    }

    /// The head of the free list once a leaf left: its parent's index, unless
    /// it was alone.
    spec fn free_past_leave(&self, leaf: u32) -> u32 {
        if self.root == leaf {
            self.free
        } else {
            self.nodes@[leaf as int].parent
        }
    }

    /// This tree with one more index in use, holding an unlinked node.
    spec fn took(&self, before: DynamicTree, i: u32, node: Node) -> bool {
        &&& self.nodes@ == stored(before.nodes@, i, node)
        &&& self.root == before.root
        &&& self.live == before.live
        &&& self.rank == before.rank
        &&& self.free == before.following()
    }

    /// The tree `before` with one more entry: its leaf paired with the
    /// sibling a greedy search by `price` and `plus` settles on, and the way
    /// up to the root balanced by the height rule.
    pub closed spec fn joined_by<P: Fn(&Aabb, &Aabb) -> Price, S: Fn(u32, u32) -> u32>(
        &self,
        before: DynamicTree,
        leaf: u32,
        entry: Proxy,
        price: P,
        plus: S,
    ) -> bool {
        let node = Node {
            aabb: entry.fat,
            bits: entry.bits,
            id: entry.id,
            parent: NULL,
            child1: NULL,
            child2: NULL,
            height: 0,
        };
        exists|mid: DynamicTree| #[trigger]
            mid.took(before, leaf, node) && leaf_joined(
                mid.lay(),
                mid.head(),
                leaf,
                price,
                plus,
                self.shape(),
            ) && self.free == mid.free_past_join()
    }

    /// A leaf left `before`, which gave `gone`, and got a new box, which gave
    /// this tree.
    spec fn reboxed(&self, before: DynamicTree, gone: DynamicTree, leaf: u32, fat: Aabb) -> bool {
        &&& leaf_left(before.shape(), before.free, leaf, gone.shape())
        &&& gone.free == before.free_past_leave(leaf)
        &&& self.nodes@ == gone.nodes@.update(
            leaf as int,
            Node { aabb: fat, ..before.nodes@[leaf as int] },
        )
        &&& self.root == gone.root
        &&& self.live == gone.live
        &&& self.rank == gone.rank
        &&& self.free == gone.free
    }

    /// The tree `before` with one entry taken out and put back under a new
    /// box, paired and balanced as a new one would be.
    pub closed spec fn moved_by<P: Fn(&Aabb, &Aabb) -> Price, S: Fn(u32, u32) -> u32>(
        &self,
        before: DynamicTree,
        leaf: u32,
        fat: Aabb,
        price: P,
        plus: S,
    ) -> bool {
        exists|gone: DynamicTree, mid: DynamicTree| #[trigger]
            mid.reboxed(before, gone, leaf, fat) && leaf_joined(
                mid.lay(),
                mid.head(),
                leaf,
                price,
                plus,
                self.shape(),
            ) && self.free == mid.free_past_join()
    }

    /// A leaf left `before`, which gave `gone`, and its index went to the head
    /// of the free list, which gave this tree.
    spec fn dropped(&self, before: DynamicTree, gone: DynamicTree, leaf: u32) -> bool {
        &&& leaf_left(before.shape(), before.free, leaf, gone.shape())
        &&& gone.free == before.free_past_leave(leaf)
        &&& self.nodes@ == gone.nodes@.update(
            leaf as int,
            Node { parent: gone.free, height: -1i32, ..gone.nodes@[leaf as int] },
        )
        &&& self.root == gone.root
        &&& self.free == leaf
    }

    /// The tree `before` with one entry taken out: its sibling takes the
    /// parent's place, the way up to the root is balanced by the height rule,
    /// and both indices are free, the entry's the first to be used again.
    pub closed spec fn left_by(&self, before: DynamicTree, leaf: u32) -> bool {
        exists|gone: DynamicTree| #[trigger] self.dropped(before, gone, leaf)
    }

    /// The entries a masked search reaches, in visiting order.
    pub closed spec fn seek(&self, test: spec_fn(Aabb) -> bool, mask: u64) -> Seq<u32> {
        if self.root == NULL {
            Seq::empty()
        } else {
            self.lay().found(self.root, test, mask)
        }
    }

    /// An empty tree.
    pub fn new() -> (r: DynamicTree)
        ensures
            r.wf(),
            r@ == Map::<u32, Proxy>::empty(),
            r.slots() == 0,
            r.spares() == Seq::<u32>::empty(),
            r.next() == 0,
    {
        let r = DynamicTree {
            nodes: Vec::new(),
            root: NULL,
            free: NULL,
            leaves: 0,
            live: Ghost(Set::empty()),
            rank: Ghost(|x: u32| 0nat),
            spare: Ghost(Seq::empty()),
        };
        assert(r@ =~= Map::<u32, Proxy>::empty());
        assert(r@.dom() =~= Set::<u32>::empty());
        r
    }

    /// Whether there is index room for one more entry.
    pub fn has_room(&self) -> (r: bool)
        ensures
            r == (self.slots() + 2 <= NULL),
    {
        self.nodes.len() < 0xffff_fffe
    }

    /// Number of live entries (leaves).
    pub fn len(&self) -> (r: usize)
        requires
            self.wf(),
        ensures
            r == self@.dom().len(),
    {
        self.leaves
    }

    pub fn is_empty(&self) -> (r: bool)
        requires
            self.wf(),
        ensures
            r == (self@.dom().len() == 0),
    {
        self.leaves == 0
    }

    /// The entity a proxy was inserted with.
    pub fn id(&self, proxy: u32) -> (r: Id)
        requires
            self.wf(),
            self@.contains_key(proxy),
        ensures
            r == self@[proxy].id,
    {
        assert(self.lay().node_ok(proxy));
        self.nodes[proxy as usize].id
    }

    /// The stored (fat) box of a proxy.
    pub fn fat(&self, proxy: u32) -> (r: Aabb)
        requires
            self.wf(),
            self@.contains_key(proxy),
        ensures
            r == self@[proxy].fat,
    {
        assert(self.lay().node_ok(proxy));
        self.nodes[proxy as usize].aabb
    }

    // --- allocation ---------------------------------------------------------

    /// Store a node at a free index.
    fn take_slot(&mut self, node: Node) -> (r: u32)
        requires
            old(self).lay().links(),
            old(self).listed(),
            old(self).nodes@.len() < NULL || old(self).spare@.len() > 0,
        ensures
            r == old(self).head(),
            r == old(self).next(),
            r < final(self).nodes@.len(),
            !old(self).live@.contains(r),
            !final(self).spare@.contains(r),
            final(self).nodes@.len() >= old(self).nodes@.len(),
            final(self).nodes@.len() <= old(self).nodes@.len() + 1,
            final(self).nodes@.len() <= NULL,
            drew(old(self).stock(), final(self).stock(), 1),
            final(self).nodes@[r as int] == node,
            final(self).nodes@ == stored(old(self).nodes@, r, node),
            final(self).free == old(self).following(),
            forall|i: int|
                0 <= i < old(self).nodes@.len() && i != r ==> #[trigger] final(self).nodes@[i]
                    == old(self).nodes@[i],
            final(self).root == old(self).root,
            final(self).leaves == old(self).leaves,
            final(self).live == old(self).live,
            final(self).rank == old(self).rank,
            final(self).lay().links(),
            forall|gaps: Set<u32>| #[trigger]
                old(self).lay().fitted(gaps) ==> final(self).lay().fitted(gaps),
            final(self).lay().proxies() =~= old(self).lay().proxies(),
            final(self).listed(),
            forall|x: u32|
                old(self).spare@.contains(x) ==> x == r || final(self).spare@.contains(x),
            forall|x: u32| #[trigger]
                final(self).spare@.contains(x) ==> old(self).spare@.contains(x),
    {
        let ghost l = self.lay();
        let ghost spare = self.spare@;
        let r: u32;
        if self.free == NULL {
            assert(spare.len() == 0) by {
                if spare.len() > 0 {
                    assert(spare[0] < l.nodes.len());
                }
            }
            self.nodes.push(node);
            r = (self.nodes.len() - 1) as u32;
            proof {
                if l.live.contains(r) {
                    assert(l.node_ok(r));
                }
            }
        } else {
            r = self.free;
            assert(spare[0] == r);
            self.free = self.nodes[r as usize].parent;
            self.nodes.set(r as usize, node);
            proof {
                self.spare@ = spare.drop_first();
                assert forall|k: int| 0 <= k < self.spare@.len() implies self.spare@[k] == spare[k
                    + 1] && self.spare@[k] != r by {
                    assert(spare[k + 1] != spare[0]);
                }
                assert forall|x: u32| spare.contains(x) implies x == r || self.spare@.contains(
                    x,
                ) by {
                    let k = choose|k: int| 0 <= k < spare.len() && spare[k] == x;
                    if k > 0 {
                        assert(self.spare@[k - 1] == x);
                    }
                }
            }
        }
        proof {
            slot_stored(l, self.lay(), r);
            assert(drew((spare, l.nodes.len()), self.stock(), 1)) by {
                reveal(drew);
                assert(spare.len() > 0 ==> spare.skip(1) =~= spare.drop_first());
                assert(spare.len() == 0 ==> spare =~= Seq::<u32>::empty());
            }
        }
        r
    }

    /// Put an unlinked index on the free list.
    fn free_slot(&mut self, i: u32)
        requires
            old(self).listed(),
            i < old(self).nodes@.len(),
            old(self).nodes@.len() <= NULL,
            !old(self).live@.contains(i),
            !old(self).spare@.contains(i),
        ensures
            final(self).listed(),
            final(self).nodes@ == old(self).nodes@.update(
                i as int,
                Node { parent: old(self).free, height: -1i32, ..old(self).nodes@[i as int] },
            ),
            final(self).root == old(self).root,
            final(self).leaves == old(self).leaves,
            final(self).live == old(self).live,
            final(self).rank == old(self).rank,
            final(self).spare@ == seq![i] + old(self).spare@,
    {
        let ghost spare = self.spare@;
        let n: Node = self.nodes[i as usize];
        self.nodes.set(i as usize, Node { parent: self.free, height: -1, ..n });
        self.free = i;
        proof {
            self.spare@ = seq![i] + spare;
            assert forall|k: int| 0 <= k < self.spare@.len() implies {
                &&& (#[trigger] self.spare@[k]) < self.nodes@.len()
                &&& !self.live@.contains(self.spare@[k])
                &&& self.nodes@[self.spare@[k] as int].parent == if k + 1 < self.spare@.len() {
                    self.spare@[k + 1]
                } else {
                    NULL
                }
            } by {
                if k > 0 {
                    assert(self.spare@[k] == spare[k - 1]);
                    assert(spare[k - 1] != i);
                    if k + 1 < self.spare@.len() {
                        assert(self.spare@[k + 1] == spare[k]);
                    }
                } else if spare.len() > 0 {
                    assert(self.spare@[1] == spare[0]);
                }
            }
        }
    }

    // --- structure ----------------------------------------------------------

    /// Re-derive the box, bits and height of a node from its children.
    fn derive(&mut self, i: u32, Ghost(gaps): Ghost<Set<u32>>)
        requires
            old(self).lay().links(),
            old(self).lay().fitted(gaps),
            old(self).listed(),
            old(self).live@.contains(i),
            !old(self).lay().leaf(i),
            forall|y: u32| #[trigger]
                gaps.contains(y) && old(self).live@.contains(y) ==> y == i || old(self).lay().r(y)
                    > old(self).lay().r(i),
        ensures
            final(self).lay().links(),
            final(self).lay().fitted(gaps.remove(i).insert(old(self).lay().at(i).parent)),
            final(self).listed(),
            final(self).lay().proxies() == old(self).lay().proxies(),
            final(self).live == old(self).live,
            final(self).rank == old(self).rank,
            final(self).spare == old(self).spare,
            final(self).root == old(self).root,
            final(self).leaves == old(self).leaves,
            final(self).nodes@ == old(self).nodes@.update(
                i as int,
                rederived(old(self).nodes@, i),
            ),
    {
        let ghost l = self.lay();
        proof {
            assert(l.node_ok(i));
            assert(l.node_ok(l.at(i).child1));
            assert(l.node_ok(l.at(i).child2));
            children_count(l, i, gaps);
        }
        let n: Node = self.nodes[i as usize];
        let a: Node = self.nodes[n.child1 as usize];
        let b: Node = self.nodes[n.child2 as usize];
        let tall: i32 = if a.height >= b.height {
            a.height
        } else {
            b.height
        };
        self.nodes.set(
            i as usize,
            Node { height: 1 + tall, aabb: a.aabb.union(b.aabb), bits: a.bits | b.bits, ..n },
        );
        proof {
            let l2 = self.lay();
            assert forall|x: u32| x < l.nodes.len() implies (#[trigger] l2.at(x)).parent == l.at(
                x,
            ).parent && l2.at(x).child1 == l.at(x).child1 && l2.at(x).child2 == l.at(x).child2 by {
            }
            assert forall|x: u32| l2.live.contains(x) implies #[trigger] l2.node_ok(x) by {
                assert(l.node_ok(x));
                if !l.leaf(x) {
                    assert(l.node_ok(l.at(x).child1));
                    assert(l.node_ok(l.at(x).child2));
                }
                if x != l.root {
                    assert(l.node_ok(l.at(x).parent));
                }
            }
            let left = gaps.remove(i).insert(l.at(i).parent);
            assert forall|x: u32| l2.live.contains(x) && !left.contains(x) implies #[trigger] l2.fits(
                x,
            ) by {
                assert(l.node_ok(x));
                if x != i {
                    assert(l.fits(x));
                    if !l.leaf(x) {
                        assert(l.node_ok(l.at(x).child1));
                        assert(l.node_ok(l.at(x).child2));
                    }
                }
            }
            assert forall|k: int| 0 <= k < self.spare@.len() implies self.nodes@[(
            #[trigger] self.spare@[k]) as int] == l.nodes[self.spare@[k] as int] by {
            }
            assert forall|x: u32| l.live.contains(x) && l.leaf(x) implies l2.at(x) == l.at(x) by {
                assert(l.node_ok(x));
            }
            assert forall|x: u32| l.live.contains(x) implies l2.leaf(x) == l.leaf(x) by {
                assert(l.node_ok(x));
            }
            assert(l2.proxies() =~= l.proxies());
        }
    }

    /// Work out the numbers of one step of the search.
    fn look<P: Fn(&Aabb, &Aabb) -> Price, S: Fn(u32, u32) -> u32>(
        &self,
        fat: Aabb,
        h: Hunt,
        price: &P,
        plus: &S,
    ) -> (k: Look)
        requires
            self.lay().links(),
            self.live@.contains(h.index),
            !self.lay().leaf(h.index),
            forall|a: &Aabb, b: &Aabb| #[trigger] price.requires((a, b)),
            forall|a: u32, b: u32| #[trigger] plus.requires((a, b)),
        ensures
            looked(self.lay(), fat, h, k, *price, *plus),
    {
        proof {
            assert(self.lay().node_ok(h.index));
            assert(self.lay().node_ok(self.lay().at(h.index).child1));
            assert(self.lay().node_ok(self.lay().at(h.index).child2));
        }
        let a: Node = self.nodes[self.nodes[h.index as usize].child1 as usize];
        let b: Node = self.nodes[self.nodes[h.index as usize].child2 as usize];
        let cost: u32 = plus(h.here.direct, h.inherited);
        let inherited: u32 = plus(h.inherited, h.here.growth);
        let price1: Price = price(&a.aabb, &fat);
        let price2: Price = price(&b.aabb, &fat);
        let (cost1, lower1): (u32, u32) = if a.child1 == NULL {
            (plus(price1.direct, inherited), MOST)
        } else {
            let m: u32 = plus(inherited, price1.direct);
            let lower: u32 = plus(m, price1.slack);
            assert(bounded(inherited, price1, *plus, lower));
            (0, lower)
        };
        let (cost2, lower2): (u32, u32) = if b.child1 == NULL {
            (plus(price2.direct, inherited), MOST)
        } else {
            let m: u32 = plus(inherited, price2.direct);
            let lower: u32 = plus(m, price2.slack);
            assert(bounded(inherited, price2, *plus, lower));
            (0, lower)
        };
        Look { cost, inherited, price1, price2, cost1, cost2, lower1, lower2 }
    }

    /// Pick the existing node the new leaf should pair with: descend one
    /// greedy path from the root, tracking for each candidate the cost of
    /// pairing there plus the growth inflicted on every ancestor, and stop
    /// when no child's lower bound can beat the best seen.
    fn best_sibling<P: Fn(&Aabb, &Aabb) -> Price, S: Fn(u32, u32) -> u32>(
        &self,
        fat: Aabb,
        price: &P,
        plus: &S,
    ) -> (r: u32)
        requires
            self.lay().links(),
            self.root != NULL,
            forall|a: &Aabb, b: &Aabb| #[trigger] price.requires((a, b)),
            forall|a: u32, b: u32| #[trigger] plus.requires((a, b)),
        ensures
            self.live@.contains(r),
            settles(self.lay(), fat, *price, *plus, r),
    {
        let ghost l = self.lay();
        assert(l.node_ok(l.root));
        let here: Price = price(&self.nodes[self.root as usize].aabb, &fat);
        let mut h: Hunt = Hunt {
            index: self.root,
            here,
            inherited: 0,
            best: self.root,
            best_cost: here.direct,
        };
        let ghost mut hs: Seq<Hunt> = seq![h];
        let ghost mut ks: Seq<Look> = Seq::empty();
        loop
            invariant
                l == self.lay(),
                l.links(),
                l.live.contains(h.index),
                l.live.contains(h.best),
                forall|a: &Aabb, b: &Aabb| #[trigger] price.requires((a, b)),
                forall|a: u32, b: u32| #[trigger] plus.requires((a, b)),
                hs.len() > 0,
                hs.last() == h,
                hunt_run(l, fat, hs, ks, *price, *plus),
            decreases l.r(h.index),
        {
            proof {
                assert(l.node_ok(h.index));
            }
            let n: Node = self.nodes[h.index as usize];
            if n.child1 == NULL {
                proof {
                    let k = arbitrary::<Look>();
                    let _ = looked(l, fat, hs.last(), k, *price, *plus);
                    assert(settles(l, fat, *price, *plus, h.best));
                }
                return h.best;
            }
            let k: Look = self.look(fat, h, price, plus);
            proof {
                assert(l.node_ok(n.child1));
                assert(l.node_ok(n.child2));
            }
            let leaf1: bool = self.nodes[n.child1 as usize].child1 == NULL;
            let leaf2: bool = self.nodes[n.child2 as usize].child1 == NULL;
            let mut best: u32 = h.best;
            let mut best_cost: u32 = h.best_cost;
            if num_lt(k.cost, best_cost) {
                best = h.index;
                best_cost = k.cost;
            }
            if leaf1 && num_lt(k.cost1, best_cost) {
                best = n.child1;
                best_cost = k.cost1;
            }
            if leaf2 && num_lt(k.cost2, best_cost) {
                best = n.child2;
                best_cost = k.cost2;
            }
            assert((best, best_cost) == weighed(l, h, k));
            if (leaf1 && leaf2) || (num_le(best_cost, k.lower1) && num_le(best_cost, k.lower2)) {
                assert(looked(l, fat, hs.last(), k, *price, *plus));
                assert(settles(l, fat, *price, *plus, best));
                return best;
            }
            // Between equal bounds area cannot decide; the nearer centre does.
            let tie: bool = num_le(k.lower1, k.lower2) && num_le(k.lower2, k.lower1) && !leaf1;
            let first: bool = !leaf1 && if tie {
                num_lt(k.price1.gap, k.price2.gap)
            } else {
                num_lt(k.lower1, k.lower2)
            };
            let next: Hunt = Hunt {
                index: if first {
                    n.child1
                } else {
                    n.child2
                },
                here: if first {
                    k.price1
                } else {
                    k.price2
                },
                inherited: k.inherited,
                best,
                best_cost,
            };
            proof {
                let was = hs;
                let saw = ks;
                assert(strode(l, fat, h, k, *price, *plus, next));
                hs = was.push(next);
                ks = saw.push(k);
                assert forall|i: int| 0 <= i < ks.len() implies strode(
                    l,
                    fat,
                    hs[i],
                    #[trigger] ks[i],
                    *price,
                    *plus,
                    hs[i + 1],
                ) by {
                    if i < saw.len() {
                        assert(ks[i] == saw[i] && hs[i] == was[i] && hs[i + 1] == was[i + 1]);
                    }
                }
            }
            h = next;
        }
    }

    /// Turn the parent's link to `from` — or the root — to `to`.
    fn hang(&mut self, parent: u32, from: u32, to: u32)
        requires
            parent == NULL || parent < old(self).nodes@.len(),
        ensures
            final(self).nodes@ == hung(old(self).nodes@, parent, from, to),
            final(self).root == if parent == NULL {
                to
            } else {
                old(self).root
            },
            final(self).free == old(self).free,
            final(self).leaves == old(self).leaves,
            final(self).live == old(self).live,
            final(self).rank == old(self).rank,
            final(self).spare == old(self).spare,
    {
        if parent == NULL {
            self.root = to;
        } else {
            let n: Node = self.nodes[parent as usize];
            if n.child1 == from {
                self.nodes.set(parent as usize, Node { child1: to, ..n });
            } else {
                self.nodes.set(parent as usize, Node { child2: to, ..n });
            }
        }
    }

    /// The links of a rotation; the boxes of `a` and `c` are left stale.
    #[verifier::rlimit(40)]
    fn relink(&mut self, c: u32, a: u32)
        requires
            old(self).lay().links(),
            old(self).lay().fitted(set![a, old(self).lay().at(a).parent]),
            old(self).listed(),
            old(self).live@.contains(a),
            !old(self).lay().leaf(a),
            old(self).lay().at(a).child1 == c || old(self).lay().at(a).child2 == c,
            !old(self).lay().leaf(c),
        ensures
            final(self).shape() == relinked(old(self).shape(), c, a),
            final(self).lay().links(),
            final(self).lay().fitted(set![a, c, old(self).lay().at(a).parent]),
            final(self).listed(),
            final(self).live == old(self).live,
            final(self).live@.contains(c),
            !final(self).lay().leaf(a),
            !final(self).lay().leaf(c),
            final(self).lay().r(a) < final(self).lay().r(c),
            final(self).lay().at(a).parent == c,
            final(self).lay().at(c).parent == old(self).lay().at(a).parent,
            c == final(self).root <==> old(self).lay().at(a).parent == NULL,
            final(self).spare == old(self).spare,
            final(self).leaves == old(self).leaves,
            final(self).nodes@.len() == old(self).nodes@.len(),
            final(self).lay().proxies() == old(self).lay().proxies(),
            higher(final(self).lay(), c) =~= higher(old(self).lay(), a),
    {
        let ghost l = self.lay();
        proof {
            assert(l.node_ok(a));
            assert(l.node_ok(c));
            assert(l.node_ok(l.at(c).child1));
            assert(l.node_ok(l.at(c).child2));
            if a != l.root {
                assert(l.node_ok(l.at(a).parent));
            }
        }
        let n: Node = self.nodes[c as usize];
        let ap: u32 = self.nodes[a as usize].parent;
        // `c` keeps the taller of its children; the shorter one fills the
        // slot `a` lost.
        let (keep, give): (u32, u32) = if self.nodes[n.child1 as usize].height
            >= self.nodes[n.child2 as usize].height {
            (n.child1, n.child2)
        } else {
            (n.child2, n.child1)
        };
        self.nodes.set(c as usize, Node { parent: ap, child1: a, child2: keep, ..n });
        self.hang(ap, a, c);
        let m: Node = self.nodes[a as usize];
        if m.child1 == c {
            self.nodes.set(a as usize, Node { parent: c, child1: give, ..m });
        } else {
            self.nodes.set(a as usize, Node { parent: c, child2: give, ..m });
        }
        let g: Node = self.nodes[give as usize];
        self.nodes.set(give as usize, Node { parent: a, ..g });
        proof {
            assert(self.nodes@ =~= rotated(l.nodes, a, c, keep, give)) by {
                reveal(rotated);
            }
            let l2 = rotate_links(l, a, c, keep, give);
            self.rank@ = l2.rank;
            assert(self.lay() == l2);
            rotated_at(l.nodes, a, c, keep, give);
            assert forall|k: int| 0 <= k < self.spare@.len() implies self.nodes@[(
            #[trigger] self.spare@[k]) as int] == l.nodes[self.spare@[k] as int] by {
                assert(!l.live.contains(self.spare@[k]));
            }
            assert forall|x: int|
                higher(l2, c).contains(x) <==> higher(l, a).contains(x) by {
                if 0 <= x < l.nodes.len() {
                    let _ = l.r(x as u32);
                }
            }
        }
    }

    /// Rotate child `c` above its parent `a`: `c` takes `a`'s slot, `a`
    /// becomes `c`'s child, and `c`'s shorter grandchild moves to the slot
    /// `c` vacated on `a`.
    fn rotate_up(&mut self, c: u32, a: u32) -> (r: u32)
        requires
            old(self).lay().links(),
            old(self).lay().fitted(set![a, old(self).lay().at(a).parent]),
            old(self).listed(),
            old(self).live@.contains(a),
            !old(self).lay().leaf(a),
            old(self).lay().at(a).child1 == c || old(self).lay().at(a).child2 == c,
            !old(self).lay().leaf(c),
        ensures
            r == c,
            final(self).shape() == rotated_up(old(self).shape(), c, a),
            final(self).lay().links(),
            final(self).lay().fitted(set![old(self).lay().at(a).parent]),
            final(self).listed(),
            final(self).live == old(self).live,
            final(self).live@.contains(c),
            !final(self).lay().leaf(c),
            final(self).lay().at(c).parent == old(self).lay().at(a).parent,
            final(self).spare == old(self).spare,
            final(self).leaves == old(self).leaves,
            final(self).nodes@.len() == old(self).nodes@.len(),
            final(self).lay().proxies() == old(self).lay().proxies(),
            higher(final(self).lay(), c).len() == higher(old(self).lay(), a).len(),
    {
        let ghost ap = self.lay().at(a).parent;
        let ghost was = higher(self.lay(), a);
        self.relink(c, a);
        self.rederive_pair(a, c);
        assert(higher(self.lay(), c) =~= was);
        c
    }

    /// Only `a` and its new parent `c` changed shape; re-derive them
    /// bottom-up.
    fn rederive_pair(&mut self, a: u32, c: u32)
        requires
            old(self).lay().links(),
            old(self).lay().fitted(set![a, c, old(self).lay().at(c).parent]),
            old(self).listed(),
            old(self).live@.contains(a),
            old(self).live@.contains(c),
            !old(self).lay().leaf(a),
            !old(self).lay().leaf(c),
            old(self).lay().at(a).parent == c,
            old(self).lay().r(a) < old(self).lay().r(c),
        ensures
            final(self).shape() == derived_at(derived_at(old(self).shape(), a), c),
            final(self).lay().links(),
            final(self).lay().fitted(set![old(self).lay().at(c).parent]),
            final(self).listed(),
            final(self).live == old(self).live,
            final(self).rank == old(self).rank,
            !final(self).lay().leaf(c),
            final(self).lay().at(c).parent == old(self).lay().at(c).parent,
            final(self).spare == old(self).spare,
            final(self).leaves == old(self).leaves,
            final(self).nodes@.len() == old(self).nodes@.len(),
            final(self).lay().proxies() == old(self).lay().proxies(),
    {
        let ghost l2 = self.lay();
        let ghost ap = l2.at(c).parent;
        let ghost three = set![a, c, ap];
        let ghost two = set![c, ap];
        proof {
            assert(l2.node_ok(a));
            assert(l2.node_ok(c));
            assert(l2.live.contains(ap) ==> l2.r(c) < l2.r(ap)) by {
                if l2.live.contains(ap) {
                    assert(l2.node_ok(ap));
                }
            }
            assert(ap != a && ap != c && a != c);
            assert(three.remove(a).insert(c) =~= two);
            assert(two.remove(c).insert(ap) =~= set![ap]);
        }
        self.derive(a, Ghost(three));
        self.derive(c, Ghost(two));
    }

    /// When one child of `a` is two levels taller than the other, the taller
    /// child rotates up to become `a`'s parent. Returns the node now
    /// occupying `a`'s position.
    fn balance(&mut self, a: u32) -> (r: u32)
        requires
            old(self).lay().links(),
            old(self).lay().fitted(set![a, old(self).lay().at(a).parent]),
            old(self).listed(),
            old(self).live@.contains(a),
            !old(self).lay().leaf(a),
        ensures
            (final(self).shape(), r) == balanced(old(self).shape(), a),
            final(self).lay().links(),
            final(self).lay().fitted(set![r, old(self).lay().at(a).parent]),
            final(self).listed(),
            final(self).live == old(self).live,
            final(self).live@.contains(r),
            !final(self).lay().leaf(r),
            final(self).lay().at(r).parent == old(self).lay().at(a).parent,
            final(self).spare == old(self).spare,
            final(self).leaves == old(self).leaves,
            final(self).nodes@.len() == old(self).nodes@.len(),
            final(self).lay().proxies() == old(self).lay().proxies(),
            higher(final(self).lay(), r).len() == higher(old(self).lay(), a).len(),
    {
        let ghost l = self.lay();
        proof {
            assert(l.node_ok(a));
            assert(l.node_ok(l.at(a).child1));
            assert(l.node_ok(l.at(a).child2));
        }
        let n: Node = self.nodes[a as usize];
        if n.height < 2 {
            return a;
        }
        let b: i32 = self.nodes[n.child1 as usize].height;
        let c: i32 = self.nodes[n.child2 as usize].height;
        let diff: i32 = c - b;
        if diff > 1 {
            self.rotate_up(n.child2, a)
        } else if diff < -1 {
            self.rotate_up(n.child1, a)
        } else {
            a
        }
    }

    /// One level of the walk to the root: balance at `i`, re-derive what is
    /// there now, give its parent.
    fn climb_one(&mut self, i: u32) -> (r: u32)
        requires
            old(self).lay().links(),
            old(self).lay().fitted(set![i, old(self).lay().at(i).parent]),
            old(self).listed(),
            old(self).live@.contains(i),
            !old(self).lay().leaf(i),
        ensures
            (final(self).shape(), r) == climbed((old(self).shape(), i)),
            final(self).lay().links(),
            r == NULL ==> final(self).lay().fitted(Set::empty()),
            r != NULL ==> {
                &&& final(self).lay().fitted(set![r, final(self).lay().at(r).parent])
                &&& final(self).live@.contains(r)
                &&& !final(self).lay().leaf(r)
                &&& higher(final(self).lay(), r).len() < higher(old(self).lay(), i).len()
            },
            final(self).listed(),
            final(self).live == old(self).live,
            final(self).spare == old(self).spare,
            final(self).leaves == old(self).leaves,
            final(self).nodes@.len() == old(self).nodes@.len(),
            final(self).lay().proxies() == old(self).lay().proxies(),
    {
        let at: u32 = self.balance(i);
        let ghost l1 = self.lay();
        proof {
            assert(l1.node_ok(at));
            let p = l1.at(at).parent;
            if at != l1.root {
                assert(l1.node_ok(p));
                higher_shrinks(l1, at);
            } else {
                assert(!l1.live.contains(p)) by {
                    if l1.live.contains(p) {
                        assert(l1.node_ok(p));
                    }
                }
                assert(l1.fitted(set![at])) by {
                    assert forall|x: u32|
                        l1.live.contains(x) && !set![at].contains(x) implies #[trigger] l1.fits(
                        x,
                    ) by {
                        assert(!set![at, p].contains(x));
                    }
                }
            }
        }
        let up: u32 = self.nodes[at as usize].parent;
        let ghost gaps = if up == NULL {
            set![at]
        } else {
            set![at, up]
        };
        self.derive(at, Ghost(gaps));
        proof {
            let l2 = self.lay();
            assert(gaps.remove(at).insert(up) =~= set![up]);
            if up != NULL {
                assert(l1.node_ok(up));
                assert(higher(l2, up) =~= higher(l1, up));
                fitted_widens(l2, set![up], set![up, l2.at(up).parent]);
            } else {
                assert forall|x: u32| l2.live.contains(x) implies #[trigger] l2.fits(x) by {
                    assert(l2.node_ok(x));
                    assert(!set![up].contains(x));
                }
            }
        }
        up
    }

    /// Walk from `start` to the root re-deriving each node's box, bits and
    /// height from its children, rotating where imbalanced.
    fn refit_up(&mut self, start: u32)
        requires
            old(self).lay().links(),
            start == NULL ==> old(self).lay().fitted(Set::empty()),
            start != NULL ==> old(self).lay().fitted(
                set![start, old(self).lay().at(start).parent],
            ),
            old(self).listed(),
            start != NULL ==> old(self).live@.contains(start) && !old(self).lay().leaf(start),
        ensures
            refitted(old(self).shape(), start, final(self).shape()),
            final(self).lay().links(),
            final(self).lay().fitted(Set::empty()),
            final(self).listed(),
            final(self).live == old(self).live,
            final(self).spare == old(self).spare,
            final(self).leaves == old(self).leaves,
            final(self).nodes@.len() == old(self).nodes@.len(),
            final(self).lay().proxies() == old(self).lay().proxies(),
    {
        let mut i: u32 = start;
        let ghost mut walk: Seq<(Shape, u32)> = seq![(self.shape(), start)];
        while i != NULL
            invariant
                walk.len() > 0,
                walk[0] == (old(self).shape(), start),
                walk.last() == (self.shape(), i),
                steps(walk),
                self.lay().links(),
                i == NULL ==> self.lay().fitted(Set::empty()),
                i != NULL ==> self.lay().fitted(set![i, self.lay().at(i).parent]),
                self.listed(),
                i != NULL ==> self.live@.contains(i) && !self.lay().leaf(i),
                self.live == old(self).live,
                self.spare == old(self).spare,
                self.leaves == old(self).leaves,
                self.nodes@.len() == old(self).nodes@.len(),
                self.lay().proxies() == old(self).lay().proxies(),
            decreases
                    if i == NULL {
                        0
                    } else {
                        higher(self.lay(), i).len() + 1
                    },
        {
            i = self.climb_one(i);
            proof {
                one_step_more(walk, (self.shape(), i));
                walk = walk.push((self.shape(), i));
            }
        }
        assert(climb(walk));
    }

    /// Make an unlinked leaf the root of an empty tree.
    fn plant(&mut self, leaf: u32)
        requires
            old(self).lay().links(),
            old(self).listed(),
            old(self).root == NULL,
            leaf < old(self).nodes@.len(),
            !old(self).spare@.contains(leaf),
            old(self).lay().at(leaf).child1 == NULL,
            old(self).lay().at(leaf).child2 == NULL,
            old(self).lay().at(leaf).height == 0,
        ensures
            final(self).nodes@ == old(self).nodes@.update(
                leaf as int,
                Node { parent: NULL, ..old(self).nodes@[leaf as int] },
            ),
            final(self).root == leaf,
            final(self).free == old(self).free,
            final(self).spare == old(self).spare,
            final(self).leaves == old(self).leaves,
            final(self).lay().links(),
            final(self).lay().fitted(Set::empty()),
            final(self).listed(),
            final(self).lay().proxies() == old(self).lay().proxies().insert(
                leaf,
                Proxy {
                    fat: old(self).lay().at(leaf).aabb,
                    bits: old(self).lay().at(leaf).bits,
                    id: old(self).lay().at(leaf).id,
                },
            ),
    {
        let ghost l = self.lay();
        let n: Node = self.nodes[leaf as usize];
        self.root = leaf;
        self.nodes.set(leaf as usize, Node { parent: NULL, ..n });
        proof {
            self.live@ = self.live@.insert(leaf);
            let l2 = self.lay();
            assert forall|i: u32| l2.live.contains(i) implies #[trigger] l2.node_ok(i)
                && l2.fits(i) by {
                assert(i == leaf);
            }
            assert(l2.live.contains(leaf));
            assert(l2.fitted(Set::empty()));
            assert(l2.proxies() =~= l.proxies().insert(
                leaf,
                Proxy { fat: l.at(leaf).aabb, bits: l.at(leaf).bits, id: l.at(leaf).id },
            ));
        }
    }

    /// Splice a fresh parent in between a sibling and its old parent, with an
    /// unlinked leaf as its other child.
    fn pair(&mut self, leaf: u32, sibling: u32) -> (p: u32)
        requires
            old(self).lay().links(),
            old(self).lay().fitted(Set::empty()),
            old(self).listed(),
            old(self).nodes@.len() < NULL || old(self).spare@.len() > 0,
            leaf < old(self).nodes@.len(),
            !old(self).live@.contains(leaf),
            !old(self).spare@.contains(leaf),
            old(self).lay().at(leaf).child1 == NULL,
            old(self).lay().at(leaf).child2 == NULL,
            old(self).lay().at(leaf).height == 0,
            old(self).live@.contains(sibling),
        ensures
            p == old(self).head(),
            final(self).shape() == paired(old(self).shape(), p, sibling, leaf),
            final(self).lay().links(),
            final(self).lay().fitted(set![p, final(self).lay().at(p).parent]),
            final(self).live@.contains(p),
            !final(self).lay().leaf(p),
            p != NULL,
            final(self).listed(),
            final(self).free == old(self).following(),
            final(self).leaves == old(self).leaves,
            drew(old(self).stock(), final(self).stock(), 1),
            final(self).lay().proxies() == old(self).lay().proxies().insert(
                leaf,
                Proxy {
                    fat: old(self).lay().at(leaf).aabb,
                    bits: old(self).lay().at(leaf).bits,
                    id: old(self).lay().at(leaf).id,
                },
            ),
    {
        let ghost l = self.lay();
        let n: Node = self.nodes[leaf as usize];
        proof {
            assert(l.node_ok(sibling));
            tall_needs_more(l, sibling, leaf);
            if sibling != l.root {
                assert(l.node_ok(l.at(sibling).parent));
            }
        }
        let s: Node = self.nodes[sibling as usize];
        let p: u32 = self.take_slot(
            Node {
                aabb: n.aabb.union(s.aabb),
                bits: n.bits | s.bits,
                id: Id(0),
                parent: s.parent,
                child1: sibling,
                child2: leaf,
                height: s.height + 1,
            },
        );
        let ghost l1 = self.lay();
        self.nodes.set(sibling as usize, Node { parent: p, ..s });
        self.nodes.set(leaf as usize, Node { parent: p, ..n });
        self.hang(s.parent, sibling, p);
        proof {
            assert(l1.at(sibling) == l.at(sibling) && l1.at(leaf) == l.at(leaf));
            let l2 = splice_links(l1, p, sibling, leaf);
            self.live@ = l2.live;
            self.rank@ = l2.rank;
            assert(self.nodes@ =~= spliced(l1.nodes, p, sibling, leaf));
            assert(self.lay() == l2);
            let spare = self.spare@;
            assert forall|k: int| 0 <= k < spare.len() implies {
                &&& (#[trigger] spare[k]) < self.nodes@.len()
                &&& !self.live@.contains(spare[k])
                &&& self.nodes@[spare[k] as int] == l1.nodes[spare[k] as int]
            } by {
                assert(spare.contains(spare[k]));
                assert(!l1.live.contains(spare[k]));
            }
            assert(l2.at(p).parent == s.parent);
            assert(self.shape() == paired(
                Shape { nodes: l.nodes, root: l.root },
                p,
                sibling,
                leaf,
            ));
        }
        p
    }

    /// Link an unlinked leaf into the tree.
    fn insert_leaf<P: Fn(&Aabb, &Aabb) -> Price, S: Fn(u32, u32) -> u32>(
        &mut self,
        leaf: u32,
        price: &P,
        plus: &S,
    )
        requires
            old(self).lay().links(),
            old(self).lay().fitted(Set::empty()),
            old(self).listed(),
            old(self).nodes@.len() < NULL || old(self).spare@.len() > 0 || old(self).root == NULL,
            leaf < old(self).nodes@.len(),
            !old(self).live@.contains(leaf),
            !old(self).spare@.contains(leaf),
            old(self).lay().at(leaf).child1 == NULL,
            old(self).lay().at(leaf).child2 == NULL,
            old(self).lay().at(leaf).height == 0,
            forall|a: &Aabb, b: &Aabb| #[trigger] price.requires((a, b)),
            forall|a: u32, b: u32| #[trigger] plus.requires((a, b)),
        ensures
            leaf_joined(
                old(self).lay(),
                old(self).head(),
                leaf,
                *price,
                *plus,
                final(self).shape(),
            ),
            final(self).free == old(self).free_past_join(),
            final(self).lay().links(),
            final(self).lay().fitted(Set::empty()),
            final(self).listed(),
            final(self).leaves == old(self).leaves,
            old(self).root == NULL ==> final(self).stock() == old(self).stock(),
            old(self).root != NULL ==> drew(old(self).stock(), final(self).stock(), 1),
            final(self).lay().proxies() == old(self).lay().proxies().insert(
                leaf,
                Proxy {
                    fat: old(self).lay().at(leaf).aabb,
                    bits: old(self).lay().at(leaf).bits,
                    id: old(self).lay().at(leaf).id,
                },
            ),
    {
        let ghost l = self.lay();
        if self.root == NULL {
            self.plant(leaf);
            return;
        }
        let sibling: u32 = self.best_sibling(self.nodes[leaf as usize].aabb, price, plus);
        let p: u32 = self.pair(leaf, sibling);
        self.refit_up(p);
    }

    /// Take a linked leaf out of the tree; its parent goes with it.
    fn remove_leaf(&mut self, leaf: u32)
        requires
            old(self).lay().links(),
            old(self).lay().fitted(Set::empty()),
            old(self).listed(),
            old(self).live@.contains(leaf),
            old(self).lay().leaf(leaf),
        ensures
            leaf_left(old(self).shape(), old(self).free, leaf, final(self).shape()),
            final(self).free == old(self).free_past_leave(leaf),
            final(self).lay().links(),
            final(self).lay().fitted(Set::empty()),
            final(self).listed(),
            final(self).leaves == old(self).leaves,
            final(self).nodes@.len() == old(self).nodes@.len(),
            final(self).root == NULL <==> old(self).root == leaf,
            final(self).spare@ == if old(self).root == leaf {
                old(self).spare@
            } else {
                seq![old(self).nodes@[leaf as int].parent] + old(self).spare@
            },
            !final(self).live@.contains(leaf),
            !final(self).spare@.contains(leaf),
            final(self).lay().proxies() == old(self).lay().proxies().remove(leaf),
    {
        let ghost l = self.lay();
        assert(l.node_ok(leaf));
        if self.root == leaf {
            self.root = NULL;
            proof {
                assert forall|x: u32| l.live.contains(x) implies x == leaf by {
                    all_below_root(l, x);
                    assert(l.below(leaf) =~= set![leaf as int]);
                }
                self.live@ = self.live@.remove(leaf);
                assert(self.live@ =~= Set::empty());
                assert(self.lay().proxies() =~= l.proxies().remove(leaf));
                assert(!self.spare@.contains(leaf));
            }
            return;
        }
        let ghost l2 = cut_links(l, leaf);
        let parent: u32 = self.nodes[leaf as usize].parent;
        proof {
            assert(l.node_ok(parent));
        }
        let up: Node = self.nodes[parent as usize];
        let grand: u32 = up.parent;
        let sibling: u32 = if up.child1 == leaf {
            up.child2
        } else {
            up.child1
        };
        proof {
            assert(l.node_ok(sibling));
            if grand != NULL {
                assert(l.node_ok(grand));
            }
        }
        let s: Node = self.nodes[sibling as usize];
        self.nodes.set(sibling as usize, Node { parent: grand, ..s });
        self.hang(grand, parent, sibling);
        proof {
            assert(self.nodes@ =~= cut(l.nodes, leaf));
            self.live@ = l2.live;
            assert(self.lay() == l2);
            let spare = self.spare@;
            assert forall|k: int| 0 <= k < spare.len() implies {
                &&& (#[trigger] spare[k]) < self.nodes@.len()
                &&& !self.live@.contains(spare[k])
                &&& self.nodes@[spare[k] as int] == l.nodes[spare[k] as int]
            } by {
                assert(!l.live.contains(spare[k]));
            }
            assert(!spare.contains(parent) && !spare.contains(leaf));
        }
        self.free_slot(parent);
        proof {
            let l3 = self.lay();
            assert forall|i: u32| l2.live.contains(i) implies l3.at(i) == l2.at(i) by {
                assert(l2.node_ok(i));
            }
            assert forall|i: u32| l3.live.contains(i) implies #[trigger] l3.node_ok(i) && l3.fits(
                i,
            ) == l2.fits(i) by {
                assert(l2.node_ok(i));
                if !l2.leaf(i) {
                    assert(l2.node_ok(l2.at(i).child1));
                    assert(l2.node_ok(l2.at(i).child2));
                }
                if i != l2.root {
                    assert(l2.node_ok(l2.at(i).parent));
                }
            }
            let gaps = set![grand];
            assert forall|i: u32| l3.live.contains(i) && !gaps.contains(i) implies #[trigger] l3.fits(
                i,
            ) by {
                assert(l3.node_ok(i));
                assert(l2.fits(i));
            }
            assert(l3.proxies() =~= l2.proxies());
            if grand == NULL {
                assert forall|i: u32| l3.live.contains(i) implies #[trigger] l3.fits(i) by {
                    assert(l3.node_ok(i));
                    assert(!gaps.contains(i));
                }
            } else {
                fitted_widens(l3, gaps, set![grand, l3.at(grand).parent]);
            }
            assert(!self.spare@.contains(leaf)) by {
                if self.spare@.contains(leaf) {
                    let k = choose|k: int| 0 <= k < self.spare@.len() && self.spare@[k] == leaf;
                    assert(k > 0);
                }
            }
        }
        self.refit_up(grand);
    }

    // --- entries ------------------------------------------------------------

    /// Add an entry under its fat box. Returns the proxy used by `update`
    /// and `remove`. `price` puts a number on pairing the leaf with a node
    /// and `plus` adds two such numbers.
    pub fn insert<P: Fn(&Aabb, &Aabb) -> Price, S: Fn(u32, u32) -> u32>(
        &mut self,
        fat: Aabb,
        bits: u64,
        id: Id,
        price: &P,
        plus: &S,
    ) -> (r: u32)
        requires
            old(self).wf(),
            old(self).slots() + 2 <= NULL,
            forall|a: &Aabb, b: &Aabb| #[trigger] price.requires((a, b)),
            forall|a: u32, b: u32| #[trigger] plus.requires((a, b)),
        ensures
            final(self).wf(),
            r == old(self).next(),
            !old(self)@.contains_key(r),
            final(self)@ == old(self)@.insert(r, Proxy { fat, bits, id }),
            final(self).joined_by(*old(self), r, Proxy { fat, bits, id }, *price, *plus),
            (final(self).spares(), final(self).slots()) == drawn(
                old(self).spares(),
                old(self).slots(),
                if old(self)@.dom() == Set::<u32>::empty() {
                    1
                } else {
                    2
                },
            ),
    {
        let ghost before = self@;
        let leaf: u32 = self.take_slot(
            Node { aabb: fat, bits, id, parent: NULL, child1: NULL, child2: NULL, height: 0 },
        );
        let ghost mid = *self;
        self.insert_leaf(leaf, price, plus);
        proof {
            roots_hold_entries(old(self).lay());
            if old(self).root != NULL {
                drew_twice(old(self).stock(), mid.stock(), self.stock());
            }
            reveal(drew);
            assert(self@.dom() =~= before.dom().insert(leaf));
            assert(before.dom().len() < usize::MAX) by {
                assert(before.dom().subset_of(old(self).live@));
                live_fits(old(self).lay());
                vstd::set_lib::lemma_len_subset(before.dom(), old(self).live@);
            }
        }
        self.leaves = self.leaves + 1;
        proof {
            assert(self@ == before.insert(leaf, Proxy { fat, bits, id }));
            let node = Node {
                aabb: fat,
                bits,
                id,
                parent: NULL,
                child1: NULL,
                child2: NULL,
                height: 0,
            };
            assert(mid.took(*old(self), leaf, node));
        }
        leaf
    }

    /// Drop an entry.
    #[verifier::rlimit(30)]
    pub fn remove(&mut self, proxy: u32)
        requires
            old(self).wf(),
            old(self)@.contains_key(proxy),
        ensures
            final(self).wf(),
            final(self)@ == old(self)@.remove(proxy),
            final(self).left_by(*old(self), proxy),
            final(self).next() == proxy,
            final(self).slots() == old(self).slots(),
            if final(self)@.dom() == Set::<u32>::empty() {
                final(self).spares() == seq![proxy] + old(self).spares()
            } else {
                exists|parent: u32|
                    final(self).spares() == #[trigger] seq![proxy, parent] + old(self).spares()
            },
    {
        let ghost before = self@;
        proof {
            assert(self.lay().node_ok(proxy));
        }
        self.remove_leaf(proxy);
        let ghost gone = *self;
        let ghost l = self.lay();
        self.free_slot(proxy);
        proof {
            let l2 = self.lay();
            slot_stored(l, l2, proxy);
            assert(self@.dom() =~= before.dom().remove(proxy));
        }
        self.leaves = self.leaves - 1;
        proof {
            assert(self@ == before.remove(proxy));
            assert(self.spare@[0] == proxy);
            assert(self.dropped(*old(self), gone, proxy));
            roots_hold_entries(self.lay());
            let parent = old(self).nodes@[proxy as int].parent;
            assert(seq![proxy] + (seq![parent] + old(self).spare@) =~= seq![proxy, parent]
                + old(self).spare@);
        }
    }

    /// Move an entry to a new box, given tight and fat. While the tight box
    /// still fits in the stored fat one this is a no-op; past the margin the
    /// leaf is re-inserted under the new fat box. Returns whether the tree
    /// changed.
    pub fn update<P: Fn(&Aabb, &Aabb) -> Price, S: Fn(u32, u32) -> u32>(
        &mut self,
        proxy: u32,
        tight: Aabb,
        fat: Aabb,
        price: &P,
        plus: &S,
    ) -> (r: bool)
        requires
            old(self).wf(),
            old(self)@.contains_key(proxy),
            forall|a: &Aabb, b: &Aabb| #[trigger] price.requires((a, b)),
            forall|a: u32, b: u32| #[trigger] plus.requires((a, b)),
        ensures
            final(self).wf(),
            r == !encloses(old(self)@[proxy].fat, tight),
            !r ==> *final(self) == *old(self),
            r ==> final(self)@ == old(self)@.insert(
                proxy,
                Proxy { fat, bits: old(self)@[proxy].bits, id: old(self)@[proxy].id },
            ),
            r ==> final(self).moved_by(*old(self), proxy, fat, *price, *plus),
            encloses(fat, tight) ==> encloses(final(self)@[proxy].fat, tight),
            final(self).spares() == old(self).spares(),
            final(self).slots() == old(self).slots(),
    {
        let ghost before = self@;
        proof {
            assert(self.lay().node_ok(proxy));
        }
        let n: Node = self.nodes[proxy as usize];
        if n.aabb.contains(tight) {
            return false;
        }
        self.remove_leaf(proxy);
        let ghost gone = *self;
        let ghost l = self.lay();
        self.nodes.set(proxy as usize, Node { aabb: fat, ..n });
        proof {
            let l2 = self.lay();
            slot_stored(l, l2, proxy);
            let spare = self.spare@;
            assert forall|k: int| 0 <= k < spare.len() implies self.nodes@[(
            #[trigger] spare[k]) as int] == l.nodes[spare[k] as int] by {
                assert(spare.contains(spare[k]));
            }
        }
        let ghost mid = *self;
        self.insert_leaf(proxy, price, plus);
        proof {
            if gone.root != NULL {
                let parent = old(self).nodes@[proxy as int].parent;
                drew_back(old(self).stock(), parent, self.stock());
            }
            assert(mid.reboxed(*old(self), gone, proxy, fat));
            assert(self@ =~= before.insert(
                proxy,
                Proxy { fat, bits: before[proxy].bits, id: before[proxy].id },
            ));
            assert(self@.dom() =~= before.dom());
        }
        true
    }

    /// Run a masked search on to its next entry.
    fn seek_next<F: Fn(&Aabb) -> bool>(
        &self,
        stack: &mut Vec<u32>,
        mask: u64,
        test: &F,
        Ghost(t): Ghost<spec_fn(Aabb) -> bool>,
    ) -> (r: Option<u32>)
        requires
            self.lay().links(),
            forall|k: int|
                0 <= k < old(stack)@.len() ==> self.live@.contains(#[trigger] old(stack)@[k]),
            forall|b: &Aabb| #[trigger] test.requires((b,)),
            forall|b: &Aabb, v: bool| #[trigger] test.ensures((b,), v) ==> v == t(*b),
        ensures
            forall|k: int|
                0 <= k < final(stack)@.len() ==> self.live@.contains(#[trigger] final(stack)@[k]),
            match r {
                None => {
                    &&& self.lay().pending(old(stack)@, t, mask).len() == 0
                    &&& final(stack)@.len() == 0
                },
                Some(p) => {
                    &&& self.live@.contains(p)
                    &&& self.lay().leaf(p)
                    &&& self.lay().pending(old(stack)@, t, mask) == seq![p]
                        + self.lay().pending(final(stack)@, t, mask)
                    &&& self.lay().weight(final(stack)@) < self.lay().weight(old(stack)@)
                },
            },
    {
        let ghost l = self.lay();
        let ghost all = l.pending(stack@, t, mask);
        while stack.len() > 0
            invariant
                l == self.lay(),
                l.links(),
                forall|b: &Aabb| #[trigger] test.requires((b,)),
                forall|b: &Aabb, v: bool| #[trigger] test.ensures((b,), v) ==> v == t(*b),
                all == l.pending(old(stack)@, t, mask),
                all == l.pending(stack@, t, mask),
                l.weight(stack@) <= l.weight(old(stack)@),
                forall|k: int| 0 <= k < stack@.len() ==> l.live.contains(#[trigger] stack@[k]),
            decreases l.weight(stack@),
        {
            let ghost before = stack@;
            let i: u32 = stack.pop().unwrap();
            proof {
                assert(before[before.len() - 1] == i);
                assert(l.node_ok(i));
                assert(before =~= stack@.push(i));
                pending_pops(l, stack@, i, t, mask);
            }
            let n: Node = self.nodes[i as usize];
            let enter: bool = n.bits & mask != 0 && test(&n.aabb);
            assert(enter == (l.at(i).bits & mask != 0 && t(l.at(i).aabb)));
            if enter {
                if n.child1 == NULL {
                    assert(l.found(i, t, mask) == seq![i]);
                    return Some(i);
                }
                proof {
                    pending_opens(l, stack@, i, t, mask);
                    assert(l.found(i, t, mask) == l.found(n.child2, t, mask) + l.found(
                        n.child1,
                        t,
                        mask,
                    ));
                }
                stack.push(n.child1);
                stack.push(n.child2);
            } else {
                assert(l.found(i, t, mask) == Seq::<u32>::empty());
                assert(all =~= l.pending(stack@, t, mask));
            }
        }
        None
    }

    /// Every entry whose fat box overlaps `aabb` and whose bits intersect
    /// `mask`. Subtrees whose combined bits miss the mask are pruned without
    /// visiting.
    pub fn query(&self, aabb: Aabb, mask: u64) -> (r: Vec<Id>)
        requires
            self.wf(),
        ensures
            r@ == ids_of(self@, self.seek(meeting(aabb), mask)),
    {
        let mut out: Vec<Id> = Vec::new();
        let ghost l = self.lay();
        let ghost test = meeting(aabb);
        if self.root == NULL {
            return out;
        }
        let meets = |b: &Aabb| -> (r: bool)
            ensures
                r == overlapping(*b, aabb),
            { b.overlaps(aabb) };
        let mut stack: Vec<u32> = Vec::new();
        stack.push(self.root);
        let ghost all = l.found(self.root, test, mask);
        let ghost mut done: Seq<u32> = Seq::empty();
        proof {
            assert(stack@ =~= Seq::empty().push(self.root));
            pending_pops(l, Seq::empty(), self.root, test, mask);
            assert(l.pending(stack@, test, mask) =~= all);
            assert(ids_of(self@, done) =~= Seq::empty());
        }
        loop
            invariant
                l == self.lay(),
                l.links(),
                test == meeting(aabb),
                forall|b: &Aabb| #[trigger] meets.requires((b,)),
                forall|b: &Aabb, r: bool| #[trigger]
                    meets.ensures((b,), r) ==> r == overlapping(*b, aabb),
                all == done + l.pending(stack@, test, mask),
                all == self.seek(test, mask),
                out@ == ids_of(self@, done),
                forall|k: int| 0 <= k < stack@.len() ==> l.live.contains(#[trigger] stack@[k]),
            decreases l.weight(stack@),
        {
            match self.seek_next(&mut stack, mask, &meets, Ghost(test)) {
                None => {
                    assert(all =~= done);
                    return out;
                },
                Some(p) => {
                    assert(l.node_ok(p));
                    out.push(self.nodes[p as usize].id);
                    proof {
                        assert(all =~= done.push(p) + l.pending(stack@, test, mask));
                        assert(out@ =~= ids_of(self@, done.push(p)));
                        done = done.push(p);
                    }
                },
            }
        }
    }

    /// Height of the root (leaves are 0).
    pub fn height(&self) -> (r: i32)
        requires
            self.wf(),
        ensures
            r == self.tallness(),
    {
        if self.root == NULL {
            0
        } else {
            assert(self.lay().node_ok(self.root));
            self.nodes[self.root as usize].height
        }
    }

    /// The height of the root, or zero of an empty tree.
    pub closed spec fn tallness(&self) -> i32 {
        if self.root == NULL {
            0
        } else {
            self.lay().at(self.root).height
        }
    }

    /// Every node, leaf or not, in visiting order.
    spec fn order(&self) -> Seq<u32> {
        if self.root == NULL {
            Seq::empty()
        } else {
            self.lay().listing(self.root)
        }
    }

    /// The boxes of all nodes in visiting order, each with whether it is an
    /// entry's.
    pub closed spec fn boxes(&self) -> Seq<(Aabb, bool)> {
        Seq::new(
            self.order().len(),
            |k: int|
                (self.lay().at(self.order()[k]).aabb, self.lay().leaf(self.order()[k])),
        )
    }

    /// Run a full visit on to its next node.
    fn visit_next(&self, stack: &mut Vec<u32>) -> (r: Option<u32>)
        requires
            self.lay().links(),
            forall|k: int|
                0 <= k < old(stack)@.len() ==> self.live@.contains(#[trigger] old(stack)@[k]),
        ensures
            forall|k: int|
                0 <= k < final(stack)@.len() ==> self.live@.contains(#[trigger] final(stack)@[k]),
            match r {
                None => old(stack)@.len() == 0,
                Some(p) => {
                    &&& self.live@.contains(p)
                    &&& self.lay().unlisted(old(stack)@) == seq![p] + self.lay().unlisted(
                        final(stack)@,
                    )
                    &&& self.lay().weight(final(stack)@) < self.lay().weight(old(stack)@)
                },
            },
    {
        let ghost before = stack@;
        match stack.pop() {
            None => None,
            Some(i) => {
                proof {
                    assert(before[before.len() - 1] == i);
                    assert(before =~= stack@.push(i));
                    assert(self.lay().node_ok(i));
                    unlisted_opens(self.lay(), stack@, i);
                }
                let n: Node = self.nodes[i as usize];
                if n.child1 != NULL {
                    stack.push(n.child1);
                    stack.push(n.child2);
                }
                Some(i)
            },
        }
    }

    /// The start of a full visit.
    fn visit(&self) -> (stack: Vec<u32>)
        requires
            self.lay().links(),
        ensures
            forall|k: int| 0 <= k < stack@.len() ==> self.live@.contains(#[trigger] stack@[k]),
            self.lay().unlisted(stack@) == self.order(),
    {
        let mut stack: Vec<u32> = Vec::new();
        if self.root != NULL {
            stack.push(self.root);
            proof {
                let none = Seq::<u32>::empty();
                assert(stack@ =~= none.push(self.root));
                assert(stack@.drop_last() =~= none);
                assert(self.lay().unlisted(none) =~= none);
                assert(self.lay().unlisted(stack@) =~= self.order());
            }
        }
        stack
    }

    /// Every node's box, leaves and internals — for debug draws.
    pub fn walk(&self) -> (r: Vec<(Aabb, bool)>)
        requires
            self.wf(),
        ensures
            r@ == self.boxes(),
    {
        let ghost l = self.lay();
        let mut stack: Vec<u32> = self.visit();
        let mut out: Vec<(Aabb, bool)> = Vec::new();
        let ghost mut done: Seq<u32> = Seq::empty();
        assert(self.order() =~= done + l.unlisted(stack@));
        loop
            invariant
                l == self.lay(),
                l.links(),
                self.order() == done + l.unlisted(stack@),
                out@.len() == done.len(),
                forall|k: int|
                    0 <= k < done.len() ==> #[trigger] out@[k] == (
                        l.at(done[k]).aabb,
                        l.leaf(done[k]),
                    ),
                forall|k: int| 0 <= k < stack@.len() ==> l.live.contains(#[trigger] stack@[k]),
            decreases l.weight(stack@),
        {
            match self.visit_next(&mut stack) {
                None => {
                    assert(done =~= self.order());
                    assert(out@ =~= self.boxes());
                    return out;
                },
                Some(i) => {
                    assert(l.node_ok(i));
                    let n: Node = self.nodes[i as usize];
                    out.push((n.aabb, n.child1 == NULL));
                    proof {
                        assert(self.order() =~= done.push(i) + l.unlisted(stack@));
                        done = done.push(i);
                    }
                },
            }
        }
    }

    /// Every internal box contains the boxes of its children.
    pub closed spec fn nested(&self) -> bool {
        forall|i: u32|
            self.live@.contains(i) ==> #[trigger] self.nests(i)
    }

    spec fn nests(&self, i: u32) -> bool {
        let l = self.lay();
        !l.leaf(i) ==> encloses(l.at(i).aabb, l.at(l.at(i).child1).aabb) && encloses(
            l.at(i).aabb,
            l.at(l.at(i).child2).aabb,
        )
    }

    /// Re-check one node against its neighbours.
    fn node_valid(&self, i: u32) -> (r: bool)
        requires
            self.lay().links(),
            self.lay().fitted(Set::empty()),
            self.live@.contains(i),
        ensures
            r == self.nests(i),
    {
        let ghost l = self.lay();
        assert(l.node_ok(i));
        assert(l.fits(i));
        let n: Node = self.nodes[i as usize];
        if n.height < 0 {
            return false;
        }
        if n.child1 == NULL {
            return n.height == 0 && n.child2 == NULL;
        }
        proof {
            assert(l.node_ok(n.child1));
            assert(l.node_ok(n.child2));
            children_count(l, i, Set::empty());
        }
        let a: Node = self.nodes[n.child1 as usize];
        let b: Node = self.nodes[n.child2 as usize];
        let tall: i32 = if a.height >= b.height {
            a.height
        } else {
            b.height
        };
        a.parent == i && b.parent == i && n.height == 1 + tall && n.bits == a.bits | b.bits
            && n.aabb.contains(a.aabb) && n.aabb.contains(b.aabb)
    }

    /// Check every structural invariant: parent links, box containment, bits
    /// coverage, height math, leaf count. Of a tree built by these
    /// operations only containment can fail, and only over a box that is
    /// not made of numbers.
    pub fn validate(&self) -> (r: bool)
        requires
            self.wf(),
        ensures
            r == self.nested(),
    {
        let ghost l = self.lay();
        if self.root == NULL {
            proof {
                assert(self@.dom() =~= Set::empty());
                assert(self.nested());
            }
            return self.leaves == 0;
        }
        proof {
            assert(l.node_ok(self.root));
            listing_exact(l, self.root);
            live_fits(l);
        }
        if self.nodes[self.root as usize].parent != NULL {
            return false;
        }
        let mut count: usize = 0;
        let mut stack: Vec<u32> = self.visit();
        let ghost mut done: Seq<u32> = Seq::empty();
        let ghost mut seen: Set<u32> = Set::empty();
        assert(self.order() =~= done + l.unlisted(stack@));
        loop
            invariant
                l == self.lay(),
                l.links(),
                l.fitted(Set::empty()),
                self.leaves == self@.dom().len(),
                self.root != NULL,
                self.order() == done + l.unlisted(stack@),
                self.order() == l.listing(self.root),
                l.listing(self.root).no_duplicates(),
                forall|y: u32| #[trigger]
                    l.listing(self.root).contains(y) <==> l.below(self.root).contains(y as int),
                forall|y: u32| seen.contains(y) <==> #[trigger] done.contains(y) && l.leaf(y),
                seen.finite(),
                count == seen.len(),
                seen.subset_of(l.live),
                l.live.finite(),
                l.live.len() <= l.nodes.len(),
                forall|k: int| 0 <= k < done.len() ==> self.nests(#[trigger] done[k]),
                forall|k: int| 0 <= k < stack@.len() ==> l.live.contains(#[trigger] stack@[k]),
            decreases l.weight(stack@),
        {
            match self.visit_next(&mut stack) {
                None => {
                    proof {
                        assert(done =~= self.order());
                        assert forall|i: u32| l.live.contains(i) implies done.contains(i) by {
                            all_below_root(l, i);
                            assert(l.listing(self.root).contains(i));
                        }
                        assert forall|i: u32| seen.contains(i) <==> self@.dom().contains(i) by {
                            assert(seen.contains(i) <==> done.contains(i) && l.leaf(i));
                        }
                        assert(seen =~= self@.dom());
                        assert forall|i: u32| self.live@.contains(i) implies #[trigger] self.nests(
                            i,
                        ) by {
                            assert(done.contains(i));
                        }
                    }
                    return count == self.leaves;
                },
                Some(i) => {
                    assert(l.node_ok(i));
                    if !self.node_valid(i) {
                        return false;
                    }
                    proof {
                        let rest = l.unlisted(stack@);
                        assert(self.order() =~= done.push(i) + rest);
                        listing_grows(self.order(), done, i, rest);
                        vstd::set_lib::lemma_len_subset(seen, l.live);
                    }
                    if self.nodes[i as usize].child1 == NULL {
                        proof {
                            assert(seen.insert(i).subset_of(l.live));
                            vstd::set_lib::lemma_len_subset(seen.insert(i), l.live);
                            seen = seen.insert(i);
                        }
                        count = count + 1;
                    }
                    proof {
                        done = done.push(i);
                    }
                },
            }
        }
    }

    /// Begin sweeping a segment through the tree, over entries whose bits
    /// intersect `mask`.
    pub fn cast(&self, mask: u64) -> (r: Sweep)
        requires
            self.wf(),
        ensures
            r.wf(),
            r.over() == *self,
            r.mask() == mask,
            r.within() == WHOLE,
            forall|test: spec_fn(Aabb) -> bool| #[trigger]
                r.left(test) == self.seek(test, mask),
    {
        let mut stack: Vec<u32> = Vec::new();
        if self.root != NULL {
            stack.push(self.root);
        }
        let r = Sweep { tree: self, stack, bits: mask, reach: WHOLE };
        proof {
            let l = self.lay();
            assert forall|test: spec_fn(Aabb) -> bool| #[trigger]
                r.left(test) == self.seek(test, mask) by {
                if self.root != NULL {
                    assert(r.stack@ =~= Seq::empty().push(self.root));
                    pending_pops(l, Seq::empty(), self.root, test, mask);
                    assert(l.pending(r.stack@, test, mask) =~= l.found(self.root, test, mask));
                }
            }
        }
        r
    }
}

// --- sweeping ---------------------------------------------------------------

/// The whole segment, as the pattern of the number one.
pub const WHOLE: u32 = 0x3f80_0000;

/// A segment on its way through the tree. Candidates come one at a time;
/// after each the caller may clip the search to the part of the segment
/// before its exact hit. The tree only vouches for boxes.
pub struct Sweep<'a> {
    tree: &'a DynamicTree,
    stack: Vec<u32>,
    bits: u64,
    reach: u32,
}

/// What a box test answers when asked up to `reach`.
pub open spec fn crossing<F: Fn(&Aabb, u32) -> bool>(crosses: F, reach: u32) -> spec_fn(
    Aabb,
) -> bool {
    |b: Aabb| crosses.ensures((&b, reach), true)
}

impl<'a> Sweep<'a> {
    pub closed spec fn wf(&self) -> bool {
        &&& self.tree.wf()
        &&& forall|k: int|
            0 <= k < self.stack@.len() ==> self.tree.live@.contains(#[trigger] self.stack@[k])
    }

    /// The tree swept.
    pub closed spec fn over(&self) -> DynamicTree {
        *self.tree
    }

    /// The categories swept for.
    pub closed spec fn mask(&self) -> u64 {
        self.bits
    }

    /// The fraction of the segment still searched, as a pattern.
    pub closed spec fn within(&self) -> u32 {
        self.reach
    }

    /// The candidates to come if no test changes its answer.
    pub closed spec fn left(&self, test: spec_fn(Aabb) -> bool) -> Seq<u32> {
        self.tree.lay().pending(self.stack@, test, self.bits)
    }

    /// The next entry whose fat box the swept segment crosses. `crosses`
    /// tells whether a box is hit within a fraction of the segment, and
    /// always answers the same.
    pub fn next<F: Fn(&Aabb, u32) -> bool>(&mut self, crosses: &F) -> (r: Option<Id>)
        requires
            old(self).wf(),
            forall|b: &Aabb, t: u32| #[trigger] crosses.requires((b, t)),
            forall|b: &Aabb, t: u32| #[trigger]
                crosses.ensures((b, t), true) ==> !crosses.ensures((b, t), false),
        ensures
            final(self).wf(),
            final(self).over() == old(self).over(),
            final(self).mask() == old(self).mask(),
            final(self).within() == old(self).within(),
            ({
                let test = crossing(*crosses, old(self).within());
                let left = old(self).left(test);
                match r {
                    None => left.len() == 0 && final(self).left(test).len() == 0,
                    Some(id) => {
                        &&& left.len() > 0
                        &&& final(self).left(test) == left.drop_first()
                        &&& old(self).over()@.contains_key(left[0])
                        &&& old(self).over()@[left[0]].bits & old(self).mask() != 0
                        &&& test(old(self).over()@[left[0]].fat)
                        &&& id == old(self).over()@[left[0]].id
                    },
                }
            }),
    {
        let reach: u32 = self.reach;
        let ghost test = crossing(*crosses, reach);
        let ghost l = self.tree.lay();
        let ghost before = self.stack@;
        let here = |b: &Aabb| -> (r: bool)
            requires
                crosses.requires((b, reach)),
            ensures
                crosses.ensures((b, reach), r),
            { crosses(b, reach) };
        assert forall|b: &Aabb, v: bool| #[trigger] here.ensures((b,), v) implies v == test(*b) by {
            if !v {
                assert(crosses.ensures((b, reach), false));
            }
        }
        match self.tree.seek_next(&mut self.stack, self.bits, &here, Ghost(test)) {
            None => {
                assert(l.pending(self.stack@, test, self.bits).len() == 0);
                None
            },
            Some(p) => {
                proof {
                    assert(l.node_ok(p));
                    let left = l.pending(before, test, self.bits);
                    assert(left[0] == p);
                    assert(left.drop_first() =~= l.pending(self.stack@, test, self.bits));
                    pending_wanted(l, before, test, self.bits);
                    assert(wanted(l, left[0], test, self.bits));
                }
                Some(self.tree.nodes[p as usize].id)
            },
        }
    }

    /// Clip the search to the first `t` of the segment — the whole pattern
    /// keeps looking everywhere, zero stops.
    pub fn clip(&mut self, t: u32)
        requires
            old(self).wf(),
        ensures
            final(self).wf(),
            final(self).over() == old(self).over(),
            final(self).mask() == old(self).mask(),
            final(self).within() == least(t, old(self).within()),
            forall|test: spec_fn(Aabb) -> bool| #[trigger]
                final(self).left(test) == if le_num(final(self).within(), 0) {
                    Seq::empty()
                } else {
                    old(self).left(test)
                },
    {
        self.reach = num_min(t, self.reach);
        if num_le(self.reach, 0) {
            self.stack = Vec::new();
        }
    }
}

// --- what the broadphase promises -------------------------------------------

/// A search with a test that grows with the box reports every entry it is
/// meant to, each once, and no other.
pub proof fn search_is_exact(tree: DynamicTree, test: spec_fn(Aabb) -> bool, mask: u64)
    requires
        tree.wf(),
        grows(test),
    ensures
        tree.seek(test, mask).no_duplicates(),
        forall|p: u32| #[trigger]
            tree.seek(test, mask).contains(p) <==> tree@.contains_key(p) && tree@[p].bits & mask
                != 0 && test(tree@[p].fat),
{
    let l = tree.lay();
    let all = tree.seek(test, mask);
    if tree.root != NULL {
        found_sound(l, tree.root, test, mask);
        below_basics(l, tree.root);
    }
    assert forall|p: u32| #[trigger] all.contains(p) <==> tree@.contains_key(p) && tree@[p].bits
        & mask != 0 && test(tree@[p].fat) by {
        if all.contains(p) {
            let k = choose|k: int| 0 <= k < all.len() && all[k] == p;
            assert(wanted(l, all[k], test, mask));
        }
        if tree@.contains_key(p) && tree@[p].bits & mask != 0 && test(tree@[p].fat) {
            all_below_root(l, p);
            found_complete(l, tree.root, p, test, mask);
        }
    }
}

/// A query reports exactly the entries whose fat box overlaps the queried
/// box and whose bits meet the mask, each once: it never under-reports, and
/// never over-reports beyond the fat boxes.
pub proof fn query_is_exact(tree: DynamicTree, q: Aabb, mask: u64)
    requires
        tree.wf(),
    ensures
        tree.seek(meeting(q), mask).no_duplicates(),
        forall|p: u32| #[trigger]
            tree.seek(meeting(q), mask).contains(p) <==> tree@.contains_key(p)
                && tree@[p].bits & mask != 0 && overlapping(tree@[p].fat, q),
{
    let test = meeting(q);
    assert forall|a: Aabb, b: Aabb| test(a) || test(b) implies test(#[trigger] joined(a, b)) by {
        union_keeps_overlaps(a, b, q);
    }
    search_is_exact(tree, test, mask);
}

/// As long as an entry's tight box lies inside its stored fat box, no query
/// that overlaps the tight box misses the entry.
pub proof fn tight_boxes_are_found(tree: DynamicTree, p: u32, tight: Aabb, q: Aabb, mask: u64)
    requires
        tree.wf(),
        tree@.contains_key(p),
        encloses(tree@[p].fat, tight),
        overlapping(tight, q),
        tree@[p].bits & mask != 0,
    ensures
        tree.seek(meeting(q), mask).contains(p),
{
    enclosed_overlaps_less(tree@[p].fat, tight, q);
    query_is_exact(tree, q, mask);
}

/// Every entry's stored box encloses the tight box last given for it.
pub open spec fn boxes_hold(entries: Map<u32, Proxy>, tight: Map<u32, Aabb>) -> bool {
    &&& tight.dom() == entries.dom()
    &&& forall|p: u32| #[trigger]
        entries.contains_key(p) ==> encloses(entries[p].fat, tight[p])
}

/// As long as every fat box handed in encloses its tight box, what `insert`,
/// `update` and `remove` make of the entries keeps every stored box around
/// the tight box last given for it: a new entry, a moved one, one that moved
/// within its stored box, and one taken out.
pub proof fn calls_keep_boxes_holding(
    entries: Map<u32, Proxy>,
    tight: Map<u32, Aabb>,
    p: u32,
    entry: Proxy,
    to: Aabb,
)
    requires
        boxes_hold(entries, tight),
    ensures
        boxes_hold(Map::<u32, Proxy>::empty(), Map::<u32, Aabb>::empty()),
        encloses(entry.fat, to) ==> boxes_hold(entries.insert(p, entry), tight.insert(p, to)),
        entries.contains_key(p) && encloses(entries[p].fat, to) ==> boxes_hold(
            entries,
            tight.insert(p, to),
        ),
        boxes_hold(entries.remove(p), tight.remove(p)),
{
    assert(entries.insert(p, entry).dom() =~= tight.insert(p, to).dom());
    assert(entries.remove(p).dom() =~= tight.remove(p).dom());
    assert(entries.contains_key(p) ==> entries.dom() =~= tight.insert(p, to).dom());
    assert(Map::<u32, Proxy>::empty().dom() =~= Map::<u32, Aabb>::empty().dom());
}

/// No query misses: in a tree whose stored boxes hold the tight ones, every
/// entry whose tight box overlaps the queried one and whose bits meet the
/// mask is reported.
pub proof fn no_query_misses_a_tight_box(
    tree: DynamicTree,
    tight: Map<u32, Aabb>,
    p: u32,
    q: Aabb,
    mask: u64,
)
    requires
        tree.wf(),
        boxes_hold(tree@, tight),
        tree@.contains_key(p),
        overlapping(tight[p], q),
        tree@[p].bits & mask != 0,
    ensures
        tree.seek(meeting(q), mask).contains(p),
{
    tight_boxes_are_found(tree, p, tight[p], q, mask);
}

/// A tree over boxes made of numbers is always valid.
pub proof fn numeric_trees_are_valid(tree: DynamicTree)
    requires
        tree.wf(),
        forall|p: u32| #[trigger] tree@.contains_key(p) ==> numeric(tree@[p].fat),
    ensures
        tree.nested(),
{
    let l = tree.lay();
    assert forall|i: u32| tree.live@.contains(i) implies #[trigger] tree.nests(i) by {
        boxes_numeric(l, i);
    }
}

proof fn boxes_numeric(l: Lay, x: u32)
    requires
        l.links(),
        l.fitted(Set::empty()),
        l.live.contains(x),
        forall|p: u32| #[trigger]
            l.proxies().contains_key(p) ==> numeric(l.proxies()[p].fat),
    ensures
        numeric(l.at(x).aabb),
        !l.leaf(x) ==> encloses(l.at(x).aabb, l.at(l.at(x).child1).aabb) && encloses(
            l.at(x).aabb,
            l.at(l.at(x).child2).aabb,
        ),
    decreases l.r(x),
{
    assert(l.node_ok(x));
    assert(l.fits(x));
    if l.leaf(x) {
        assert(l.proxies().contains_key(x));
    } else {
        let a = l.at(x).child1;
        let b = l.at(x).child2;
        boxes_numeric(l, a);
        boxes_numeric(l, b);
        union_encloses_both(l.at(a).aabb, l.at(b).aabb);
    }
}

// --- how the tree is shaped -------------------------------------------------

impl DynamicTree {
    /// Whether a slot is linked into the tree.
    pub closed spec fn linked(&self, i: u32) -> bool {
        self.live@.contains(i)
    }

    /// Whether a slot holds a node with children.
    pub closed spec fn parents(&self, i: u32) -> bool {
        self.live@.contains(i) && !self.lay().leaf(i)
    }

    /// The slot at the top.
    pub closed spec fn top(&self) -> u32 {
        self.root
    }

    /// What re-balancing node `a` does: nothing where its children's heights
    /// are within one of each other or it is too low to turn; otherwise its
    /// taller child comes up over it, keeps its own taller child and hands the
    /// shorter down in its place, and both are derived anew.
    pub closed spec fn turns_where_lopsided(&self, a: u32) -> bool {
        let l = self.lay();
        let n = l.at(a);
        let (h1, h2) = (l.at(n.child1).height, l.at(n.child2).height);
        let (s, i) = balanced(self.shape(), a);
        &&& n.height < 2 || -1 <= h2 - h1 <= 1 ==> s == self.shape() && i == a
        &&& n.height >= 2 && !(-1 <= h2 - h1 <= 1) ==> {
            let up = if h2 > h1 {
                n.child2
            } else {
                n.child1
            };
            let stays = if h2 > h1 {
                n.child1
            } else {
                n.child2
            };
            let (f, g) = (l.at(up).child1, l.at(up).child2);
            let (keep, give) = if l.at(f).height >= l.at(g).height {
                (f, g)
            } else {
                (g, f)
            };
            let (top, low) = (s.nodes[up as int], s.nodes[a as int]);
            &&& i == up
            &&& top.child1 == a && top.child2 == keep
            &&& low.child1 == give && low.child2 == stays || low.child1 == stays && low.child2
                == give
            &&& top.parent == n.parent && low.parent == up
            &&& s.nodes[give as int].parent == a
            &&& n.parent == NULL ==> s.root == up
            &&& n.parent != NULL ==> s.root == self.root
            &&& low.aabb == joined(l.at(low.child1).aabb, l.at(low.child2).aabb)
            &&& low.bits == l.at(give).bits | l.at(stays).bits || low.bits == l.at(stays).bits
                | l.at(give).bits
            &&& low.height == 1 + taller(l.at(give).height, l.at(stays).height)
            &&& top.aabb == joined(low.aabb, l.at(keep).aabb)
            &&& top.bits == low.bits | l.at(keep).bits
            &&& top.height == 1 + taller(low.height, l.at(keep).height)
        }
    }

    /// What a look round a node decides: the cheapest place known is kept, of
    /// the best so far, the node itself and its leaf children; the search
    /// stops where both children are leaves or neither side can come cheaper;
    /// it goes on into the side with the lesser bound, the nearer one of two
    /// alike, and never into a leaf on the first side.
    pub closed spec fn hunts_the_cheapest(&self) -> bool {
        let l = self.lay();
        &&& forall|h: Hunt, k: Look|
            {
                let (best, cost) = #[trigger] weighed(l, h, k);
                let c1 = l.at(h.index).child1;
                let c2 = l.at(h.index).child2;
                !nan(h.best_cost) && !nan(k.cost) && !nan(k.cost1) && !nan(k.cost2) ==> {
                    &&& le_num(cost, h.best_cost) && le_num(cost, k.cost)
                    &&& l.leaf(c1) ==> le_num(cost, k.cost1)
                    &&& l.leaf(c2) ==> le_num(cost, k.cost2)
                    &&& (best == h.best && cost == h.best_cost) || (best == h.index && cost
                        == k.cost) || (l.leaf(c1) && best == c1 && cost == k.cost1) || (l.leaf(c2)
                        && best == c2 && cost == k.cost2)
                    &&& le_num(h.best_cost, k.cost) && (l.leaf(c1) ==> le_num(h.best_cost, k.cost1))
                        && (l.leaf(c2) ==> le_num(h.best_cost, k.cost2)) ==> best == h.best
                }
            }
        &&& forall|h: Hunt, k: Look|
            {
                let c1 = l.at(h.index).child1;
                let c2 = l.at(h.index).child2;
                let cost = weighed(l, h, k).1;
                #[trigger] stops(l, h, k) <==> (l.leaf(c1) && l.leaf(c2)) || (le_num(cost, k.lower1)
                    && le_num(cost, k.lower2))
            }
        &&& forall|h: Hunt, k: Look|
            {
                let c1 = l.at(h.index).child1;
                let c2 = l.at(h.index).child2;
                let on = #[trigger] gone(l, h, k);
                &&& on.index == c1 || on.index == c2
                &&& l.leaf(c1) ==> on.index == c2
                &&& !l.leaf(c1) && lt_num(k.lower1, k.lower2) ==> on.index == c1
                &&& lt_num(k.lower2, k.lower1) ==> on.index == c2
                &&& !l.leaf(c1) && k.lower1 == k.lower2 && lt_num(k.price1.gap, k.price2.gap)
                    && !nan(k.lower1) ==> on.index == c1
                &&& k.lower1 == k.lower2 && le_num(k.price2.gap, k.price1.gap) ==> on.index == c2
                &&& c1 != c2 && on.index == c1 ==> on.here == k.price1
                &&& c1 != c2 && on.index == c2 ==> on.here == k.price2
                &&& on.inherited == k.inherited
                &&& (on.best, on.best_cost) == weighed(l, h, k)
            }
    }

    /// What planting beside a node does: the new parent stands where the node
    /// stood, with the node first and the leaf second, holds both, and the
    /// rest of the tree keeps its links.
    pub closed spec fn plants_beside(&self, p: u32, sib: u32, leaf: u32, x: u32) -> bool {
        let l = self.lay();
        let s = paired(self.shape(), p, sib, leaf);
        let up = l.at(sib).parent;
        let made = s.nodes[p as int];
        &&& made.parent == up && made.child1 == sib && made.child2 == leaf
        &&& made.aabb == joined(l.at(leaf).aabb, l.at(sib).aabb)
        &&& made.bits == l.at(leaf).bits | l.at(sib).bits
        &&& s.nodes[sib as int] == (Node { parent: p, ..l.at(sib) })
        &&& s.nodes[leaf as int] == (Node { parent: p, ..l.at(leaf) })
        &&& up == NULL ==> s.root == p
        &&& up != NULL ==> s.root == self.root
        &&& up != NULL && l.at(up).child1 == sib ==> s.nodes[up as int] == (Node {
            child1: p,
            ..l.at(up)
        })
        &&& up != NULL && l.at(up).child1 != sib ==> s.nodes[up as int] == (Node {
            child2: p,
            ..l.at(up)
        })
        &&& x < l.nodes.len() && x != p && x != sib && x != leaf && x != up ==> s.nodes[x as int]
            == l.at(x)
    }

    /// What taking a leaf out does to the links: its sibling moves up into
    /// its parent's place and nothing else moves.
    pub closed spec fn takes_out(&self, leaf: u32, x: u32) -> bool {
        let l = self.lay();
        let parent = l.at(leaf).parent;
        let grand = l.at(parent).parent;
        let out = cut(l.nodes, leaf);
        let sib = if l.at(parent).child1 == leaf {
            l.at(parent).child2
        } else {
            l.at(parent).child1
        };
        &&& out[sib as int] == (Node { parent: grand, ..l.at(sib) })
        &&& grand != NULL && l.at(grand).child1 == parent ==> out[grand as int] == (Node {
            child1: sib,
            ..l.at(grand)
        })
        &&& grand != NULL && l.at(grand).child1 != parent ==> out[grand as int] == (Node {
            child2: sib,
            ..l.at(grand)
        })
        &&& x < l.nodes.len() && x != sib && x != grand ==> out[x as int] == l.at(x)
    }
}

/// A linked node's kin: in range, apart from it and from one another.
proof fn kin(l: Lay, i: u32)
    requires
        l.links(),
        l.live.contains(i),
    ensures
        i < l.nodes.len() <= NULL,
        l.at(i).height >= 0,
        i == l.root <==> l.at(i).parent == NULL,
        i != l.root ==> l.at(i).parent < l.nodes.len() && l.at(i).parent != i && l.live.contains(
            l.at(i).parent,
        ) && !l.leaf(l.at(i).parent),
        i != l.root ==> l.at(l.at(i).parent).child1 == i || l.at(l.at(i).parent).child2 == i,
        l.leaf(i) ==> l.at(i).height == 0,
        !l.leaf(i) ==> {
            let (c, d) = (l.at(i).child1, l.at(i).child2);
            &&& c < l.nodes.len() && d < l.nodes.len()
            &&& l.live.contains(c) && l.live.contains(d)
            &&& c != d && c != i && d != i
            &&& l.at(i).parent != c && l.at(i).parent != d
            &&& l.at(c).parent == i && l.at(d).parent == i
            &&& l.r(c) < l.r(i) && l.r(d) < l.r(i)
        },
        i != l.root ==> l.r(i) < l.r(l.at(i).parent),
{
    assert(l.node_ok(i));
    if i != l.root {
        assert(l.node_ok(l.at(i).parent));
    }
    if !l.leaf(i) {
        assert(l.node_ok(l.at(i).child1));
        assert(l.node_ok(l.at(i).child2));
    }
}

/// Re-balancing turns a node exactly where its children differ by more than
/// one, over its taller child.
#[verifier::rlimit(60)]
pub proof fn lopsided_nodes_turn(tree: DynamicTree, a: u32)
    requires
        tree.wf(),
        tree.parents(a),
    ensures
        tree.turns_where_lopsided(a),
{
    let l = tree.lay();
    let n = l.at(a);
    kin(l, a);
    kin(l, n.child1);
    kin(l, n.child2);
    let (h1, h2) = (l.at(n.child1).height, l.at(n.child2).height);
    if n.height >= 2 && !(-1 <= h2 - h1 <= 1) {
        let up = if h2 > h1 {
            n.child2
        } else {
            n.child1
        };
        let stays = if h2 > h1 {
            n.child1
        } else {
            n.child2
        };
        let (keep, give) = by_height(l.nodes, up);
        kin(l, keep);
        kin(l, give);
        rotated_at(l.nodes, a, up, keep, give);
        assert(n.parent != keep && n.parent != give && stays != keep && stays != give);
        assert(l.at(stays).height < 0x7fff_ffff && l.at(give).height < 0x7fff_ffff
            && l.at(keep).height < 0x7fff_fffe && l.at(up).height < 0x7fff_ffff) by {
            assert(l.fits(a));
            assert(l.fits(up));
        }
    }
}

/// The search for a place keeps the cheapest it saw and gives up only where
/// nothing cheaper can come.
pub proof fn hunts_keep_the_cheapest(tree: DynamicTree)
    ensures
        tree.hunts_the_cheapest(),
{
}

/// A leaf is planted beside its sibling under a new parent in its place.
pub proof fn leaves_are_planted_beside_their_sibling(
    tree: DynamicTree,
    p: u32,
    sib: u32,
    leaf: u32,
    x: u32,
)
    requires
        tree.wf(),
        p <= tree.slots() < NULL,
        sib != p && sib != leaf && leaf != p,
        leaf < tree.slots(),
        tree.linked(sib),
        !tree.linked(p),
        !tree.linked(leaf),
    ensures
        tree.plants_beside(p, sib, leaf, x),
{
    let l = tree.lay();
    assert(l.node_ok(sib));
    assert(l.at(sib).parent != NULL ==> l.node_ok(l.at(sib).parent));
}

/// A leaf's sibling takes its parent's place.
pub proof fn siblings_move_up(tree: DynamicTree, leaf: u32, x: u32)
    requires
        tree.wf(),
        tree@.contains_key(leaf),
        leaf != tree.top(),
    ensures
        tree.takes_out(leaf, x),
{
    let l = tree.lay();
    kin(l, leaf);
    let parent = l.at(leaf).parent;
    kin(l, parent);
    let grand = l.at(parent).parent;
    if grand != NULL {
        kin(l, grand);
    }
}

/// Fresh slots come off the spares first, in order, and behind the end once
/// those are used up.
pub proof fn slots_come_off_the_spares_first(spares: Seq<u32>, slots: nat, n: nat, k: int)
    ensures
        n <= spares.len() ==> drawn(spares, slots, n).0.len() == spares.len() - n && drawn(
            spares,
            slots,
            n,
        ).1 == slots,
        n <= spares.len() && 0 <= k < spares.len() - n ==> drawn(spares, slots, n).0[k] == spares[n
            + k],
        n > spares.len() ==> drawn(spares, slots, n).0.len() == 0 && drawn(spares, slots, n).1
            == slots + (n - spares.len()),
{
}

/// A look round the node a search stands at: both children are priced
/// against the new box, a leaf with what pairing with it comes to, an inner
/// node with the least it can come to.
spec fn looks_round<P: Fn(&Aabb, &Aabb) -> Price, S: Fn(u32, u32) -> u32>(
    l: Lay,
    fat: Aabb,
    h: Hunt,
    k: Look,
    price: P,
    plus: S,
) -> bool {
    let c1 = l.at(h.index).child1;
    let c2 = l.at(h.index).child2;
    &&& plus.ensures((h.here.direct, h.inherited), k.cost)
    &&& plus.ensures((h.inherited, h.here.growth), k.inherited)
    &&& price.ensures((&l.at(c1).aabb, &fat), k.price1)
    &&& price.ensures((&l.at(c2).aabb, &fat), k.price2)
    &&& l.leaf(c1) ==> plus.ensures((k.price1.direct, k.inherited), k.cost1)
    &&& l.leaf(c2) ==> plus.ensures((k.price2.direct, k.inherited), k.cost2)
    &&& !l.leaf(c1) ==> exists|m: u32| #[trigger]
        plus.ensures((k.inherited, k.price1.direct), m) && plus.ensures(
            (m, k.price1.slack),
            k.lower1,
        )
    &&& !l.leaf(c2) ==> exists|m: u32| #[trigger]
        plus.ensures((k.inherited, k.price2.direct), m) && plus.ensures(
            (m, k.price2.slack),
            k.lower2,
        )
}

/// A search goes on from an inner node it does not stop at, the way its look
/// round says.
spec fn steps_on<P: Fn(&Aabb, &Aabb) -> Price, S: Fn(u32, u32) -> u32>(
    l: Lay,
    fat: Aabb,
    h: Hunt,
    k: Look,
    price: P,
    plus: S,
    on: Hunt,
) -> bool {
    &&& !l.leaf(h.index)
    &&& looks_round(l, fat, h, k, price, plus)
    &&& !stops(l, h, k)
    &&& on == gone(l, h, k)
}

/// A place comes of a search from the top down: it starts out with the top
/// at what pairing with it comes to, looks round every inner node it comes to
/// and goes on until it stops or stands at a leaf; the place is the cheapest
/// kept.
spec fn searched<P: Fn(&Aabb, &Aabb) -> Price, S: Fn(u32, u32) -> u32>(
    l: Lay,
    fat: Aabb,
    price: P,
    plus: S,
    r: u32,
    hs: Seq<Hunt>,
    ks: Seq<Look>,
    k: Look,
) -> bool {
    &&& hs.len() == ks.len() + 1
    &&& hs[0].index == l.root && hs[0].best == l.root
    &&& hs[0].best_cost == hs[0].here.direct && hs[0].inherited == 0
    &&& price.ensures((&l.at(l.root).aabb, &fat), hs[0].here)
    &&& forall|i: int|
        0 <= i < ks.len() ==> steps_on(l, fat, hs[i], #[trigger] ks[i], price, plus, hs[i + 1])
    &&& l.leaf(hs.last().index) ==> r == hs.last().best
    &&& !l.leaf(hs.last().index) ==> looks_round(l, fat, hs.last(), k, price, plus) && stops(
        l,
        hs.last(),
        k,
    ) && r == weighed(l, hs.last(), k).0
}

/// A climb from a node to the top re-balances every node on its way and
/// derives what is there now anew from its children.
spec fn lifted(before: Shape, start: u32, after: Shape, walk: Seq<(Shape, u32)>) -> bool {
    &&& walk.len() > 0
    &&& walk[0] == (before, start)
    &&& walk.last() == (after, NULL)
    &&& forall|k: int|
        0 <= k < walk.len() - 1 ==> {
            let (s, i) = balanced((#[trigger] walk[k]).0, walk[k].1);
            &&& walk[k].1 != NULL
            &&& walk[k + 1].0.nodes == s.nodes.update(i as int, rederived(s.nodes, i))
            &&& walk[k + 1].0.root == s.root
            &&& walk[k + 1].1 == s.nodes[i as int].parent
        }
}

/// A leaf joined in: alone at the top of an empty tree; else beside the place
/// a search finds for its box, with every node above derived anew.
spec fn joins_well<P: Fn(&Aabb, &Aabb) -> Price, S: Fn(u32, u32) -> u32>(
    l: Lay,
    p: u32,
    leaf: u32,
    price: P,
    plus: S,
    after: Shape,
) -> bool {
    &&& l.root == NULL ==> after.root == leaf && after.nodes == l.nodes.update(
        leaf as int,
        Node { parent: NULL, ..l.at(leaf) },
    )
    &&& l.root != NULL ==> exists|
        sib: u32,
        hs: Seq<Hunt>,
        ks: Seq<Look>,
        k: Look,
        walk: Seq<(Shape, u32)>,
    | #[trigger]
        searched(l, l.at(leaf).aabb, price, plus, sib, hs, ks, k) && #[trigger] lifted(
            paired(Shape { nodes: l.nodes, root: l.root }, p, sib, leaf),
            p,
            after,
            walk,
        )
}

/// A search ends here at a place.
spec fn hunt_ends<P: Fn(&Aabb, &Aabb) -> Price, S: Fn(u32, u32) -> u32>(
    l: Lay,
    fat: Aabb,
    price: P,
    plus: S,
    r: u32,
    h: Hunt,
) -> bool {
    if l.leaf(h.index) {
        r == h.best
    } else {
        exists|k: Look| #[trigger]
            looked(l, fat, h, k, price, plus) && stops(l, h, k) && r == weighed(l, h, k).0
    }
}

/// A place settled on was searched for.
#[verifier::rlimit(60)]
proof fn settling_searches<P: Fn(&Aabb, &Aabb) -> Price, S: Fn(u32, u32) -> u32>(
    l: Lay,
    fat: Aabb,
    price: P,
    plus: S,
    r: u32,
) -> (run: (Seq<Hunt>, Seq<Look>, Look))
    requires
        settles(l, fat, price, plus, r),
    ensures
        searched(l, fat, price, plus, r, run.0, run.1, run.2),
{
    assert(exists|hs: Seq<Hunt>, ks: Seq<Look>| #[trigger]
        hunt_run(l, fat, hs, ks, price, plus) && hunt_ends(l, fat, price, plus, r, hs.last()));
    let (hs, ks) = choose|hs: Seq<Hunt>, ks: Seq<Look>| #[trigger]
        hunt_run(l, fat, hs, ks, price, plus) && hunt_ends(l, fat, price, plus, r, hs.last());
    let k = choose|k: Look| #[trigger]
        looked(l, fat, hs.last(), k, price, plus) && stops(l, hs.last(), k) && r == weighed(
            l,
            hs.last(),
            k,
        ).0;
    assert forall|i: int| 0 <= i < ks.len() implies steps_on(
        l,
        fat,
        hs[i],
        #[trigger] ks[i],
        price,
        plus,
        hs[i + 1],
    ) by {
        assert(strode(l, fat, hs[i], ks[i], price, plus, hs[i + 1]));
        looking_looks_round(l, fat, hs[i], ks[i], price, plus);
    }
    assert(outset(l, fat, price, hs[0]));
    if !l.leaf(hs.last().index) {
        assert(looked(l, fat, hs.last(), k, price, plus) && stops(l, hs.last(), k));
        looking_looks_round(l, fat, hs.last(), k, price, plus);
    }
    (hs, ks, k)
}

/// A step's look is a look round.
proof fn looking_looks_round<P: Fn(&Aabb, &Aabb) -> Price, S: Fn(u32, u32) -> u32>(
    l: Lay,
    fat: Aabb,
    h: Hunt,
    k: Look,
    price: P,
    plus: S,
)
    requires
        looked(l, fat, h, k, price, plus),
    ensures
        looks_round(l, fat, h, k, price, plus),
{
}

/// Refitting climbs.
proof fn refitting_climbs(before: Shape, start: u32, after: Shape) -> (walk: Seq<(Shape, u32)>)
    requires
        refitted(before, start, after),
    ensures
        lifted(before, start, after, walk),
{
    let walk = choose|walk: Seq<(Shape, u32)>| #[trigger]
        climb(walk) && walk[0] == (before, start) && walk.last().0 == after;
    assert forall|j: int| 0 <= j < walk.len() - 1 implies ({
        let (s, i) = balanced((#[trigger] walk[j]).0, walk[j].1);
        &&& walk[j].1 != NULL
        &&& walk[j + 1].0.nodes == s.nodes.update(i as int, rederived(s.nodes, i))
        &&& walk[j + 1].0.root == s.root
        &&& walk[j + 1].1 == s.nodes[i as int].parent
    }) by {
        assert(walk[j + 1] == climbed(walk[j]));
    }
    walk
}

/// Joining searches, pairs and climbs.
proof fn joining_searches_and_climbs<P: Fn(&Aabb, &Aabb) -> Price, S: Fn(u32, u32) -> u32>(
    l: Lay,
    p: u32,
    leaf: u32,
    price: P,
    plus: S,
    after: Shape,
)
    requires
        leaf_joined(l, p, leaf, price, plus, after),
    ensures
        joins_well(l, p, leaf, price, plus, after),
{
    if l.root != NULL {
        let fat = l.at(leaf).aabb;
        let before = Shape { nodes: l.nodes, root: l.root };
        let sib = choose|sib: u32| #[trigger]
            settles(l, fat, price, plus, sib) && refitted(paired(before, p, sib, leaf), p, after);
        let (hs, ks, k) = settling_searches(l, fat, price, plus, sib);
        let walk = refitting_climbs(paired(before, p, sib, leaf), p, after);
        assert(searched(l, l.at(leaf).aabb, price, plus, sib, hs, ks, k) && lifted(
            paired(Shape { nodes: l.nodes, root: l.root }, p, sib, leaf),
            p,
            after,
            walk,
        ));
    }
}

/// The nodes hold a leaf as it was but for its box.
spec fn rebox(nodes: Seq<Node>, rest: Seq<Node>, leaf: u32, was: Node, fat: Aabb) -> bool {
    nodes == rest.update(leaf as int, Node { aabb: fat, ..was })
}

impl DynamicTree {
    /// How the tree comes of another by a new leaf.
    pub closed spec fn comes_by_joining<P: Fn(&Aabb, &Aabb) -> Price, S: Fn(u32, u32) -> u32>(
        &self,
        before: DynamicTree,
        leaf: u32,
        entry: Proxy,
        price: P,
        plus: S,
    ) -> bool {
        exists|mid: DynamicTree|
            {
                &&& #[trigger] mid.lay().root == before.root
                &&& mid.nodes@.len() > leaf
                &&& mid.nodes@[leaf as int].aabb == entry.fat
                &&& mid.nodes@[leaf as int].bits == entry.bits
                &&& mid.nodes@[leaf as int].id == entry.id
                &&& mid.nodes@[leaf as int].height == 0
                &&& forall|i: int|
                    0 <= i < before.nodes@.len() && i != leaf ==> #[trigger] mid.nodes@[i]
                        == before.nodes@[i]
                &&& joins_well(mid.lay(), mid.head(), leaf, price, plus, self.shape())
            }
    }

    /// How the tree comes of another by a leaf moving to a new box.
    pub closed spec fn comes_by_moving<P: Fn(&Aabb, &Aabb) -> Price, S: Fn(u32, u32) -> u32>(
        &self,
        before: DynamicTree,
        leaf: u32,
        fat: Aabb,
        price: P,
        plus: S,
    ) -> bool {
        exists|mid: DynamicTree, rest: Seq<Node>|
            #[trigger] rebox(mid.nodes@, rest, leaf, before.nodes@[leaf as int], fat)
                && joins_well(mid.lay(), mid.head(), leaf, price, plus, self.shape())
    }
}

/// A new leaf goes where the search finds it cheapest, and every node above
/// it is re-balanced and derived anew.
pub proof fn new_leaves_go_where_it_is_cheapest<
    P: Fn(&Aabb, &Aabb) -> Price,
    S: Fn(u32, u32) -> u32,
>(tree: DynamicTree, before: DynamicTree, leaf: u32, entry: Proxy, price: P, plus: S)
    requires
        tree.joined_by(before, leaf, entry, price, plus),
        leaf <= before.slots(),
    ensures
        tree.comes_by_joining(before, leaf, entry, price, plus),
{
    let node = Node {
        aabb: entry.fat,
        bits: entry.bits,
        id: entry.id,
        parent: NULL,
        child1: NULL,
        child2: NULL,
        height: 0,
    };
    let mid = choose|mid: DynamicTree| #[trigger]
        mid.took(before, leaf, node) && leaf_joined(
            mid.lay(),
            mid.head(),
            leaf,
            price,
            plus,
            tree.shape(),
        ) && tree.free == mid.free_past_join();
    joining_searches_and_climbs(mid.lay(), mid.head(), leaf, price, plus, tree.shape());
    assert(mid.lay().root == before.root);
}

/// A moved leaf goes where the search finds its new box cheapest, with its
/// payload and categories.
pub proof fn moved_leaves_go_where_it_is_cheapest<
    P: Fn(&Aabb, &Aabb) -> Price,
    S: Fn(u32, u32) -> u32,
>(tree: DynamicTree, before: DynamicTree, leaf: u32, fat: Aabb, price: P, plus: S)
    requires
        tree.moved_by(before, leaf, fat, price, plus),
    ensures
        tree.comes_by_moving(before, leaf, fat, price, plus),
{
    let (gone, mid) = choose|gone: DynamicTree, mid: DynamicTree| #[trigger]
        mid.reboxed(before, gone, leaf, fat) && leaf_joined(
            mid.lay(),
            mid.head(),
            leaf,
            price,
            plus,
            tree.shape(),
        ) && tree.free == mid.free_past_join();
    joining_searches_and_climbs(mid.lay(), mid.head(), leaf, price, plus, tree.shape());
    assert(rebox(mid.nodes@, gone.nodes@, leaf, before.nodes@[leaf as int], fat));
}

impl DynamicTree {
    /// How the tree comes of another by a leaf leaving: an emptied top, or
    /// its sibling in its parent's place with every node above derived anew;
    /// the leaf's slot is the next to be used, its parent's the one after.
    pub closed spec fn comes_by_leaving(&self, before: DynamicTree, leaf: u32) -> bool {
        let parent = before.nodes@[leaf as int].parent;
        let up = before.nodes@[parent as int];
        &&& self.free == leaf
        &&& before.root == leaf ==> self.root == NULL
        &&& before.root != leaf ==> exists|
            from: Shape,
            after: Shape,
            walk: Seq<(Shape, u32)>,
        | #[trigger]
            lifted(from, up.parent, after, walk) && {
                &&& from.nodes == cut(before.nodes@, leaf).update(
                    parent as int,
                    Node {
                        parent: before.free,
                        height: -1i32,
                        ..cut(before.nodes@, leaf)[parent as int]
                    },
                )
                &&& up.parent != NULL ==> from.root == before.root
                &&& up.parent == NULL && up.child1 == leaf ==> from.root == up.child2
                &&& up.parent == NULL && up.child1 != leaf ==> from.root == up.child1
                &&& self.root == after.root
                &&& self.nodes@ == after.nodes.update(
                    leaf as int,
                    Node { parent: parent, height: -1i32, ..after.nodes[leaf as int] },
                )
            }
    }
}

/// A leaf that leaves lets its sibling up, and every node above is
/// re-balanced and derived anew.
pub proof fn leaving_leaves_let_their_sibling_up(tree: DynamicTree, before: DynamicTree, leaf: u32)
    requires
        tree.left_by(before, leaf),
    ensures
        tree.comes_by_leaving(before, leaf),
{
    let gone = choose|gone: DynamicTree| #[trigger] tree.dropped(before, gone, leaf);
    if before.root != leaf {
        let parent = before.nodes@[leaf as int].parent;
        let up = before.nodes@[parent as int];
        let nodes = cut(before.nodes@, leaf);
        let from = Shape {
            nodes: nodes.update(
                parent as int,
                Node { parent: before.free, height: -1i32, ..nodes[parent as int] },
            ),
            root: if up.parent != NULL {
                before.root
            } else if up.child1 == leaf {
                up.child2
            } else {
                up.child1
            },
        };
        let walk = refitting_climbs(from, up.parent, gone.shape());
        assert(lifted(from, up.parent, gone.shape(), walk));
    }
}

/// A query's answer is the payload of each leaf found, in order; a ray's test
/// is whether it crosses the box within its reach.
pub proof fn answers_are_the_payloads<F: Fn(&Aabb, u32) -> bool>(
    entries: Map<u32, Proxy>,
    proxies: Seq<u32>,
    k: int,
    crosses: F,
    reach: u32,
    b: Aabb,
    q: Aabb,
)
    ensures
        ids_of(entries, proxies).len() == proxies.len(),
        0 <= k < proxies.len() ==> ids_of(entries, proxies)[k] == entries[proxies[k]].id,
        crossing(crosses, reach)(b) <==> crosses.ensures((&b, reach), true),
        meeting(q)(b) <==> overlapping(b, q),
{
}

impl Lay {
    /// How far down the farthest leaf below a node is.
    spec fn depth(self, x: u32) -> int
        decreases self.r(x),
    {
        if self.descends(x) {
            let (a, b) = (self.depth(self.at(x).child1), self.depth(self.at(x).child2));
            1 + if a >= b {
                a
            } else {
                b
            }
        } else {
            0
        }
    }
}

impl DynamicTree {
    /// How far below the top the farthest leaf is; 0 for an empty tree.
    pub closed spec fn deepest(&self) -> int {
        if self.root == NULL {
            0
        } else {
            self.lay().depth(self.root)
        }
    }

    /// A search below an inner node that may hold something goes through the
    /// second child before the first; a walk tells the node before both.
    pub closed spec fn goes_second_first(
        &self,
        x: u32,
        test: spec_fn(Aabb) -> bool,
        mask: u64,
    ) -> bool {
        let l = self.lay();
        let (a, b) = (l.at(x).child1, l.at(x).child2);
        let inner = self.linked(x) && a != NULL;
        &&& inner && l.at(x).bits & mask != 0 && test(l.at(x).aabb) ==> l.found(x, test, mask)
            == l.found(b, test, mask) + l.found(a, test, mask)
        &&& l.at(x).bits & mask == 0 || !test(l.at(x).aabb) ==> l.found(x, test, mask).len() == 0
        &&& inner ==> l.listing(x) == seq![x] + l.listing(b) + l.listing(a)
        &&& self.root != NULL ==> self.seek(test, mask) == l.found(self.root, test, mask)
    }
}

/// A tree is as tall as its deepest leaf is deep.
pub proof fn a_tree_is_as_tall_as_it_is_deep(tree: DynamicTree)
    requires
        tree.wf(),
    ensures
        tree.tallness() == tree.deepest(),
{
    if tree.root != NULL {
        height_is_depth(tree.lay(), tree.root);
    }
}

/// A node is as high as its deepest leaf is deep below it.
proof fn height_is_depth(l: Lay, x: u32)
    requires
        l.links(),
        l.fitted(Set::empty()),
        l.live.contains(x),
    ensures
        l.at(x).height == l.depth(x),
    decreases l.r(x),
{
    kin(l, x);
    if !l.leaf(x) {
        height_is_depth(l, l.at(x).child1);
        height_is_depth(l, l.at(x).child2);
        assert(l.fits(x));
    }
}

/// Searches and walks go through the tree in one order.
pub proof fn searches_go_second_first(
    tree: DynamicTree,
    x: u32,
    test: spec_fn(Aabb) -> bool,
    mask: u64,
)
    requires
        tree.wf(),
    ensures
        tree.goes_second_first(x, test, mask),
{
    let l = tree.lay();
    if tree.linked(x) && l.at(x).child1 != NULL {
        kin(l, x);
        let (a, b) = (l.at(x).child1, l.at(x).child2);
        assert(seq![x] + (l.listing(b) + l.listing(a)) =~= seq![x] + l.listing(b) + l.listing(a));
    }
}

/// A walk tells every leaf's box, as a leaf's.
pub proof fn walks_tell_every_leaf(tree: DynamicTree, p: u32)
    requires
        tree.wf(),
        tree@.contains_key(p),
    ensures
        tree.boxes().contains((tree@[p].fat, true)),
{
    let l = tree.lay();
    all_below_root(l, p);
    listing_exact(l, tree.root);
    assert(l.listing(tree.root).contains(p));
    let k = choose|k: int| 0 <= k < l.listing(tree.root).len() && l.listing(tree.root)[k] == p;
    assert(tree.boxes()[k] == (tree@[p].fat, true));
}

} // verus!
