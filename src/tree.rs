//! The ratchet tree as an array of node slots: leaf `i` sits at slot `2i`,
//! inner nodes at odd slots, and ancestry is index arithmetic.
use vstd::prelude::*;

use crate::node::{Node, NodeVec, ParentNode};
use crate::proposal::{LeafIndex, LeafNode};

verus! {

/// Height of slot `x` above the leaves: its number of trailing one bits.
pub open spec fn level(x: nat) -> nat
    decreases x,
{
    if x % 2 == 0 {
        0
    } else {
        1 + level(x / 2)
    }
}

pub open spec fn pow2(k: nat) -> nat
    decreases k,
{
    if k == 0 {
        1
    } else {
        2 * pow2((k - 1) as nat)
    }
}

/// Slot `p` is an inner node whose subtree holds leaf `i`: the subtree of
/// a slot at level `k` spans the slots within `2^k - 1` of it.
pub open spec fn is_ancestor(p: nat, i: nat) -> bool {
    level(p) >= 1 && p + 1 <= 2 * i + pow2(level(p)) && 2 * i + 1 <= p + pow2(level(p))
}

proof fn lemma_pow2_positive(k: nat)
    ensures
        pow2(k) >= 1,
    decreases k,
{
    if k > 0 {
        lemma_pow2_positive((k - 1) as nat);
    }
}

/// Whether slot `p` is an ancestor of leaf `i`.
pub fn covers(p: usize, i: usize) -> (r: bool)
    requires
        p < usize::MAX / 4,
        i < usize::MAX / 4,
    ensures
        r == is_ancestor(p as nat, i as nat),
{
    let mut y: usize = p;
    let mut pw: usize = 1;
    let ghost mut k: nat = 0;
    while y % 2 == 1
        invariant
            level(p as nat) == k + level(y as nat),
            pw == pow2(k),
            p + 1 == (y + 1) * pw,
            p < usize::MAX / 4,
        decreases y,
    {
        proof {
            assert((y + 1) * pw == (y / 2 + 1) * (2 * pw)) by (nonlinear_arith)
                requires y % 2 == 1;
            assert(2 * pw <= p + 1) by (nonlinear_arith)
                requires p + 1 == (y + 1) * pw, y % 2 == 1, pw >= 0;
            assert(level(y as nat) == 1 + level((y / 2) as nat));
        }
        y = y / 2;
        pw = pw * 2;
        proof {
            k = k + 1;
        }
    }
    proof {
        lemma_pow2_positive(k);
        assert(level(y as nat) == 0);
        assert(pw <= p + 1) by (nonlinear_arith)
            requires p + 1 == (y + 1) * pw, pw >= 1;
        if k == 0 {
            assert(pw == 1);
        } else {
            assert(pw == 2 * pow2((k - 1) as nat));
            lemma_pow2_positive((k - 1) as nat);
        }
    }
    pw >= 2 && p + 1 <= 2 * i + pw && 2 * i + 1 <= p + pw
}


/// Most slots a tree may have.
pub const MAX_NODES: usize = 0x0fff_ffff;

/// Why a tree operation was refused; the tree is then unchanged.
#[derive(Debug, Clone, Copy, PartialEq, Eq, Structural)]
pub enum TreeError {
    /// The new leaf's encryption key is already in the tree.
    DuplicateLeafKey,
    /// The tree cannot grow further.
    TreeFull,
    /// No member at that leaf.
    BlankLeaf(u32),
    /// An update proposal from a sender that holds no leaf.
    NotAMember,
}

/// `n` slots make a complete tree: `2^k - 1` slots, or none.
pub open spec fn full_size(n: nat) -> bool
    decreases n,
{
    n == 0 || n == 1 || (n >= 3 && n % 2 == 1 && full_size(((n - 1) / 2) as nat))
}

/// Slot `x` of `s`, blank past the end.
pub open spec fn slot(s: Seq<Option<Node>>, x: int) -> Option<Node> {
    if 0 <= x < s.len() {
        s[x]
    } else {
        None
    }
}

/// Where `x` goes in the increasing sequence `s`: after the elements not
/// greater than it.
pub open spec fn insert_pos(s: Seq<u32>, x: u32) -> nat
    decreases s.len(),
{
    if s.len() == 0 || s[0] > x {
        0
    } else {
        1 + insert_pos(s.drop_first(), x)
    }
}

proof fn lemma_insert_pos(s: Seq<u32>, x: u32)
    ensures
        insert_pos(s, x) <= s.len(),
        forall|j: int| 0 <= j < insert_pos(s, x) ==> #[trigger] s[j] <= x,
        insert_pos(s, x) < s.len() ==> s[insert_pos(s, x) as int] > x,
    decreases s.len(),
{
    if s.len() > 0 && s[0] <= x {
        lemma_insert_pos(s.drop_first(), x);
        assert forall|j: int| 0 <= j < insert_pos(s, x) implies #[trigger] s[j] <= x by {
            if j > 0 {
                assert(s[j] == s.drop_first()[j - 1]);
            }
        }
    }
}

fn insert_sorted(v: &mut Vec<u32>, x: u32)
    ensures
        final(v)@ == old(v)@.insert(insert_pos(old(v)@, x) as int, x),
{
    proof {
        lemma_insert_pos(v@, x);
    }
    let mut j: usize = 0;
    while j < v.len() && v[j] <= x
        invariant
            j <= v@.len(),
            *v == *old(v),
            j <= insert_pos(v@, x),
            insert_pos(v@, x) <= v@.len(),
            forall|m: int| 0 <= m < insert_pos(v@, x) ==> #[trigger] v@[m] <= x,
            insert_pos(v@, x) < v@.len() ==> v@[insert_pos(v@, x) as int] > x,
        decreases v@.len() - j,
    {
        j = j + 1;
    }
    v.insert(j, x);
}

/// `after` is slot `x` of a tree after leaf `i` was added below it, given
/// `before`: an inner node above the leaf lists the leaf as unmerged,
/// anything else is unchanged.
pub open spec fn marked(before: Option<Node>, after: Option<Node>, x: nat, i: nat) -> bool {
    match before {
        Some(Node::Parent(pn)) => if is_ancestor(x, i) {
            after matches Some(Node::Parent(q)) && q.public_key == pn.public_key && q.parent_hash == pn.parent_hash
                && q.unmerged_leaves@ == pn.unmerged_leaves@.insert(insert_pos(pn.unmerged_leaves@, i as u32) as int, i as u32)
        } else {
            after == before
        },
        _ => after == before,
    }
}

fn mark_unmerged(slot: Option<Node>, x: usize, i: usize) -> (r: Option<Node>)
    requires
        x < usize::MAX / 4,
        i < usize::MAX / 4,
        i <= u32::MAX,
    ensures
        marked(slot, r, x as nat, i as nat),
{
    match slot {
        Some(Node::Parent(pn)) => {
            if covers(x, i) {
                let mut unmerged = pn.unmerged_leaves;
                insert_sorted(&mut unmerged, i as u32);
                Some(Node::Parent(ParentNode { public_key: pn.public_key, parent_hash: pn.parent_hash, unmerged_leaves: unmerged }))
            } else {
                Some(Node::Parent(pn))
            }
        },
        other => other,
    }
}

/// Index of the leftmost blank leaf slot of `s` (by leaf number), or the
/// number of leaves if every leaf slot is taken.
pub open spec fn first_blank_leaf(s: Seq<Option<Node>>, from: nat) -> nat
    decreases s.len() + 1 - 2 * from,
{
    if 2 * from >= s.len() {
        from
    } else if s[2 * from as int] is None {
        from
    } else {
        first_blank_leaf(s, from + 1)
    }
}

/// The slot count after truncating blank right halves of `s[..n]`.
pub open spec fn truncated_len(s: Seq<Option<Node>>, n: nat) -> nat
    decreases n,
{
    if n <= 1 {
        n
    } else if forall|x: int| (n + 1) / 2 <= x < n ==> #[trigger] slot(s, x) is None {
        truncated_len(s, ((n - 1) / 2) as nat)
    } else {
        n
    }
}

/// `slot` holds a leaf whose encryption key is `key`.
pub open spec fn leaf_with_key(slot: Option<Node>, key: Seq<u8>) -> bool {
    match slot {
        Some(Node::Leaf(l)) => l.public_key@ == key,
        _ => false,
    }
}

/// `slot` holds a leaf.
pub open spec fn is_leaf(slot: Option<Node>) -> bool {
    slot matches Some(Node::Leaf(_))
}

/// The tree of a group: leaf `i` at slot `2i`, inner nodes at odd slots,
/// `None` for a blank slot.
#[derive(Clone, Debug, PartialEq, Eq)]
pub struct RatchetTree {
    pub nodes: NodeVec,
}

impl RatchetTree {
    pub open spec fn wf(&self) -> bool {
        &&& full_size(self.nodes@.len())
        &&& self.nodes@.len() <= MAX_NODES
    }

    /// Some leaf holds the encryption key `key`.
    pub open spec fn has_leaf_key(&self, key: Seq<u8>) -> bool {
        has_key_in(self.nodes@, key)
    }

    pub fn new() -> (r: RatchetTree)
        ensures
            r.wf(),
            r.nodes@.len() == 0,
    {
        RatchetTree { nodes: Vec::new() }
    }

    /// The leaf at `index`, if that slot holds one.
    pub fn leaf(&self, index: LeafIndex) -> (r: Option<&LeafNode>)
        ensures
            match r {
                Some(l) => 2 * index.0 < self.nodes@.len() && self.nodes@[2 * index.0 as int] == Some(Node::Leaf(*l)),
                None => !(2 * index.0 < self.nodes@.len() && is_leaf(self.nodes@[2 * index.0 as int])),
            },
    {
        let x: u64 = 2 * (index.0 as u64);
        if x < self.nodes.len() as u64 {
            match &self.nodes[x as usize] {
                Some(Node::Leaf(l)) => Some(l),
                _ => None,
            }
        } else {
            None
        }
    }

    fn has_key(&self, key: &[u8]) -> (r: bool)
        ensures
            r == self.has_leaf_key(key@),
    {
        let mut x: usize = 0;
        while x < self.nodes.len()
            invariant
                x <= self.nodes@.len(),
                forall|y: int| 0 <= y < x ==> !#[trigger] leaf_with_key(self.nodes@[y], key@),
            decreases self.nodes@.len() - x,
        {
            match &self.nodes[x] {
                Some(Node::Leaf(l)) => {
                    if crate::rules::bytes_equal(l.public_key.as_slice(), key) {
                        assert(leaf_with_key(self.nodes@[x as int], key@));
                        return true;
                    }
                },
                _ => {},
            }
            x = x + 1;
        }
        false
    }

    fn find_blank_leaf(&self) -> (r: usize)
        requires
            self.nodes@.len() <= MAX_NODES,
        ensures
            r == first_blank_leaf(self.nodes@, 0),
            2 * r <= self.nodes@.len() + 1,
    {
        let mut i: usize = 0;
        while 2 * i < self.nodes.len() && self.nodes[2 * i].is_some()
            invariant
                self.nodes@.len() <= MAX_NODES,
                2 * i <= self.nodes@.len() + 1,
                first_blank_leaf(self.nodes@, i as nat) == first_blank_leaf(self.nodes@, 0),
            decreases self.nodes@.len() + 1 - 2 * i,
        {
            i = i + 1;
        }
        i
    }
}


/// Some leaf of `s` holds the encryption key `key`.
pub open spec fn has_key_in(s: Seq<Option<Node>>, key: Seq<u8>) -> bool {
    exists|x: int| 0 <= x < s.len() && #[trigger] leaf_with_key(s[x], key)
}

/// Slot `2i` of `s` holds a leaf.
pub open spec fn occupied(s: Seq<Option<Node>>, i: u32) -> bool {
    2 * i < s.len() && is_leaf(s[2 * i as int])
}

/// `after` and `r` are what adding `leaf` to the tree `before` gives.
pub open spec fn add_rel(before: Seq<Option<Node>>, after: Seq<Option<Node>>, leaf: LeafNode, r: Result<LeafIndex, TreeError>) -> bool {
    let i = first_blank_leaf(before, 0);
    if has_key_in(before, leaf.public_key@) {
        r == Err::<LeafIndex, TreeError>(TreeError::DuplicateLeafKey) && after == before
    } else if grown_len(before.len(), i) > MAX_NODES {
        r == Err::<LeafIndex, TreeError>(TreeError::TreeFull) && after == before
    } else {
        &&& r == Ok::<LeafIndex, TreeError>(LeafIndex(i as u32))
        &&& after.len() == grown_len(before.len(), i)
        &&& after[2 * i as int] == Some(Node::Leaf(leaf))
        &&& forall|x: int| 0 <= x < after.len() && x != 2 * i ==> #[trigger] marked(slot(before, x), after[x], x as nat, i)
    }
}

/// `after` and `r` are what replacing leaf `i` of `before` by `leaf` gives.
pub open spec fn update_rel(before: Seq<Option<Node>>, after: Seq<Option<Node>>, i: u32, leaf: LeafNode, r: Result<(), TreeError>) -> bool {
    if !occupied(before, i) {
        r == Err::<(), TreeError>(TreeError::BlankLeaf(i)) && after == before
    } else {
        &&& r is Ok
        &&& after.len() == before.len()
        &&& after[2 * i as int] == Some(Node::Leaf(leaf))
        &&& forall|x: int| 0 <= x < after.len() && x != 2 * i ==> #[trigger] after[x] == blanked(before, x, i as nat, false)
    }
}

/// `after` and `r` are what removing leaf `i` of `before` gives.
pub open spec fn remove_rel(before: Seq<Option<Node>>, after: Seq<Option<Node>>, i: u32, r: Result<(), TreeError>) -> bool {
    if !occupied(before, i) {
        r == Err::<(), TreeError>(TreeError::BlankLeaf(i)) && after == before
    } else {
        let b = Seq::new(before.len(), |x: int| blanked(before, x, i as nat, true));
        r is Ok && after == b.take(truncated_len(b, b.len()) as int)
    }
}

/// Slot count after adding a leaf at `i` to a tree of `len` slots.
pub open spec fn grown_len(len: nat, i: nat) -> nat {
    if 2 * i < len {
        len
    } else if len == 0 {
        1
    } else {
        2 * len + 1
    }
}

/// Slot `x` after blanking leaf `i`'s ancestors, and the leaf itself if
/// `with_leaf`.
pub open spec fn blanked(s: Seq<Option<Node>>, x: int, i: nat, with_leaf: bool) -> Option<Node> {
    if (with_leaf && x == 2 * i) || is_ancestor(x as nat, i) {
        None
    } else {
        s[x]
    }
}

fn blank_path(nodes: Vec<Option<Node>>, i: usize, with_leaf: bool) -> (r: Vec<Option<Node>>)
    requires
        nodes@.len() <= MAX_NODES,
        i <= MAX_NODES,
    ensures
        r@.len() == nodes@.len(),
        forall|x: int| 0 <= x < r@.len() ==> #[trigger] r@[x] == blanked(nodes@, x, i as nat, with_leaf),
{
    let ghost all = nodes@;
    let mut rest = nodes;
    let mut out: Vec<Option<Node>> = Vec::new();
    let mut x: usize = 0;
    while rest.len() > 0
        invariant
            all.len() <= MAX_NODES,
            i <= MAX_NODES,
            x + rest@.len() == all.len(),
            rest@ == all.skip(x as int),
            out@.len() == x,
            forall|y: int| 0 <= y < x ==> #[trigger] out@[y] == blanked(all, y, i as nat, with_leaf),
        decreases rest@.len(),
    {
        let v = rest.remove(0);
        assert(v == all[x as int]);
        let b = if (with_leaf && x == 2 * i) || covers(x, i) {
            None
        } else {
            v
        };
        out.push(b);
        x = x + 1;
    }
    out
}

impl RatchetTree {
    /// Add `leaf` in the leftmost blank leaf slot, growing the tree to twice
    /// its width when there is none, and list it as unmerged in every
    /// non-blank inner node above it. A leaf whose encryption key is already
    /// in the tree is refused.
    pub fn add_leaf(&mut self, leaf: LeafNode) -> (r: Result<LeafIndex, TreeError>)
        requires
            old(self).wf(),
        ensures
            final(self).wf(),
            add_rel(old(self).nodes@, final(self).nodes@, leaf, r),
    {
        if self.has_key(leaf.public_key.as_slice()) {
            return Err(TreeError::DuplicateLeafKey);
        }
        let i = self.find_blank_leaf();
        let old_len = self.nodes.len();
        let new_len: usize = if 2 * i < old_len {
            old_len
        } else if old_len == 0 {
            1
        } else {
            if old_len > (MAX_NODES - 1) / 2 {
                return Err(TreeError::TreeFull);
            }
            2 * old_len + 1
        };
        let ghost all = self.nodes@;
        let mut rest: Vec<Option<Node>> = Vec::new();
        core::mem::swap(&mut rest, &mut self.nodes);
        let mut out: Vec<Option<Node>> = Vec::new();
        let mut x: usize = 0;
        while x < new_len
            invariant
                all.len() == old_len,
                old_len <= new_len <= MAX_NODES,
                2 * i < new_len,
                i <= MAX_NODES,
                x <= new_len,
                x <= old_len ==> rest@ == all.skip(x as int),
                x >= old_len ==> rest@.len() == 0,
                out@.len() == x,
                forall|y: int| 0 <= y < x && y != 2 * i ==> #[trigger] marked(slot(all, y), out@[y], y as nat, i as nat),
            decreases new_len - x,
        {
            let v = if rest.len() > 0 {
                rest.remove(0)
            } else {
                None
            };
            assert(v == slot(all, x as int));
            let m = if x == 2 * i {
                None
            } else {
                mark_unmerged(v, x, i)
            };
            out.push(m);
            x = x + 1;
        }
        out.set(2 * i, Some(Node::Leaf(leaf)));
        self.nodes = out;
        proof {
            if old_len > 0 && 2 * i >= old_len {
                assert(full_size(((2 * old_len + 1 - 1) / 2) as nat));
            }
        }
        Ok(LeafIndex(i as u32))
    }

    /// Replace the leaf at `index` and blank every inner node above it.
    pub fn update_leaf(&mut self, index: LeafIndex, leaf: LeafNode) -> (r: Result<(), TreeError>)
        requires
            old(self).wf(),
        ensures
            final(self).wf(),
            update_rel(old(self).nodes@, final(self).nodes@, index.0, leaf, r),
    {
        if self.leaf(index).is_none() {
            return Err(TreeError::BlankLeaf(index.0));
        }
        let i = index.0 as usize;
        let mut nodes: Vec<Option<Node>> = Vec::new();
        core::mem::swap(&mut nodes, &mut self.nodes);
        let mut b = blank_path(nodes, i, false);
        b.set(2 * i, Some(Node::Leaf(leaf)));
        self.nodes = b;
        Ok(())
    }

    /// Blank the leaf at `index` and every inner node above it, then drop
    /// the right half of the tree for as long as it is all blank.
    pub fn remove_leaf(&mut self, index: LeafIndex) -> (r: Result<(), TreeError>)
        requires
            old(self).wf(),
        ensures
            final(self).wf(),
            remove_rel(old(self).nodes@, final(self).nodes@, index.0, r),
    {
        if self.leaf(index).is_none() {
            return Err(TreeError::BlankLeaf(index.0));
        }
        let i = index.0 as usize;
        let ghost old_nodes = self.nodes@;
        let mut nodes: Vec<Option<Node>> = Vec::new();
        core::mem::swap(&mut nodes, &mut self.nodes);
        let mut b = blank_path(nodes, i, true);
        let ghost bs = Seq::new(old_nodes.len(), |x: int| blanked(old_nodes, x, i as nat, true));
        assert(b@ =~= bs);
        let mut n: usize = b.len();
        while n > 1 && right_half_blank(&b, n)
            invariant
                b@ == bs,
                b@.len() <= MAX_NODES,
                n <= b@.len(),
                full_size(n as nat),
                truncated_len(bs, n as nat) == truncated_len(bs, bs.len()),
            decreases n,
        {
            n = (n - 1) / 2;
        }
        b.truncate(n);
        self.nodes = b;
        Ok(())
    }
}

fn right_half_blank(v: &Vec<Option<Node>>, n: usize) -> (r: bool)
    requires
        n <= v@.len(),
        n <= MAX_NODES,
    ensures
        r == forall|x: int| (n + 1) / 2 <= x < n ==> #[trigger] slot(v@, x) is None,
{
    let mut x: usize = (n + 1) / 2;
    while x < n
        invariant
            n <= v@.len(),
            (n + 1) / 2 <= x <= n,
            forall|y: int| (n + 1) / 2 <= y < x ==> #[trigger] slot(v@, y) is None,
        decreases n - x,
    {
        if v[x].is_some() {
            assert(slot(v@, x as int) is Some);
            return false;
        }
        x = x + 1;
    }
    true
}


/// The resolution of slot `x` at level `k`: a non-blank node stands for
/// itself; a blank leaf for nothing; a blank inner node for the
/// resolutions of its children, left then right.
pub open spec fn resolution_at(s: Seq<Option<Node>>, x: int, k: nat) -> Seq<int>
    decreases k,
{
    if slot(s, x) is Some {
        seq![x]
    } else if k == 0 {
        Seq::empty()
    } else {
        resolution_at(s, x - pow2((k - 1) as nat), (k - 1) as nat) + resolution_at(s, x + pow2((k - 1) as nat), (k - 1) as nat)
    }
}

fn resolve_slot(nodes: &Vec<Option<Node>>, x: usize, k: u32, pw: usize) -> (r: Vec<usize>)
    requires
        pw == pow2(k as nat),
        x + 1 >= pw,
        x + pw <= 2 * MAX_NODES,
    ensures
        r@.len() == resolution_at(nodes@, x as int, k as nat).len(),
        forall|j: int| 0 <= j < r@.len() ==> r@[j] as int == #[trigger] resolution_at(nodes@, x as int, k as nat)[j],
    decreases k,
{
    if x < nodes.len() && nodes[x].is_some() {
        let mut r: Vec<usize> = Vec::new();
        r.push(x);
        return r;
    }
    if k == 0 {
        return Vec::new();
    }
    let half = pw / 2;
    proof {
        assert(half == pow2((k - 1) as nat));
        lemma_pow2_positive((k - 1) as nat);
    }
    let mut left = resolve_slot(nodes, x - half, k - 1, half);
    let mut right = resolve_slot(nodes, x + half, k - 1, half);
    let ghost l = left@;
    left.append(&mut right);
    proof {
        let sl = resolution_at(nodes@, x - half, (k - 1) as nat);
        let sr = resolution_at(nodes@, x + half, (k - 1) as nat);
        assert(resolution_at(nodes@, x as int, k as nat) == sl + sr);
        assert forall|j: int| 0 <= j < left@.len() implies left@[j] as int == #[trigger] resolution_at(nodes@, x as int, k as nat)[j] by {
            if j < l.len() {
                assert(left@[j] == l[j]);
            } else {
                assert((sl + sr)[j] == sr[j - sl.len()]);
            }
        }
    }
    left
}

impl RatchetTree {
    /// The resolution of slot `x`: the non-blank nodes that cover its
    /// subtree, left to right.
    pub fn resolution(&self, x: usize) -> (r: Vec<usize>)
        requires
            self.wf(),
            x < self.nodes@.len(),
        ensures
            r@.len() == resolution_at(self.nodes@, x as int, level(x as nat)).len(),
            forall|j: int| 0 <= j < r@.len() ==> r@[j] as int == #[trigger] resolution_at(self.nodes@, x as int, level(x as nat))[j],
    {
        let mut y: usize = x;
        let mut pw: usize = 1;
        let mut k: u32 = 0;
        while y % 2 == 1
            invariant
                level(x as nat) == k + level(y as nat),
                pw == pow2(k as nat),
                x + 1 == (y + 1) * pw,
                x < MAX_NODES,
            decreases y,
        {
            proof {
                assert((y + 1) * pw == (y / 2 + 1) * (2 * pw)) by (nonlinear_arith)
                    requires y % 2 == 1;
                assert(2 * pw <= x + 1) by (nonlinear_arith)
                    requires x + 1 == (y + 1) * pw, y % 2 == 1, pw >= 0;
                assert(level(y as nat) == 1 + level((y / 2) as nat));
                lemma_pow2_positive(k as nat);
                lemma_pow2_exceeds(k as nat);
            }
            y = y / 2;
            pw = pw * 2;
            k = k + 1;
        }
        proof {
            lemma_pow2_positive(k as nat);
            assert(pw <= x + 1) by (nonlinear_arith)
                requires x + 1 == (y + 1) * pw, pw >= 1;
        }
        resolve_slot(&self.nodes, x, k, pw)
    }
}

proof fn lemma_pow2_exceeds(k: nat)
    ensures
        pow2(k) > k,
    decreases k,
{
    if k > 0 {
        lemma_pow2_exceeds((k - 1) as nat);
        lemma_pow2_positive((k - 1) as nat);
    }
}

} // verus!
