//! The integer core of the RRT planner: the parent links of its tree and
//! the xorshift generator behind its sampling.

use vstd::prelude::*;
use crate::astar_path::ancestor;
use crate::astar_path::chain_ends;
use crate::astar_path::chain_length;
use crate::astar_path::lemma_ancestor_ended;
use crate::astar_path::lemma_chain_length_unique;

verus! {

/// One step of the 64-bit xorshift generator with shifts 13, 7 and 17.
pub open spec fn xorshift_step(s: u64) -> u64 {
    let a = s ^ (s << 13u64);
    let b = a ^ (a >> 7u64);
    b ^ (b << 17u64)
}

/// Undo `x ^ (x << 13)`.
pub open spec fn unshift_left_13(y: u64) -> u64 {
    y ^ (y << 13u64) ^ (y << 26u64) ^ (y << 39u64) ^ (y << 52u64)
}

/// Undo `x ^ (x >> 7)`.
pub open spec fn unshift_right_7(y: u64) -> u64 {
    y ^ (y >> 7u64) ^ (y >> 14u64) ^ (y >> 21u64) ^ (y >> 28u64) ^ (y >> 35u64) ^ (y >> 42u64)
        ^ (y >> 49u64) ^ (y >> 56u64) ^ (y >> 63u64)
}

/// Undo `x ^ (x << 17)`.
pub open spec fn unshift_left_17(y: u64) -> u64 {
    y ^ (y << 17u64) ^ (y << 34u64) ^ (y << 51u64)
}

/// The state that the generator steps to `t`: the three shifts undone in
/// reverse order.
pub open spec fn xorshift_unstep(t: u64) -> u64 {
    unshift_left_13(unshift_right_7(unshift_left_17(t)))
}

/// Advance the xorshift state: the next state of the generator.
pub fn xorshift64(seed: u64) -> (next: u64)
    ensures
        next == xorshift_step(seed),
        xorshift_unstep(next) == seed,
        next & 0x3fu64 == (seed ^ (seed >> 7u64)) & 0x3fu64,
{
    proof {
        lemma_xorshift_inverse(seed, 0);
        lemma_xorshift_low_bits(seed);
    }
    let a = seed ^ (seed << 13u64);
    let b = a ^ (a >> 7u64);
    b ^ (b << 17u64)
}

/// The zero state is fixed, and every other state steps to another nonzero
/// state, so a generator seeded with a nonzero value never gets stuck at zero.
pub proof fn lemma_xorshift_zero(s: u64)
    ensures
        (xorshift_step(s) == 0) == (s == 0),
{
    assert(((s ^ (s << 13u64)) ^ ((s ^ (s << 13u64)) >> 7u64)) ^ (((s ^ (s << 13u64)) ^ ((s
        ^ (s << 13u64)) >> 7u64)) << 17u64) == 0 <==> s == 0) by (bit_vector);
}

/// Distinct states step to distinct states: the generator is a permutation
/// of the 64-bit states.
pub proof fn lemma_xorshift_injective(s: u64, t: u64)
    requires
        xorshift_step(s) == xorshift_step(t),
    ensures
        s == t,
{
    let a = s ^ (s << 13u64);
    let b = a ^ (a >> 7u64);
    let c = t ^ (t << 13u64);
    let d = c ^ (c >> 7u64);
    assert(b ^ (b << 17u64) == d ^ (d << 17u64) ==> b == d) by (bit_vector);
    assert(a ^ (a >> 7u64) == c ^ (c >> 7u64) ==> a == c) by (bit_vector);
    assert(s ^ (s << 13u64) == t ^ (t << 13u64) ==> s == t) by (bit_vector);
}

/// The generator step and `xorshift_unstep` undo each other: unshifting by
/// 17, then 7, then 13 gives back the state that the 13, 7, 17 step started
/// from, and stepping an unshifted state gives back the target.
pub proof fn lemma_xorshift_inverse(s: u64, t: u64)
    ensures
        xorshift_unstep(xorshift_step(s)) == s,
        xorshift_step(xorshift_unstep(t)) == t,
{
    let a = s ^ (s << 13u64);
    let b = a ^ (a >> 7u64);
    let c = b ^ (b << 17u64);
    assert(unshift_left_17(c) == b) by (bit_vector)
        requires
            c == b ^ (b << 17u64),
    ;
    assert(unshift_right_7(b) == a) by (bit_vector)
        requires
            b == a ^ (a >> 7u64),
    ;
    assert(unshift_left_13(a) == s) by (bit_vector)
        requires
            a == s ^ (s << 13u64),
    ;
    let p = unshift_left_17(t);
    let q = unshift_right_7(p);
    let r = unshift_left_13(q);
    assert(r ^ (r << 13u64) == q) by (bit_vector)
        requires
            r == unshift_left_13(q),
    ;
    assert(q ^ (q >> 7u64) == p) by (bit_vector)
        requires
            q == unshift_right_7(p),
    ;
    assert(p ^ (p << 17u64) == t) by (bit_vector)
        requires
            p == unshift_left_17(t),
    ;
}

/// The six lowest bits of the next state are those of `s ^ (s >> 7)`: the
/// left shifts by 13 and 17 do not reach them.
pub proof fn lemma_xorshift_low_bits(s: u64)
    ensures
        xorshift_step(s) & 0x3fu64 == (s ^ (s >> 7u64)) & 0x3fu64,
{
    let a = s ^ (s << 13u64);
    let b = a ^ (a >> 7u64);
    assert((b ^ (b << 17u64)) & 0x3fu64 == (s ^ (s >> 7u64)) & 0x3fu64) by (bit_vector)
        requires
            a == s ^ (s << 13u64),
            b == a ^ (a >> 7u64),
    ;
}

/// The step is linear over bits: stepping the xor of two states gives the
/// xor of their steps.
pub proof fn lemma_xorshift_linear(s: u64, t: u64)
    ensures
        xorshift_step(s ^ t) == xorshift_step(s) ^ xorshift_step(t),
{
    let u = s ^ t;
    assert(((u ^ (u << 13u64)) ^ ((u ^ (u << 13u64)) >> 7u64)) ^ (((u ^ (u << 13u64)) ^ ((u
        ^ (u << 13u64)) >> 7u64)) << 17u64) == (((s ^ (s << 13u64)) ^ ((s ^ (s << 13u64)) >> 7u64))
        ^ (((s ^ (s << 13u64)) ^ ((s ^ (s << 13u64)) >> 7u64)) << 17u64)) ^ (((t ^ (t << 13u64)) ^ ((t
        ^ (t << 13u64)) >> 7u64)) ^ (((t ^ (t << 13u64)) ^ ((t ^ (t << 13u64)) >> 7u64)) << 17u64)))
        by (bit_vector)
        requires
            u == s ^ t,
    ;
}

/// Parent links of a tree grown from node 0: node 0 is the root and every
/// other node hangs from an earlier node.
pub struct RrtTree {
    parents: Vec<Option<usize>>,
}

/// The parent links describe a tree rooted at node 0 in which every node
/// hangs from an earlier one.
pub open spec fn rooted_at_zero(parents: Seq<Option<usize>>) -> bool {
    forall|i: int|
        0 <= i < parents.len() ==> match #[trigger] parents[i] {
            None => i == 0,
            Some(p) => p < i,
        }
}

/// The nodes from the root to `idx`, root first, along the parent links.
pub open spec fn tree_path(parents: Seq<Option<usize>>, idx: int) -> Seq<usize> {
    let n = chain_length(parents, idx);
    Seq::new(n, |i: int| ancestor(parents, idx, (n - 1 - i) as nat).unwrap() as usize)
}

/// In a tree rooted at node 0, following `j` parent links from `idx` (while
/// the root is not passed) reaches a node no later than `idx - j`; the chain
/// ends after the root.
pub proof fn lemma_tree_chain(parents: Seq<Option<usize>>, idx: int, j: nat)
    requires
        rooted_at_zero(parents),
        0 <= idx < parents.len(),
    ensures
        ancestor(parents, idx, j) matches Some(a) ==> 0 <= a <= idx - j,
        ancestor(parents, idx, j) matches Some(a) && a == 0 ==> chain_ends(parents, idx, j + 1),
    decreases j,
{
    if j > 0 {
        lemma_tree_chain(parents, idx, (j - 1) as nat);
    }
    if let Some(a) = ancestor(parents, idx, j) {
        assert(parents[a] is None <==> a == 0);
    }
}

/// In a tree rooted at node 0 the chain from any node ends at the root.
pub proof fn lemma_tree_chain_ends(parents: Seq<Option<usize>>, idx: int)
    requires
        rooted_at_zero(parents),
        0 <= idx < parents.len(),
    ensures
        exists|n: nat| chain_ends(parents, idx, n),
        chain_length(parents, idx) <= idx + 1,
        ancestor(parents, idx, (chain_length(parents, idx) - 1) as nat) == Some(0int),
{
    lemma_tree_chain(parents, idx, (idx + 1) as nat);
    lemma_tree_chain_ends_from(parents, idx, 0);
}

proof fn lemma_tree_chain_ends_from(parents: Seq<Option<usize>>, idx: int, j: nat)
    requires
        rooted_at_zero(parents),
        0 <= idx < parents.len(),
        j <= idx + 1,
        ancestor(parents, idx, j) is Some,
    ensures
        exists|n: nat| chain_ends(parents, idx, n),
        chain_length(parents, idx) <= idx + 1,
        ancestor(parents, idx, (chain_length(parents, idx) - 1) as nat) == Some(0int),
    decreases idx + 1 - j,
{
    lemma_tree_chain(parents, idx, j);
    let a = ancestor(parents, idx, j).unwrap();
    if a == 0 {
        assert(chain_ends(parents, idx, j + 1));
        lemma_chain_length_unique(parents, idx, j + 1, chain_length(parents, idx));
    } else {
        assert(parents[a] is Some);
        lemma_tree_chain(parents, idx, j + 1);
        lemma_tree_chain_ends_from(parents, idx, j + 1);
    }
}

impl RrtTree {
    /// The parent link of each node.
    pub closed spec fn parent_links(&self) -> Seq<Option<usize>> {
        self.parents@
    }

    /// Well-formedness: the links describe a tree rooted at node 0.
    pub open spec fn wf(&self) -> bool {
        rooted_at_zero(self.parent_links())
    }

    /// A tree without nodes.
    pub fn new() -> (t: RrtTree)
        ensures
            t.wf(),
            t.parent_links() == Seq::<Option<usize>>::empty(),
    {
        RrtTree { parents: Vec::new() }
    }

    /// Drop every node and start again from a lone root.
    pub fn restart(&mut self)
        ensures
            final(self).wf(),
            final(self).parent_links() == seq![None::<usize>],
    {
        self.parents.clear();
        self.parents.push(None);
        assert(self.parents@ =~= seq![None::<usize>]);
    }

    /// Number of nodes.
    pub fn len(&self) -> (n: usize)
        ensures
            n == self.parent_links().len(),
    {
        self.parents.len()
    }

    /// Add a node hanging from `parent` and return its index.
    pub fn add_child(&mut self, parent: usize) -> (idx: usize)
        requires
            old(self).wf(),
            parent < old(self).parent_links().len(),
        ensures
            final(self).wf(),
            idx == old(self).parent_links().len(),
            final(self).parent_links() == old(self).parent_links().push(Some(parent)),
    {
        let idx = self.parents.len();
        self.parents.push(Some(parent));
        idx
    }

    /// The nodes from the root to `idx`, root first.
    pub fn path_to(&self, idx: usize) -> (path: Vec<usize>)
        requires
            self.wf(),
            idx < self.parent_links().len(),
        ensures
            path@ == tree_path(self.parent_links(), idx as int),
            path@.len() >= 1,
            path@[0] == 0,
            path@.last() == idx,
            forall|i: int|
                0 <= i < path@.len() - 1 ==> self.parent_links()[#[trigger] path@[i + 1] as int]
                    == Some(path@[i]),
    {
        let ghost ps = self.parents@;
        proof {
            lemma_tree_chain_ends(ps, idx as int);
        }
        let ghost n = chain_length(ps, idx as int);
        let mut rev: Vec<usize> = Vec::new();
        rev.push(idx);
        let mut c = idx;
        let ghost mut k: nat = 0;
        loop
            invariant
                ps == self.parents@,
                rooted_at_zero(ps),
                idx < ps.len(),
                chain_ends(ps, idx as int, n),
                c < ps.len(),
                ancestor(ps, idx as int, k) == Some(c as int),
                k < n,
                rev@.len() == k + 1,
                forall|i: int|
                    0 <= i <= k ==> #[trigger] rev@[i] == ancestor(ps, idx as int, i as nat).unwrap(),
            ensures
                rev@.len() == n,
                forall|i: int|
                    0 <= i < n ==> #[trigger] rev@[i] == ancestor(ps, idx as int, i as nat).unwrap(),
            decreases n - k,
        {
            match self.parents[c] {
                Some(p) => {
                    assert(ancestor(ps, idx as int, k + 1) == Some(p as int));
                    proof {
                        if k + 1 >= n {
                            lemma_ancestor_ended(ps, idx as int, n, k + 1);
                        }
                    }
                    rev.push(p);
                    c = p;
                    proof {
                        k = k + 1;
                    }
                },
                None => {
                    assert(chain_ends(ps, idx as int, k + 1));
                    proof {
                        lemma_chain_length_unique(ps, idx as int, n, k + 1);
                    }
                    break;
                },
            }
        }
        let mut path: Vec<usize> = Vec::new();
        let mut j = rev.len();
        while j > 0
            invariant
                j <= rev@.len(),
                rev@.len() == n,
                path@.len() == n - j,
                forall|i: int| 0 <= i < n - j ==> #[trigger] path@[i] == rev@[n - 1 - i],
            decreases j,
        {
            j = j - 1;
            path.push(rev[j]);
        }
        assert(path@ =~= tree_path(ps, idx as int));
        proof {
            assert forall|i: int| 0 <= i < path@.len() - 1 implies ps[#[trigger] path@[i + 1] as int]
                == Some(path@[i]) by {
                let m = (n - 2 - i) as nat;
                if ancestor(ps, idx as int, m + 1) is None {
                    lemma_ancestor_ended(ps, idx as int, m + 1, (n - 1) as nat);
                }
                assert(ancestor(ps, idx as int, m + 1) is Some);
                assert(path@[i + 1] == ancestor(ps, idx as int, m).unwrap());
                assert(path@[i] == ancestor(ps, idx as int, m + 1).unwrap());
            }
        }
        path
    }
}

} // verus!
