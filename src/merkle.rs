use sha2::{Digest, Sha256};
use vstd::prelude::*;

verus! {

/// The SHA-256 digest of a byte string.
pub uninterp spec fn sha256_of(data: Seq<u8>) -> Seq<u8>;

/// Relies on sha2's `Sha256::digest`: the 32-byte SHA-256 digest of the input bytes.
#[verifier::external_body]
pub fn hash_sha(x: Vec<u8>) -> (r: Vec<u8>)
    ensures
        r@ == sha256_of(x@),
        r@.len() == 32,
{
    Sha256::digest(&x).to_vec()
}

/// The digest of an inner node whose children are `left` and `right`.
pub open spec fn node_hash(left: Seq<u8>, right: Seq<u8>) -> Seq<u8> {
    sha256_of(left + right)
}

/// `tree` is the array layout of the Merkle tree over `leaves`: slot 0 empty, the leaves in
/// slots `[n, 2n)`, and each inner slot `i` in `[1, n)` the digest of its children `2i`, `2i+1`.
pub open spec fn is_merkle_tree(tree: Seq<Vec<u8>>, leaves: Seq<Seq<u8>>) -> bool {
    let n = leaves.len();
    &&& tree.len() == 2 * n
    &&& n > 0 ==> tree[0]@.len() == 0
    &&& forall|i: int| n <= i < 2 * n ==> #[trigger] tree[i]@ == leaves[i - n]
    &&& forall|i: int| 1 <= i < n ==> #[trigger] tree[i]@ == node_hash(tree[2 * i]@, tree[2 * i + 1]@)
}

/// A copy of `v`.
pub(crate) fn copy_bytes(v: &Vec<u8>) -> (r: Vec<u8>)
    ensures
        r@ == v@,
{
    let mut r: Vec<u8> = Vec::new();
    let mut i: usize = 0;
    while i < v.len()
        invariant
            i <= v.len(),
            r@ == v@.subrange(0, i as int),
        decreases v.len() - i,
    {
        r.push(v[i]);
        i = i + 1;
        proof {
            assert(r@ =~= v@.subrange(0, i as int));
        }
    }
    proof {
        assert(r@ =~= v@);
    }
    r
}

/// `a` followed by `b`.
fn concat_bytes(a: &Vec<u8>, b: &Vec<u8>) -> (r: Vec<u8>)
    ensures
        r@ == a@ + b@,
{
    let mut r = copy_bytes(a);
    let mut i: usize = 0;
    while i < b.len()
        invariant
            i <= b.len(),
            r@ == a@ + b@.subrange(0, i as int),
        decreases b.len() - i,
    {
        r.push(b[i]);
        i = i + 1;
        proof {
            assert(r@ =~= a@ + b@.subrange(0, i as int));
        }
    }
    proof {
        assert(b@.subrange(0, b@.len() as int) =~= b@);
    }
    r
}

/// The byte strings that a vector of byte vectors holds.
pub open spec fn byte_strings(v: Seq<Vec<u8>>) -> Seq<Seq<u8>> {
    v.map_values(|b: Vec<u8>| b@)
}

/// Builds the Merkle tree over `leaves` in its array layout of `2n` slots. Every inner slot
/// holds a 32-byte digest.
pub fn merkelize(leaves: &Vec<Vec<u8>>) -> (tree: Vec<Vec<u8>>)
    requires
        leaves.len() <= usize::MAX / 2,
    ensures
        is_merkle_tree(tree@, byte_strings(leaves@)),
        forall|i: int| 1 <= i < leaves.len() ==> #[trigger] tree[i]@.len() == 32,
{
    let n = leaves.len();
    let mut nodes: Vec<Vec<u8>> = Vec::new();
    let mut i: usize = 0;
    while i < n
        invariant
            i <= n,
            nodes.len() == i,
            forall|k: int| 0 <= k < i ==> #[trigger] nodes[k]@.len() == 0,
        decreases n - i,
    {
        nodes.push(Vec::new());
        i = i + 1;
    }
    let mut i: usize = 0;
    while i < n
        invariant
            i <= n,
            n == leaves.len(),
            nodes.len() == n + i,
            forall|k: int| 0 <= k < n ==> #[trigger] nodes[k]@.len() == 0,
            forall|k: int| n <= k < n + i ==> #[trigger] nodes[k]@ == leaves[k - n]@,
        decreases n - i,
    {
        nodes.push(copy_bytes(&leaves[i]));
        i = i + 1;
    }
    let mut i: usize = n;
    while i > 1
        invariant
            1 <= i <= n || (n == 0 && i == 0),
            n == leaves.len(),
            nodes.len() == 2 * n,
            n > 0 ==> nodes[0]@.len() == 0,
            forall|k: int| n <= k < 2 * n ==> #[trigger] nodes[k]@ == leaves[k - n]@,
            forall|k: int| i <= k < n ==> #[trigger] nodes[k]@ == node_hash(nodes[2 * k]@, nodes[2 * k + 1]@),
            forall|k: int| i <= k < n ==> #[trigger] nodes[k]@.len() == 32,
        decreases i,
    {
        i = i - 1;
        let h = hash_sha(concat_bytes(&nodes[2 * i], &nodes[2 * i + 1]));
        nodes.set(i, h);
    }
    nodes
}

/// `2^k`.
pub open spec fn exp2(k: nat) -> nat
    decreases k,
{
    if k == 0 {
        1
    } else {
        2 * exp2((k - 1) as nat)
    }
}

/// The number of halvings that take slot `i` up to the root slot 1.
pub open spec fn depth(i: nat) -> nat
    decreases i,
{
    if i <= 1 {
        0
    } else {
        1 + depth(i / 2)
    }
}

/// The slot `k` levels above slot `i`.
pub open spec fn ancestor(i: nat, k: nat) -> nat
    decreases k,
{
    if k == 0 {
        i
    } else {
        ancestor(i / 2, (k - 1) as nat)
    }
}

/// The other child of the parent of slot `i`.
pub open spec fn sibling(i: nat) -> nat {
    if i % 2 == 1 {
        (i - 1) as nat
    } else {
        i + 1
    }
}

/// `branch` is the authentication path of leaf `index` in `tree`: the leaf, then the sibling of
/// each slot on the way up to the root, bottom-up.
pub open spec fn is_branch(tree: Seq<Vec<u8>>, index: nat, branch: Seq<Vec<u8>>) -> bool {
    let start = tree.len() / 2 + index;
    &&& branch.len() == depth(start) + 1
    &&& branch[0]@ == tree[start as int]@
    &&& forall|k: int| 0 <= k < depth(start) ==> #[trigger] branch[k + 1]@ == tree[sibling(ancestor(start, k as nat)) as int]@
}

/// The digest reached from `cur` at position `index` by combining it with each of `sibs` in turn:
/// on the left while the low bit of the position is 0, on the right otherwise.
pub open spec fn fold_branch(cur: Seq<u8>, index: nat, sibs: Seq<Vec<u8>>) -> Seq<u8>
    decreases sibs.len(),
{
    if sibs.len() == 0 {
        cur
    } else {
        let next = if index % 2 == 0 {
            node_hash(cur, sibs[0]@)
        } else {
            node_hash(sibs[0]@, cur)
        };
        fold_branch(next, index / 2, sibs.drop_first())
    }
}

/// `branch` authenticates its first entry at position `index` against `root`.
pub open spec fn branch_verifies(root: Seq<u8>, index: nat, branch: Seq<Vec<u8>>) -> bool {
    &&& branch.len() > 0
    &&& index < exp2((branch.len() - 1) as nat)
    &&& fold_branch(branch[0]@, index, branch.drop_first()) == root
}

proof fn lemma_exp2_positive(k: nat)
    ensures
        exp2(k) >= 1,
    decreases k,
{
    if k > 0 {
        lemma_exp2_positive((k - 1) as nat);
    }
}

/// Halving `x / 2^k` gives `x / 2^(k+1)`.
proof fn lemma_halve_exp2(x: nat, k: nat)
    ensures
        x / exp2(k) / 2 == x / exp2(k + 1),
{
    lemma_exp2_positive(k);
    vstd::arithmetic::div_mod::lemma_div_denominator(x as int, exp2(k) as int, 2);
    assert(exp2(k + 1) == exp2(k) * 2);
}

/// `x / e` is zero exactly when `x < e`.
proof fn lemma_div_zero_iff(x: nat, e: nat)
    requires
        e >= 1,
    ensures
        (x / e == 0) == (x < e),
{
    vstd::arithmetic::div_mod::lemma_fundamental_div_mod(x as int, e as int);
    if x >= e {
        assert(x / e != 0) by {
            if x / e == 0 {
                assert(e * (x / e) == 0) by (nonlinear_arith)
                    requires x / e == 0;
            }
        }
    } else {
        vstd::arithmetic::div_mod::lemma_basic_div(x as int, e as int);
    }
}

proof fn lemma_ancestor_step(i: nat, k: nat)
    ensures
        ancestor(i, k + 1) == ancestor(i, k) / 2,
    decreases k,
{
    if k > 0 {
        lemma_ancestor_step(i / 2, (k - 1) as nat);
        assert(ancestor(i, k + 1) == ancestor(i / 2, k));
    } else {
        assert(ancestor(i / 2, 0) == i / 2);
    }
}

/// The authentication path of leaf `index`: the leaf, then the sibling of every slot on the way
/// up, bottom-up.
pub fn mk_branch(tree: &Vec<Vec<u8>>, index: usize) -> (branch: Vec<Vec<u8>>)
    requires
        tree.len() % 2 == 0,
        index < tree.len() / 2,
    ensures
        is_branch(tree@, index as nat, branch@),
{
    let start: usize = index + tree.len() / 2;
    let mut idx: usize = start;
    let mut o: Vec<Vec<u8>> = Vec::new();
    o.push(copy_bytes(&tree[idx]));
    while idx > 1
        invariant
            tree.len() % 2 == 0,
            start < tree.len(),
            1 <= o.len(),
            idx <= start,
            idx as nat == ancestor(start as nat, (o.len() - 1) as nat),
            o.len() - 1 + depth(idx as nat) == depth(start as nat),
            o[0]@ == tree[start as int]@,
            forall|k: int| 0 <= k < o.len() - 1 ==> #[trigger] o[k + 1]@ == tree[sibling(ancestor(start as nat, k as nat)) as int]@,
        decreases idx,
    {
        let sib: usize = if idx % 2 == 1 {
            idx - 1
        } else {
            idx + 1
        };
        proof {
            lemma_ancestor_step(start as nat, (o.len() - 1) as nat);
        }
        o.push(copy_bytes(&tree[sib]));
        idx = idx / 2;
    }
    o
}

/// Equality of two byte strings.
pub(crate) fn bytes_eq(a: &Vec<u8>, b: &Vec<u8>) -> (r: bool)
    ensures
        r == (a@ == b@),
{
    if a.len() != b.len() {
        return false;
    }
    let mut i: usize = 0;
    while i < a.len()
        invariant
            i <= a.len(),
            a.len() == b.len(),
            a@.subrange(0, i as int) == b@.subrange(0, i as int),
        decreases a.len() - i,
    {
        if a[i] != b[i] {
            return false;
        }
        proof {
            assert(a@.subrange(0, i + 1) =~= a@.subrange(0, i as int).push(a[i as int]));
            assert(b@.subrange(0, i + 1) =~= b@.subrange(0, i as int).push(b[i as int]));
        }
        i = i + 1;
    }
    proof {
        assert(a@ =~= a@.subrange(0, i as int));
        assert(b@ =~= b@.subrange(0, i as int));
    }
    true
}

/// Recomputes the root from `branch` and `index` and compares it with `root`; an empty branch,
/// or an index that does not fit the depth the branch implies, authenticates nothing.
pub fn verify_branch(root: &Vec<u8>, index: usize, branch: &Vec<Vec<u8>>) -> (r: bool)
    ensures
        r == branch_verifies(root@, index as nat, branch@),
{
    if branch.len() == 0 {
        return false;
    }
    let mut o = copy_bytes(&branch[0]);
    let mut idx: usize = index;
    proof {
        assert(exp2(0) == 1);
        assert(index as nat / exp2(0) == index as nat);
    }
    let mut i: usize = 1;
    while i < branch.len()
        invariant
            1 <= i <= branch.len(),
            idx as nat == index as nat / exp2((i - 1) as nat),
            fold_branch(o@, idx as nat, branch@.subrange(i as int, branch.len() as int))
                == fold_branch(branch[0]@, index as nat, branch@.drop_first()),
        decreases branch.len() - i,
    {
        proof {
            lemma_halve_exp2(index as nat, (i - 1) as nat);
        }
        proof {
            let rest = branch@.subrange(i as int, branch.len() as int);
            assert(rest.drop_first() =~= branch@.subrange(i + 1, branch.len() as int));
            assert(rest[0] == branch[i as int]);
        }
        o = if idx % 2 == 0 {
            hash_sha(concat_bytes(&o, &branch[i]))
        } else {
            hash_sha(concat_bytes(&branch[i], &o))
        };
        idx = idx / 2;
        i = i + 1;
    }
    proof {
        assert(branch@.drop_first() =~= branch@.subrange(1, branch.len() as int));
        assert(branch@.subrange(i as int, branch.len() as int).len() == 0);
        lemma_exp2_positive((i - 1) as nat);
        lemma_div_zero_iff(index as nat, exp2((i - 1) as nat));
    }
    if idx != 0 {
        return false;
    }
    bytes_eq(&o, root)
}

proof fn lemma_depth_of_level(h: nat, idx: nat)
    requires
        idx < exp2(h),
    ensures
        depth(exp2(h) + idx) == h,
    decreases h,
{
    if h > 0 {
        let x = exp2(h) + idx;
        assert(x / 2 == exp2((h - 1) as nat) + idx / 2);
        lemma_depth_of_level((h - 1) as nat, idx / 2);
    }
}

proof fn lemma_fold_reaches_root(
    tree: Seq<Vec<u8>>,
    leaves: Seq<Seq<u8>>,
    h: nat,
    idx: nat,
    sibs: Seq<Vec<u8>>,
)
    requires
        is_merkle_tree(tree, leaves),
        idx < exp2(h),
        exp2(h) + idx < 2 * leaves.len(),
        sibs.len() == h,
        forall|k: int| 0 <= k < h ==> #[trigger] sibs[k]@ == tree[sibling(ancestor(exp2(h) + idx, k as nat)) as int]@,
    ensures
        fold_branch(tree[exp2(h) + idx as int]@, idx, sibs) == tree[1]@,
    decreases h,
{
    if h > 0 {
        let a = exp2(h) + idx;
        let p = exp2((h - 1) as nat) + idx / 2;
        assert(a / 2 == p);
        assert(1 <= p < leaves.len());
        assert(tree[p as int]@ == node_hash(tree[2 * p as int]@, tree[2 * p + 1 as int]@));
        assert(sibs[0]@ == tree[sibling(a) as int]@) by {
            assert(ancestor(a, 0) == a);
        }
        let next = if idx % 2 == 0 {
            node_hash(tree[a as int]@, sibs[0]@)
        } else {
            node_hash(sibs[0]@, tree[a as int]@)
        };
        assert(next == tree[p as int]@);
        let rest = sibs.drop_first();
        assert forall|k: int| 0 <= k < h - 1 implies #[trigger] rest[k]@ == tree[sibling(ancestor(p, k as nat)) as int]@ by {
            assert(rest[k] == sibs[k + 1]);
            assert(ancestor(a, (k + 1) as nat) == ancestor(p, k as nat));
        }
        lemma_fold_reaches_root(tree, leaves, (h - 1) as nat, idx / 2, rest);
    } else {
        assert(idx == 0);
    }
}

/// Every authentication path that `mk_branch` cuts from a tree that `merkelize` built over a
/// power-of-two number of leaves verifies against that tree's root, and against no other root.
pub proof fn lemma_branch_of_tree_verifies(
    tree: Seq<Vec<u8>>,
    leaves: Seq<Seq<u8>>,
    d: nat,
    index: nat,
    branch: Seq<Vec<u8>>,
    other_root: Seq<u8>,
)
    requires
        is_merkle_tree(tree, leaves),
        leaves.len() == exp2(d),
        index < leaves.len(),
        is_branch(tree, index, branch),
    ensures
        branch_verifies(tree[1]@, index, branch),
        other_root != tree[1]@ ==> !branch_verifies(other_root, index, branch),
{
    let start = exp2(d) + index;
    assert(tree.len() / 2 == exp2(d));
    lemma_depth_of_level(d, index);
    let sibs = branch.drop_first();
    assert forall|k: int| 0 <= k < d implies #[trigger] sibs[k]@ == tree[sibling(ancestor(start, k as nat)) as int]@ by {
        assert(sibs[k] == branch[k + 1]);
    }
    lemma_fold_reaches_root(tree, leaves, d, index, sibs);
}

} // verus!
