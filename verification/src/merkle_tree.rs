//! A fixed-capacity binary Merkle tree over SHA-256, stored as a heap-ordered array.
//!
//! Node `(d, p)` (depth `d`, position `p < 2^d`) lives at index `2^d − 1 + p`; the
//! leaves are the nodes of depth `h` where the capacity is `2^h`.  A node whose
//! subtree holds no leaf yet is the all-zero hash.
use sha2::Digest;
use vstd::prelude::*;

verus! {

/// A hash is represented as a 32-byte array (SHA-256).
pub type Hash = [u8; 32];

/// `2^d`.
pub open spec fn two_pow(d: nat) -> nat
    decreases d,
{
    if d == 0 {
        1
    } else {
        2 * two_pow((d - 1) as nat)
    }
}

/// `⌊log₂ n⌋` (0 for `n ≤ 1`).
pub open spec fn log2(n: nat) -> nat
    decreases n,
{
    if n <= 1 {
        0
    } else {
        1 + log2(n / 2)
    }
}

/// `n` is a power of two.
pub open spec fn is_power_of_two(n: nat) -> bool {
    n >= 1 && two_pow(log2(n)) == n
}

/// SHA-256 of a byte string.
pub uninterp spec fn sha256_spec(data: Seq<u8>) -> Seq<u8>;

/// The hash of a leaf: SHA-256 of `0x00 ‖ data`.
pub open spec fn leaf_hash_spec(data: Seq<u8>) -> Seq<u8> {
    sha256_spec(seq![0u8] + data)
}

/// The hash of an internal node: SHA-256 of `0x01 ‖ left ‖ right`.
pub open spec fn internal_hash_spec(left: Seq<u8>, right: Seq<u8>) -> Seq<u8> {
    sha256_spec(seq![1u8] + left + right)
}

/// The all-zero hash that fills nodes with no leaf below them.
pub open spec fn zero_hash() -> Seq<u8> {
    Seq::new(32, |i: int| 0u8)
}

/// Whether the subtree of node `(d, p)` holds a leaf, in a tree of height `h`
/// whose first `len` leaves are set (its leftmost leaf is below `len`).
pub open spec fn filled(h: nat, len: nat, d: nat, p: nat) -> bool
    decreases h - d,
{
    if d >= h {
        p < len
    } else {
        filled(h, len, d + 1, 2 * p)
    }
}

/// The hash that node `(d, p)` holds when the leaves hold the hashes `leaves`.
pub open spec fn node_hash(h: nat, leaves: Seq<Seq<u8>>, d: nat, p: nat) -> Seq<u8>
    decreases h - d,
{
    if d >= h {
        if p < leaves.len() {
            leaves[p as int]
        } else {
            zero_hash()
        }
    } else if filled(h, leaves.len(), d, p) {
        internal_hash_spec(node_hash(h, leaves, d + 1, 2 * p), node_hash(h, leaves, d + 1, 2 * p + 1))
    } else {
        zero_hash()
    }
}

/// The root hash of a tree of height `h` over the leaf hashes `leaves`.
pub open spec fn merkle_root(h: nat, leaves: Seq<Seq<u8>>) -> Seq<u8> {
    node_hash(h, leaves, 0, 0)
}

/// The position at depth `d` of the ancestor of leaf `j`.
pub open spec fn anc_pos(h: nat, d: nat, j: nat) -> nat
    decreases h - d,
{
    if d >= h {
        j
    } else {
        anc_pos(h, d + 1, j) / 2
    }
}

/// The position of the sibling of position `p`.
pub open spec fn sibling(p: nat) -> nat {
    if p % 2 == 0 {
        p + 1
    } else {
        (p - 1) as nat
    }
}

/// The authentication path of node `(d, p)` up to the root: for each level, the
/// sibling's hash and whether the node on the path is a left child.
pub open spec fn auth_path(h: nat, leaves: Seq<Seq<u8>>, d: nat, p: nat) -> Seq<(Seq<u8>, bool)>
    decreases d,
{
    if d == 0 {
        seq![]
    } else {
        seq![(node_hash(h, leaves, d, sibling(p)), p % 2 == 0)] + auth_path(
            h,
            leaves,
            (d - 1) as nat,
            p / 2,
        )
    }
}

/// One step of proof verification: combine the running hash with a sibling.
pub open spec fn proof_step(cur: Seq<u8>, entry: (Seq<u8>, bool)) -> Seq<u8> {
    if entry.1 {
        internal_hash_spec(cur, entry.0)
    } else {
        internal_hash_spec(entry.0, cur)
    }
}

/// The hash obtained by folding a proof over a starting hash.
pub open spec fn fold_proof(cur: Seq<u8>, proof: Seq<(Seq<u8>, bool)>) -> Seq<u8>
    decreases proof.len(),
{
    if proof.len() == 0 {
        cur
    } else {
        fold_proof(proof_step(cur, proof[0]), proof.drop_first())
    }
}

/// A proof as it is stored, viewed with hashes as byte sequences.
pub open spec fn proof_view(proof: Seq<(Hash, bool)>) -> Seq<(Seq<u8>, bool)> {
    proof.map_values(|e: (Hash, bool)| (e.0@, e.1))
}

pub proof fn lemma_two_pow_pos(d: nat)
    ensures
        two_pow(d) >= 1,
    decreases d,
{
    if d > 0 {
        lemma_two_pow_pos((d - 1) as nat);
    }
}

pub proof fn lemma_two_pow_mono(d1: nat, d2: nat)
    requires
        d1 <= d2,
    ensures
        two_pow(d1) <= two_pow(d2),
    decreases d2,
{
    if d1 < d2 {
        lemma_two_pow_mono(d1, (d2 - 1) as nat);
        lemma_two_pow_pos((d2 - 1) as nat);
    }
}

/// Distinct nodes live at distinct indices.
proof fn lemma_index_injective(d1: nat, p1: nat, d2: nat, p2: nat)
    requires
        p1 < two_pow(d1),
        p2 < two_pow(d2),
        two_pow(d1) + p1 == two_pow(d2) + p2,
    ensures
        d1 == d2,
        p1 == p2,
{
    if d1 < d2 {
        lemma_two_pow_mono(d1 + 1, d2);
    } else if d2 < d1 {
        lemma_two_pow_mono(d2 + 1, d1);
    }
}

/// Filled positions form a prefix at each depth.
proof fn lemma_filled_mono(h: nat, len: nat, d: nat, q1: nat, q2: nat)
    requires
        q1 <= q2,
        filled(h, len, d, q2),
    ensures
        filled(h, len, d, q1),
    decreases h - d,
{
    if d < h {
        lemma_filled_mono(h, len, d + 1, 2 * q1, 2 * q2);
    }
}

/// The ancestors of a set leaf are filled.
proof fn lemma_filled_path(h: nat, len: nat, d: nat, j: nat)
    requires
        d <= h,
        j < len,
    ensures
        filled(h, len, d, anc_pos(h, d, j)),
    decreases h - d,
{
    if d < h {
        lemma_filled_path(h, len, d + 1, j);
        let q = anc_pos(h, d + 1, j);
        lemma_filled_mono(h, len, d + 1, 2 * (q / 2), q);
    }
}

/// The ancestor of a leaf is a valid position at its depth.
proof fn lemma_anc_pos_bound(h: nat, d: nat, j: nat)
    requires
        d <= h,
        j < two_pow(h),
    ensures
        anc_pos(h, d, j) < two_pow(d),
    decreases h - d,
{
    if d < h {
        lemma_anc_pos_bound(h, d + 1, j);
    }
}

/// Growing the leaf count by one changes the fill status only on the new leaf's path.
proof fn lemma_filled_grow(h: nat, n: nat, d: nat, p: nat)
    requires
        d <= h,
        filled(h, n + 1, d, p) != filled(h, n, d, p),
    ensures
        p == anc_pos(h, d, n),
    decreases h - d,
{
    if d < h {
        lemma_filled_grow(h, n, d + 1, 2 * p);
    }
}

/// The leaf at position `q`, or the zero hash when it is not set.
pub open spec fn leaf_or_zero(leaves: Seq<Seq<u8>>, q: nat) -> Seq<u8> {
    if q < leaves.len() {
        leaves[q as int]
    } else {
        zero_hash()
    }
}

/// Changing leaf `j` (or appending it) leaves the nodes off its path unchanged.
proof fn lemma_frame(h: nat, l1: Seq<Seq<u8>>, l2: Seq<Seq<u8>>, j: nat, d: nat, p: nat)
    requires
        d <= h,
        p != anc_pos(h, d, j),
        forall|q: nat| q != j ==> leaf_or_zero(l1, q) == leaf_or_zero(l2, q),
        l1.len() == l2.len() || (l2.len() == l1.len() + 1 && j == l1.len()),
    ensures
        node_hash(h, l1, d, p) == node_hash(h, l2, d, p),
    decreases h - d,
{
    if d < h {
        if l1.len() != l2.len() {
            if filled(h, l1.len(), d, p) != filled(h, l2.len(), d, p) {
                lemma_filled_grow(h, l1.len(), d, p);
            }
        }
        lemma_frame(h, l1, l2, j, d + 1, 2 * p);
        lemma_frame(h, l1, l2, j, d + 1, 2 * p + 1);
    } else {
        assert(leaf_or_zero(l1, p) == leaf_or_zero(l2, p));
    }
}

/// Folding the authentication path of a set leaf reproduces the root.
proof fn lemma_fold_path(h: nat, leaves: Seq<Seq<u8>>, d: nat, j: nat)
    requires
        d <= h,
        j < leaves.len(),
        leaves.len() <= two_pow(h),
    ensures
        fold_proof(node_hash(h, leaves, d, anc_pos(h, d, j)), auth_path(h, leaves, d, anc_pos(h, d, j)))
            == merkle_root(h, leaves),
    decreases d,
{
    lemma_anc_pos_bound(h, d, j);
    let p = anc_pos(h, d, j);
    if d == 0 {
        assert(p == 0);
    } else {
        let dp = (d - 1) as nat;
        lemma_filled_path(h, leaves.len(), dp, j);
        assert(anc_pos(h, dp, j) == p / 2);
        let path = auth_path(h, leaves, d, p);
        let entry = (node_hash(h, leaves, d, sibling(p)), p % 2 == 0);
        assert(path[0] == entry);
        assert(path.drop_first() =~= auth_path(h, leaves, dp, p / 2));
        assert(proof_step(node_hash(h, leaves, d, p), entry) == node_hash(h, leaves, dp, p / 2));
        lemma_fold_path(h, leaves, dp, j);
    }
}

/// **Proof verification law**: for every set leaf `j`, folding its authentication
/// path over its hash yields the root of the tree.
pub proof fn lemma_auth_path_verifies(h: nat, leaves: Seq<Seq<u8>>, j: nat)
    requires
        j < leaves.len(),
        leaves.len() <= two_pow(h),
    ensures
        fold_proof(leaves[j as int], auth_path(h, leaves, h, j)) == merkle_root(h, leaves),
{
    lemma_fold_path(h, leaves, h, j);
}

/// The hash of the leaves `lo..hi`: the zero hash when none of them is set,
/// the leaf's hash for a single leaf, else the internal hash of the two halves.
pub open spec fn range_root(leaves: Seq<Seq<u8>>, lo: nat, hi: nat) -> Seq<u8>
    decreases hi - lo,
{
    if lo >= leaves.len() || hi <= lo {
        zero_hash()
    } else if hi - lo == 1 {
        leaves[lo as int]
    } else {
        let mid = (lo + hi) / 2;
        internal_hash_spec(range_root(leaves, lo, mid), range_root(leaves, mid, hi))
    }
}

/// A subtree holds a set leaf exactly when its leftmost leaf is set.
proof fn lemma_filled(h: nat, len: nat, d: nat, p: nat)
    requires
        d <= h,
    ensures
        filled(h, len, d, p) == (p * two_pow((h - d) as nat) < len),
    decreases h - d,
{
    if d < h {
        lemma_filled(h, len, d + 1, 2 * p);
        let w2 = two_pow((h - d - 1) as nat);
        assert(two_pow((h - d) as nat) == 2 * w2);
        assert((2 * p) * w2 == p * (2 * w2)) by (nonlinear_arith);
    } else {
        assert(two_pow(0) == 1);
        assert(p * 1 == p);
    }
}

/// Node `(d, p)` holds the hash of the leaves below it, `p·2^(h−d) ..
/// (p+1)·2^(h−d)`.
proof fn lemma_node_range(h: nat, leaves: Seq<Seq<u8>>, d: nat, p: nat)
    requires
        d <= h,
    ensures
        node_hash(h, leaves, d, p) == range_root(
            leaves,
            p * two_pow((h - d) as nat),
            (p + 1) * two_pow((h - d) as nat),
        ),
    decreases h - d,
{
    let w = two_pow((h - d) as nat);
    if d == h {
        assert(w == 1);
        assert(p * 1 == p && (p + 1) * 1 == p + 1);
    } else {
        lemma_node_range(h, leaves, d + 1, 2 * p);
        lemma_node_range(h, leaves, d + 1, 2 * p + 1);
        lemma_filled(h, leaves.len(), d, p);
        let w2 = two_pow((h - d - 1) as nat);
        lemma_two_pow_pos((h - d - 1) as nat);
        assert(w == 2 * w2);
        let lo = p * w;
        let hi = (p + 1) * w;
        assert(lo == (2 * p) * w2 && hi == (2 * p + 2) * w2 && (2 * p + 1) * w2 == (lo + hi) / 2
            && (2 * p + 1 + 1) * w2 == hi && hi - lo == w && lo < hi) by (nonlinear_arith)
            requires
                w == 2 * w2,
                w2 >= 1,
                lo == p * w,
                hi == (p + 1) * w,
        ;
    }
}

/// **The root is the recursive hash of the leaf range**: the root of a tree of
/// height `h` over `leaves` is the hash of the leaves `0 .. 2^h`, halving the
/// range at each level.
pub proof fn lemma_root_is_range_root(h: nat, leaves: Seq<Seq<u8>>)
    ensures
        merkle_root(h, leaves) == range_root(leaves, 0, two_pow(h)),
{
    lemma_node_range(h, leaves, 0, 0);
    let w = two_pow(h);
    assert(0 * w == 0 && (0 + 1) * w == w) by (nonlinear_arith);
}

/// SHA-256 of `data`, from the `sha2` crate.
///
/// Trusted: the result is the SHA-256 digest of the bytes of `data`, whatever they are.
#[verifier::external_body]
fn sha256(data: &[u8]) -> (r: Hash)
    ensures
        r@ == sha256_spec(data@),
{
    sha2::Sha256::digest(data).into()
}

/// Whether two hashes are equal, byte by byte.
fn hash_eq(a: &Hash, b: &Hash) -> (r: bool)
    ensures
        r == (a@ == b@),
{
    let mut i: usize = 0;
    while i < 32
        invariant
            i <= 32,
            a@.len() == 32,
            b@.len() == 32,
            forall|k: int| 0 <= k < i ==> a@[k] == b@[k],
        decreases 32 - i,
    {
        if a[i] != b[i] {
            return false;
        }
        i = i + 1;
    }
    assert(a@ =~= b@);
    true
}

/// Appends the bytes of `src` to `dst`.
fn extend_bytes(dst: &mut Vec<u8>, src: &[u8])
    ensures
        final(dst)@ == old(dst)@ + src@,
{
    let ghost start = dst@;
    let mut i: usize = 0;
    while i < src.len()
        invariant
            i <= src@.len(),
            dst@ == start + src@.subrange(0, i as int),
        decreases src@.len() - i,
    {
        dst.push(src[i]);
        i = i + 1;
        assert(dst@ =~= start + src@.subrange(0, i as int));
    }
    assert(src@.subrange(0, src@.len() as int) =~= src@);
}

fn zero_hash_exec() -> (r: Hash)
    ensures
        r@ == zero_hash(),
{
    let r = [0u8; 32];
    assert(r@ =~= zero_hash());
    r
}

pub struct MerkleTree {
    nodes: Vec<Hash>,
    leaf_count: usize,
    capacity: usize,
}

impl MerkleTree {
    /// The number of leaves the tree can hold.
    pub closed spec fn capacity_spec(&self) -> nat {
        self.capacity as nat
    }

    /// The height `h` of the tree: the capacity is `2^h`.
    pub open spec fn height(&self) -> nat {
        log2(self.capacity_spec())
    }

    /// The hashes of the leaves set so far, in order.
    pub closed spec fn leaves(&self) -> Seq<Seq<u8>> {
        Seq::new(self.leaf_count as nat, |j: int| self.nodes@[self.capacity - 1 + j]@)
    }

    /// The root that the leaves determine.
    pub open spec fn root_spec(&self) -> Seq<u8> {
        merkle_root(self.height(), self.leaves())
    }

    closed spec fn node_at(&self, d: nat, p: nat) -> Seq<u8> {
        self.nodes@[two_pow(d) - 1 + p]@
    }

    closed spec fn shape_ok(&self) -> bool {
        &&& is_power_of_two(self.capacity as nat)
        &&& self.nodes@.len() == 2 * self.capacity - 1
        &&& self.leaf_count <= self.capacity
        &&& 2 * self.capacity <= usize::MAX
    }

    /// The tree is well formed: every node holds the hash its leaves determine.
    pub closed spec fn wf(&self) -> bool {
        &&& self.shape_ok()
        &&& forall|d: nat, p: nat|
            d <= self.height() && p < two_pow(d) ==> #[trigger] self.node_at(d, p) == node_hash(
                self.height(),
                self.leaves(),
                d,
                p,
            )
    }

    pub fn new(capacity: usize) -> (t: Self)
        requires
            is_power_of_two(capacity as nat),
            2 * capacity <= usize::MAX,
        ensures
            t.wf(),
            t.capacity_spec() == capacity,
            t.leaves() == Seq::<Seq<u8>>::empty(),
    {
        let total_nodes = 2 * capacity - 1;
        let mut nodes: Vec<Hash> = Vec::new();
        while nodes.len() < total_nodes
            invariant
                nodes@.len() <= total_nodes,
                forall|k: int| 0 <= k < nodes@.len() ==> #[trigger] nodes@[k]@ == zero_hash(),
            decreases total_nodes - nodes@.len(),
        {
            nodes.push(zero_hash_exec());
        }
        let t = MerkleTree { nodes, leaf_count: 0, capacity };
        proof {
            assert forall|d: nat, p: nat|
                d <= t.height() && p < two_pow(d) implies #[trigger] t.node_at(d, p) == node_hash(
                t.height(),
                t.leaves(),
                d,
                p,
            ) by {
                lemma_two_pow_mono(d, t.height());
                lemma_zero_tree(t.height(), t.leaves(), d, p);
            }
        }
        t
    }

    pub fn hash_leaf(data: &[u8]) -> (r: Hash)
        ensures
            r@ == leaf_hash_spec(data@),
    {
        let mut msg: Vec<u8> = Vec::new();
        msg.push(0u8);
        extend_bytes(&mut msg, data);
        assert(msg@ =~= seq![0u8] + data@);
        sha256(msg.as_slice())
    }

    pub fn hash_internal(left: &Hash, right: &Hash) -> (r: Hash)
        ensures
            r@ == internal_hash_spec(left@, right@),
    {
        let mut msg: Vec<u8> = Vec::new();
        msg.push(1u8);
        extend_bytes(&mut msg, left);
        extend_bytes(&mut msg, right);
        assert(msg@ =~= seq![1u8] + left@ + right@);
        sha256(msg.as_slice())
    }

    /// Every node off the path above leaf `j` strictly above depth `dc` holds its hash.
    closed spec fn off_path_ok(&self, j: nat, dc: nat) -> bool {
        forall|d: nat, p: nat|
            d <= self.height() && p < two_pow(d) && !(d < dc && p == anc_pos(self.height(), d, j))
                ==> #[trigger] self.node_at(d, p) == node_hash(self.height(), self.leaves(), d, p)
    }

    proof fn lemma_cap(&self)
        requires
            self.shape_ok(),
        ensures
            two_pow(self.height()) == self.capacity,
            self.capacity >= 1,
    {
    }

    /// Recomputes the internal nodes on the path from leaf `leaf_index` to the root.
    fn update_path(&mut self, leaf_index: usize)
        requires
            old(self).shape_ok(),
            leaf_index < old(self).leaf_count,
            old(self).off_path_ok(leaf_index as nat, old(self).height()),
        ensures
            final(self).wf(),
            final(self).capacity == old(self).capacity,
            final(self).leaf_count == old(self).leaf_count,
            final(self).leaves() == old(self).leaves(),
    {
        let ghost h = self.height();
        let ghost leaves = self.leaves();
        let ghost cap = self.capacity;
        let ghost lc = self.leaf_count;
        let ghost j = leaf_index as nat;
        let ghost mut dc: nat = h;
        proof {
            self.lemma_cap();
            lemma_anc_pos_bound(h, h, j);
        }
        let mut current_idx = self.capacity - 1 + leaf_index;
        while current_idx > 0
            invariant
                self.shape_ok(),
                self.capacity == cap,
                self.leaf_count == lc,
                j < lc,
                h == self.height(),
                two_pow(h) == cap,
                self.leaves() == leaves,
                dc <= h,
                anc_pos(h, dc, j) < two_pow(dc),
                current_idx == two_pow(dc) - 1 + anc_pos(h, dc, j),
                self.off_path_ok(j, dc),
            decreases current_idx,
        {
            let ghost pc = anc_pos(h, dc, j);
            let ghost dp = (dc - 1) as nat;
            let ghost pp = pc / 2;
            proof {
                if dc == 0 {
                    assert(current_idx == 0);
                }
                assert(two_pow(dc) == 2 * two_pow(dp));
                lemma_two_pow_mono(dc, h);
                lemma_filled_path(h, lc as nat, dp, j);
                assert(anc_pos(h, dp, j) == pp);
            }
            let parent_idx = (current_idx - 1) / 2;
            let (left_idx, right_idx) = if current_idx % 2 == 1 {
                (current_idx, current_idx + 1)
            } else {
                (current_idx - 1, current_idx)
            };
            proof {
                assert(parent_idx == two_pow(dp) - 1 + pp);
                assert(left_idx == two_pow(dc) - 1 + 2 * pp);
                assert(right_idx == two_pow(dc) - 1 + 2 * pp + 1);
                assert(self.node_at(dc, 2 * pp) == node_hash(h, leaves, dc, 2 * pp));
                assert(self.node_at(dc, 2 * pp + 1) == node_hash(h, leaves, dc, 2 * pp + 1));
            }
            let hsh = Self::hash_internal(&self.nodes[left_idx], &self.nodes[right_idx]);
            let ghost before = *self;
            self.nodes.set(parent_idx, hsh);
            current_idx = parent_idx;
            proof {
                assert(hsh@ == node_hash(h, leaves, dp, pp));
                assert(self.leaves() =~= leaves) by {
                    assert forall|k: int| 0 <= k < lc implies #[trigger] self.leaves()[k] == leaves[k] by {
                        assert(cap - 1 + k != parent_idx);
                    }
                }
                assert forall|d: nat, p: nat|
                    d <= h && p < two_pow(d) && !(d < dp && p == anc_pos(h, d, j)) implies #[trigger] self.node_at(
                    d,
                    p,
                ) == node_hash(h, leaves, d, p) by {
                    if d == dp && p == pp {
                    } else {
                        lemma_two_pow_mono(d, h);
                        if two_pow(d) + p == two_pow(dp) + pp {
                            lemma_index_injective(d, p, dp, pp);
                        }
                        assert(before.node_at(d, p) == node_hash(h, leaves, d, p));
                    }
                }
                dc = dp;
            }
        }
        proof {
            if dc > 0 {
                lemma_two_pow_pos(dc);
            }
            assert(dc == 0);
        }
    }

    pub fn add_leaf(&mut self, data: &[u8])
        requires
            old(self).wf(),
            old(self).leaves().len() < old(self).capacity_spec(),
        ensures
            final(self).wf(),
            final(self).capacity_spec() == old(self).capacity_spec(),
            final(self).leaves() == old(self).leaves().push(leaf_hash_spec(data@)),
    {
        let ghost h = self.height();
        let ghost old_leaves = self.leaves();
        let ghost before = *self;
        proof {
            self.lemma_cap();
        }
        let j = self.leaf_count;
        let leaf_idx = self.capacity - 1 + j;
        let hl = Self::hash_leaf(data);
        self.nodes.set(leaf_idx, hl);
        self.leaf_count = j + 1;
        proof {
            self.lemma_cap();
            let new_leaves = old_leaves.push(hl@);
            assert(self.leaves() =~= new_leaves);
            self.lemma_after_leaf_write(before, j as nat, old_leaves, new_leaves);
        }
        self.update_path(j);
    }

    pub fn update_leaf(&mut self, index: usize, data: &[u8])
        requires
            old(self).wf(),
            index < old(self).leaves().len(),
        ensures
            final(self).wf(),
            final(self).capacity_spec() == old(self).capacity_spec(),
            final(self).leaves() == old(self).leaves().update(index as int, leaf_hash_spec(data@)),
    {
        let ghost old_leaves = self.leaves();
        let ghost before = *self;
        proof {
            self.lemma_cap();
        }
        let leaf_idx = self.capacity - 1 + index;
        let hl = Self::hash_leaf(data);
        self.nodes.set(leaf_idx, hl);
        proof {
            self.lemma_cap();
            let new_leaves = old_leaves.update(index as int, hl@);
            assert(self.leaves() =~= new_leaves);
            self.lemma_after_leaf_write(before, index as nat, old_leaves, new_leaves);
        }
        self.update_path(index);
    }

    /// After the leaf `j` is written, every node off its path still holds its hash.
    proof fn lemma_after_leaf_write(
        &self,
        before: Self,
        j: nat,
        old_leaves: Seq<Seq<u8>>,
        new_leaves: Seq<Seq<u8>>,
    )
        requires
            before.wf(),
            old_leaves == before.leaves(),
            self.shape_ok(),
            self.capacity == before.capacity,
            self.leaves() == new_leaves,
            j < new_leaves.len(),
            self.nodes@ == before.nodes@.update(self.capacity - 1 + j, self.nodes@[self.capacity - 1 + j]),
            new_leaves[j as int] == self.nodes@[self.capacity - 1 + j]@,
            forall|q: nat| q != j ==> leaf_or_zero(old_leaves, q) == leaf_or_zero(new_leaves, q),
            old_leaves.len() == new_leaves.len() || (new_leaves.len() == old_leaves.len() + 1 && j
                == old_leaves.len()),
        ensures
            self.off_path_ok(j, self.height()),
    {
        let h = self.height();
        self.lemma_cap();
        assert forall|d: nat, p: nat|
            d <= h && p < two_pow(d) && !(d < h && p == anc_pos(h, d, j)) implies #[trigger] self.node_at(
            d,
            p,
        ) == node_hash(h, new_leaves, d, p) by {
            lemma_two_pow_mono(d, h);
            if d == h && p == j {
            } else {
                if two_pow(d) + p == two_pow(h) + j {
                    lemma_index_injective(d, p, h, j);
                }
                assert(before.node_at(d, p) == node_hash(h, old_leaves, d, p));
                lemma_frame(h, old_leaves, new_leaves, j, d, p);
            }
        }
    }

    /// Returns the root hash of the Merkle Tree.
    pub fn root(&self) -> (r: Hash)
        requires
            self.wf(),
        ensures
            r@ == self.root_spec(),
    {
        proof {
            assert(self.node_at(0, 0) == node_hash(self.height(), self.leaves(), 0, 0));
        }
        self.nodes[0]
    }

    /// Generates a Merkle Proof for the leaf at the given index.
    /// Returns a vector of tuples: (Sibling Hash, is_left_child_of_parent).
    /// The proof consists of sibling hashes along the path to the root.
    pub fn get_proof(&self, index: usize) -> (proof: Vec<(Hash, bool)>)
        requires
            self.wf(),
            index < self.leaves().len(),
        ensures
            proof_view(proof@) == auth_path(self.height(), self.leaves(), self.height(), index as nat),
    {
        let ghost h = self.height();
        let ghost leaves = self.leaves();
        let ghost j = index as nat;
        let ghost full = auth_path(h, leaves, h, j);
        let ghost mut dc: nat = h;
        proof {
            self.lemma_cap();
            lemma_anc_pos_bound(h, h, j);
        }
        let mut proof: Vec<(Hash, bool)> = Vec::new();
        let mut current_idx = self.capacity - 1 + index;
        while current_idx > 0
            invariant
                self.wf(),
                h == self.height(),
                leaves == self.leaves(),
                two_pow(h) == self.capacity,
                j < leaves.len(),
                full == auth_path(h, leaves, h, j),
                dc <= h,
                anc_pos(h, dc, j) < two_pow(dc),
                current_idx == two_pow(dc) - 1 + anc_pos(h, dc, j),
                proof_view(proof@) + auth_path(h, leaves, dc, anc_pos(h, dc, j)) == full,
            decreases current_idx,
        {
            let ghost pc = anc_pos(h, dc, j);
            let ghost dp = (dc - 1) as nat;
            proof {
                if dc == 0 {
                    assert(current_idx == 0);
                }
                assert(two_pow(dc) == 2 * two_pow(dp));
                lemma_two_pow_mono(dc, h);
                assert(anc_pos(h, dp, j) == pc / 2);
            }
            let is_left = current_idx % 2 == 1;
            let sibling_idx = if is_left {
                current_idx + 1
            } else {
                current_idx - 1
            };
            proof {
                assert(is_left == (pc % 2 == 0));
                assert(sibling_idx == two_pow(dc) - 1 + sibling(pc));
                assert(self.node_at(dc, sibling(pc)) == node_hash(h, leaves, dc, sibling(pc)));
            }
            let ghost prev = proof@;
            proof.push((self.nodes[sibling_idx], is_left));
            current_idx = (current_idx - 1) / 2;
            proof {
                let entry = (node_hash(h, leaves, dc, sibling(pc)), pc % 2 == 0);
                assert(proof_view(proof@) =~= proof_view(prev).push(entry));
                assert(auth_path(h, leaves, dc, pc) == seq![entry] + auth_path(h, leaves, dp, pc / 2));
                assert(proof_view(proof@) + auth_path(h, leaves, dp, pc / 2) =~= proof_view(prev)
                    + auth_path(h, leaves, dc, pc));
                dc = dp;
            }
        }
        proof {
            if dc > 0 {
                lemma_two_pow_pos(dc);
            }
            assert(dc == 0);
            assert(proof_view(proof@) =~= full);
        }
        proof
    }

    /// Verifies a Merkle Proof against a root hash and leaf data.
    pub fn verify_proof(root: &Hash, leaf_hash: &Hash, proof: &[(Hash, bool)]) -> (r: bool)
        ensures
            r == (fold_proof(leaf_hash@, proof_view(proof@)) == root@),
    {
        let ghost pv = proof_view(proof@);
        let mut current_hash = *leaf_hash;
        let mut i: usize = 0;
        assert(pv.skip(0) =~= pv);
        while i < proof.len()
            invariant
                i <= proof@.len(),
                pv == proof_view(proof@),
                fold_proof(leaf_hash@, pv) == fold_proof(current_hash@, pv.skip(i as int)),
            decreases proof@.len() - i,
        {
            let (sibling_hash, was_left) = proof[i];
            let ghost before = current_hash@;
            if was_left {
                // Current node was left, sibling is right
                current_hash = Self::hash_internal(&current_hash, &sibling_hash);
            } else {
                // Current node was right, sibling is left
                current_hash = Self::hash_internal(&sibling_hash, &current_hash);
            }
            proof {
                assert(pv.skip(i as int)[0] == pv[i as int]);
                assert(pv.skip(i as int).drop_first() =~= pv.skip(i + 1));
                assert(current_hash@ == proof_step(before, pv[i as int]));
            }
            i = i + 1;
        }
        proof {
            assert(pv.skip(i as int).len() == 0);
        }
        hash_eq(&current_hash, root)
    }

    /// Utility to get current leaf count
    /// A well-formed tree has a power-of-two capacity `2^height` and holds at
    /// most that many leaves.
    pub proof fn lemma_wf_bounds(&self)
        requires
            self.wf(),
        ensures
            is_power_of_two(self.capacity_spec()),
            self.capacity_spec() == two_pow(self.height()),
            self.leaves().len() <= self.capacity_spec(),
    {
        self.lemma_cap();
    }

    /// **Every leaf's authentication path folds to the root** of a
    /// well-formed tree: the proof `get_proof` gives for leaf `j` verifies
    /// against `root()` with that leaf's hash.
    pub proof fn lemma_tree_proof_verifies(&self, j: nat)
        requires
            self.wf(),
            j < self.leaves().len(),
        ensures
            fold_proof(self.leaves()[j as int], auth_path(self.height(), self.leaves(), self.height(), j))
                == self.root_spec(),
    {
        self.lemma_wf_bounds();
        lemma_auth_path_verifies(self.height(), self.leaves(), j);
    }

    /// **The root of a well-formed tree is the recursive hash of its leaves**
    /// `0 .. capacity`, unfilled ranges hashing to zero.
    pub proof fn lemma_tree_root_is_range_root(&self)
        requires
            self.wf(),
        ensures
            self.root_spec() == range_root(self.leaves(), 0, self.capacity_spec()),
    {
        self.lemma_wf_bounds();
        lemma_root_is_range_root(self.height(), self.leaves());
    }

    pub fn leaf_count(&self) -> (r: usize)
        requires
            self.wf(),
        ensures
            r == self.leaves().len(),
    {
        self.leaf_count
    }
}

/// With no leaf set, every node is the zero hash.
proof fn lemma_zero_tree(h: nat, leaves: Seq<Seq<u8>>, d: nat, p: nat)
    requires
        leaves.len() == 0,
    ensures
        node_hash(h, leaves, d, p) == zero_hash(),
    decreases h - d,
{
    if d < h {
        lemma_zero_filled(h, d, p);
    }
}

proof fn lemma_zero_filled(h: nat, d: nat, p: nat)
    ensures
        !filled(h, 0, d, p),
    decreases h - d,
{
    if d < h {
        lemma_zero_filled(h, d + 1, 2 * p);
    }
}

} // verus!
