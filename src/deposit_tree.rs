//! An append-only Merkle accumulator over deposit logs that reproduces the
//! deposit contract's roots and inclusion proofs.
use vstd::prelude::*;
use crate::hashing::{
    append_bytes, append_range, append_zeros, hash_pair, le_chunk, le_chunk_of, pair_hash,
    sha256, sha256_of, zero_chunk, zeros, Hash256,
};

verus! {

/// Depth of the deposit contract's leaf subtree.
pub const DEPOSIT_CONTRACT_TREE_DEPTH: usize = 32;

/// Number of leaves that the deposit contract's subtree can hold.
pub const MAX_DEPOSIT_COUNT: u64 = 0x1_0000_0000;

/// The record that a validator deposit carries.
#[derive(Clone, Copy, Debug, PartialEq, Eq)]
pub struct DepositData {
    pub pubkey: [u8; 48],
    pub withdrawal_credentials: Hash256,
    pub amount: u64,
    pub signature: [u8; 96],
}

/// One deposit event of the deposit contract, with its position in the
/// contract's log stream.
#[derive(Clone, Copy, Debug, PartialEq, Eq)]
pub struct DepositLog {
    pub index: u64,
    pub deposit_data: DepositData,
}

/// A deposit together with its inclusion proof.
#[derive(Clone, Debug, PartialEq, Eq)]
pub struct Deposit {
    pub proof: Vec<Hash256>,
    pub data: DepositData,
}

/// Why a deposit tree operation was refused.
#[derive(Clone, Copy, Debug, PartialEq, Eq)]
pub enum DepositTreeError {
    /// A log arrived whose index is not the next leaf position.
    OutOfOrderInsert { expected: u64, got: u64 },
    /// The tree already holds as many leaves as the contract allows.
    TreeFull,
    /// A root was asked for at a deposit count beyond the ingested leaves.
    InsufficientHistory { requested: u64, known: u64 },
    /// The requested index range does not lie within the deposit count.
    InvalidRange { start: u64, end: u64, deposit_count: u64 },
    /// The requested tree depth is not the deposit contract's.
    UnsupportedDepth { depth: usize },
}

/// SSZ root of the 48-byte public key: two chunks, the second zero-padded.
pub open spec fn pubkey_root(d: DepositData) -> Seq<u8> {
    sha256_of(d.pubkey@ + zeros(16))
}

/// SSZ root of the 96-byte signature: three chunks padded to four.
pub open spec fn signature_root(d: DepositData) -> Seq<u8> {
    pair_hash(
        sha256_of(d.signature@.subrange(0, 64)),
        sha256_of(d.signature@.subrange(64, 96) + zeros(32)),
    )
}

/// SSZ root of a deposit record: the leaf that the contract stores for it.
pub open spec fn deposit_data_root(d: DepositData) -> Seq<u8> {
    pair_hash(
        pair_hash(pubkey_root(d), d.withdrawal_credentials@),
        pair_hash(le_chunk(d.amount), signature_root(d)),
    )
}

/// Leaf `i` of the tree that holds the first `count` deposits of `ds`.
pub open spec fn leaf_at(ds: Seq<DepositData>, count: nat, i: nat) -> Seq<u8> {
    if i < count && i < ds.len() {
        deposit_data_root(ds[i as int])
    } else {
        zeros(32)
    }
}

/// Node `i` of `level` (level 0 holds the leaves) of the tree that holds
/// the first `count` deposits of `ds`.
pub open spec fn node_at(ds: Seq<DepositData>, count: nat, level: nat, i: nat) -> Seq<u8>
    decreases level,
{
    if level == 0 {
        leaf_at(ds, count, i)
    } else {
        pair_hash(
            node_at(ds, count, (level - 1) as nat, 2 * i),
            node_at(ds, count, (level - 1) as nat, 2 * i + 1),
        )
    }
}

/// The root of a subtree of `level` whose leaves are all zero.
pub open spec fn zero_node(level: nat) -> Seq<u8>
    decreases level,
{
    if level == 0 {
        zeros(32)
    } else {
        pair_hash(zero_node((level - 1) as nat), zero_node((level - 1) as nat))
    }
}

/// The root that the deposit contract reports once it holds the first
/// `count` deposits of `ds`: the depth-32 subtree root mixed with the count.
pub open spec fn deposit_root_at(ds: Seq<DepositData>, count: nat) -> Seq<u8> {
    pair_hash(node_at(ds, count, DEPOSIT_CONTRACT_TREE_DEPTH as nat, 0), le_chunk(count as u64))
}

/// The root that `branch` leads to from `node` at position `index`.
pub open spec fn branch_root(node: Seq<u8>, index: nat, branch: Seq<Seq<u8>>) -> Seq<u8>
    decreases branch.len(),
{
    if branch.len() == 0 {
        node
    } else {
        let up = if index % 2 == 0 {
            pair_hash(node, branch[0])
        } else {
            pair_hash(branch[0], node)
        };
        branch_root(up, index / 2, branch.drop_first())
    }
}

/// The byte strings of a sequence of hashes.
pub open spec fn hash_seq(hs: Seq<Hash256>) -> Seq<Seq<u8>> {
    hs.map_values(|h: Hash256| h@)
}

/// The position of the other child under the same parent.
pub open spec fn sibling(i: nat) -> nat {
    if i % 2 == 0 {
        i + 1
    } else {
        (i - 1) as nat
    }
}

/// The ancestor index of leaf `j` at `level`.
pub open spec fn ancestor(j: u64, level: nat) -> nat {
    (j >> (level as u64)) as nat
}

/// `proof` is the deposit contract's inclusion proof of leaf `j` in the tree
/// of the first `count` deposits of `ds`.
pub open spec fn is_contract_proof(ds: Seq<DepositData>, count: nat, j: u64, proof: Seq<Seq<u8>>) -> bool {
    &&& proof.len() == DEPOSIT_CONTRACT_TREE_DEPTH + 1
    &&& forall|t: nat| #![trigger proof[t as int]]
        t < DEPOSIT_CONTRACT_TREE_DEPTH ==> proof[t as int] == node_at(ds, count, t, sibling(ancestor(j, t)))
    &&& proof[DEPOSIT_CONTRACT_TREE_DEPTH as int] == le_chunk(count as u64)
}

proof fn lemma_ancestor_step(j: u64, k: u64)
    requires
        k < 64,
    ensures
        (j >> k) / 2 == j >> ((k + 1) as u64),
        j >> k <= j,
{
    assert((j >> k) / 2 == j >> ((k + 1) as u64)) by (bit_vector)
        requires k < 64;
    assert(j >> k <= j) by (bit_vector);
}

proof fn lemma_ancestor_top(j: u64)
    requires
        j < MAX_DEPOSIT_COUNT,
    ensures
        j >> 32u64 == 0,
{
    assert(j >> 32u64 == 0) by (bit_vector)
        requires j < 0x1_0000_0000u64;
}

proof fn lemma_ancestor_zero(j: u64)
    ensures
        j >> 0u64 == j,
{
    assert(j >> 0u64 == j) by (bit_vector);
}

/// Folding the contract's proof of leaf `j` upward from `level` reaches the
/// deposit root.
proof fn lemma_branch_from(ds: Seq<DepositData>, count: nat, j: u64, proof: Seq<Seq<u8>>, level: nat)
    requires
        j < MAX_DEPOSIT_COUNT,
        count <= MAX_DEPOSIT_COUNT,
        level <= DEPOSIT_CONTRACT_TREE_DEPTH,
        is_contract_proof(ds, count, j, proof),
    ensures
        branch_root(node_at(ds, count, level, ancestor(j, level)), ancestor(j, level),
            proof.subrange(level as int, proof.len() as int)) == deposit_root_at(ds, count),
    decreases DEPOSIT_CONTRACT_TREE_DEPTH - level,
{
    let rest = proof.subrange(level as int, proof.len() as int);
    let x = ancestor(j, level);
    if level == DEPOSIT_CONTRACT_TREE_DEPTH {
        lemma_ancestor_top(j);
        assert(x == 0);
        let up = pair_hash(node_at(ds, count, level, x), rest[0]);
        assert(rest.drop_first().len() == 0);
        assert(branch_root(node_at(ds, count, level, x), x, rest) == branch_root(up, 0, rest.drop_first()));
    } else {
        lemma_branch_from(ds, count, j, proof, level + 1);
        lemma_ancestor_step(j, level as u64);
        assert(rest.drop_first() =~= proof.subrange((level + 1) as int, proof.len() as int));
        assert(rest[0] == proof[level as int]);
        let up = if x % 2 == 0 {
            pair_hash(node_at(ds, count, level, x), rest[0])
        } else {
            pair_hash(rest[0], node_at(ds, count, level, x))
        };
        assert(up == node_at(ds, count, level + 1, x / 2));
    }
}

/// Every proof in the contract's form verifies at depth 33 against the
/// deposit root of the tree it was taken from.
pub proof fn lemma_contract_proof_verifies(ds: Seq<DepositData>, count: nat, j: u64, proof: Seq<Seq<u8>>)
    requires
        j < count <= MAX_DEPOSIT_COUNT,
        count <= ds.len(),
        is_contract_proof(ds, count, j, proof),
    ensures
        branch_root(deposit_data_root(ds[j as int]), j as nat, proof) == deposit_root_at(ds, count),
{
    lemma_branch_from(ds, count, j, proof, 0);
    lemma_ancestor_zero(j);
    assert(proof.subrange(0, proof.len() as int) =~= proof);
    assert(node_at(ds, count, 0, j as nat) == deposit_data_root(ds[j as int]));
}

/// The SSZ root of a deposit record, the leaf that the contract stores.
pub fn deposit_data_tree_hash_root(d: &DepositData) -> (r: Hash256)
    ensures
        r@ == deposit_data_root(*d),
{
    let mut pk: Vec<u8> = Vec::new();
    append_bytes(&mut pk, d.pubkey.as_slice());
    append_zeros(&mut pk, 16);
    let pubkey_root = sha256(pk.as_slice());
    let mut sig_a: Vec<u8> = Vec::new();
    append_range(&mut sig_a, d.signature.as_slice(), 0, 64);
    let mut sig_b: Vec<u8> = Vec::new();
    append_range(&mut sig_b, d.signature.as_slice(), 64, 96);
    append_zeros(&mut sig_b, 32);
    let sig_root = hash_pair(&sha256(sig_a.as_slice()), &sha256(sig_b.as_slice()));
    let amount = le_chunk_of(d.amount);
    let left = hash_pair(&pubkey_root, &d.withdrawal_credentials);
    let right = hash_pair(&amount, &sig_root);
    hash_pair(&left, &right)
}

/// Whether two hashes hold the same bytes.
pub(crate) fn hash_eq(a: &Hash256, b: &Hash256) -> (r: bool)
    ensures
        r == (a@ == b@),
{
    let mut i: usize = 0;
    while i < 32
        invariant
            i <= 32,
            a@.len() == 32,
            b@.len() == 32,
            forall|t: int| 0 <= t < i ==> a@[t] == b@[t],
        decreases 32 - i,
    {
        if a[i] != b[i] {
            return false;
        }
        i = i + 1;
    }
    assert(a@ =~= b@);
    true
}

/// Checks a Merkle inclusion proof: `branch` must have `depth` elements and
/// lead from `leaf` at position `index` to `root`.
pub fn verify_merkle_proof(leaf: &Hash256, branch: &Vec<Hash256>, depth: usize, index: u64, root: &Hash256) -> (r: bool)
    ensures
        r == (branch@.len() == depth && branch_root(leaf@, index as nat, hash_seq(branch@)) == root@),
{
    if branch.len() != depth {
        return false;
    }
    let mut node: Hash256 = *leaf;
    let mut idx: u64 = index;
    let mut k: usize = 0;
    assert(hash_seq(branch@).subrange(0, depth as int) =~= hash_seq(branch@));
    while k < depth
        invariant
            k <= depth == branch@.len(),
            branch_root(node@, idx as nat, hash_seq(branch@).subrange(k as int, depth as int))
                == branch_root(leaf@, index as nat, hash_seq(branch@)),
        decreases depth - k,
    {
        let ghost rest = hash_seq(branch@).subrange(k as int, depth as int);
        assert(rest.drop_first() =~= hash_seq(branch@).subrange(k + 1, depth as int));
        if idx % 2 == 0 {
            node = hash_pair(&node, &branch[k]);
        } else {
            node = hash_pair(&branch[k], &node);
        }
        idx = idx / 2;
        k = k + 1;
    }
    assert(hash_seq(branch@).subrange(depth as int, depth as int).len() == 0);
    hash_eq(&node, root)
}

/// The number of complete subtrees at `level` among the first `n` leaves:
/// the nodes of that level whose leaves all lie below `n`.
pub open spec fn complete_count(n: nat, level: nat) -> nat
    decreases level,
{
    if level == 0 {
        n
    } else {
        complete_count(n, (level - 1) as nat) / 2
    }
}

proof fn lemma_complete_count_zero(level: nat)
    ensures
        complete_count(0, level) == 0,
    decreases level,
{
    if level > 0 {
        lemma_complete_count_zero((level - 1) as nat);
    }
}

proof fn lemma_complete_count_mono(a: nat, b: nat, level: nat)
    requires
        a <= b,
    ensures
        complete_count(a, level) <= complete_count(b, level),
    decreases level,
{
    if level > 0 {
        lemma_complete_count_mono(a, b, (level - 1) as nat);
    }
}

proof fn lemma_complete_count_agree(a: nat, b: nat, k: nat, j: nat)
    requires
        k <= j,
        complete_count(a, k) == complete_count(b, k),
    ensures
        complete_count(a, j) == complete_count(b, j),
    decreases j - k,
{
    if j > k {
        lemma_complete_count_agree(a, b, k, (j - 1) as nat);
    }
}

/// A complete subtree over the first `m` deposits has the same root in every
/// tree that holds those deposits, whatever follows them.
proof fn lemma_complete_node_stable(
    ds1: Seq<DepositData>,
    c1: nat,
    ds2: Seq<DepositData>,
    c2: nat,
    m: nat,
    level: nat,
    i: nat,
)
    requires
        m <= c1,
        m <= c2,
        m <= ds1.len(),
        m <= ds2.len(),
        forall|j: int| 0 <= j < m ==> ds1[j] == ds2[j],
        i < complete_count(m, level),
    ensures
        node_at(ds1, c1, level, i) == node_at(ds2, c2, level, i),
    decreases level,
{
    if level > 0 {
        lemma_complete_node_stable(ds1, c1, ds2, c2, m, (level - 1) as nat, 2 * i);
        lemma_complete_node_stable(ds1, c1, ds2, c2, m, (level - 1) as nat, 2 * i + 1);
    } else {
        assert(ds1[i as int] == ds2[i as int]);
    }
}

/// Past the first incomplete node of a level, every node is an all-zero subtree.
proof fn lemma_past_complete_is_zero(ds: Seq<DepositData>, c: nat, level: nat, i: nat)
    requires
        i > complete_count(c, level),
    ensures
        node_at(ds, c, level, i) == zero_node(level),
    decreases level,
{
    if level > 0 {
        lemma_past_complete_is_zero(ds, c, (level - 1) as nat, 2 * i);
        lemma_past_complete_is_zero(ds, c, (level - 1) as nat, 2 * i + 1);
    }
}

proof fn lemma_node_depends_on_prefix(ds1: Seq<DepositData>, ds2: Seq<DepositData>, c: nat, level: nat, i: nat)
    requires
        c <= ds1.len(),
        c <= ds2.len(),
        forall|j: int| 0 <= j < c ==> ds1[j] == ds2[j],
    ensures
        node_at(ds1, c, level, i) == node_at(ds2, c, level, i),
    decreases level,
{
    if level > 0 {
        lemma_node_depends_on_prefix(ds1, ds2, c, (level - 1) as nat, 2 * i);
        lemma_node_depends_on_prefix(ds1, ds2, c, (level - 1) as nat, 2 * i + 1);
    } else if i < c {
        assert(ds1[i as int] == ds2[i as int]);
    }
}

/// The root at a historical count depends only on the deposits below that
/// count: deposits appended later never change it.
pub proof fn lemma_historical_root_stable(ds: Seq<DepositData>, later: Seq<DepositData>, count: nat)
    requires
        count <= ds.len(),
    ensures
        deposit_root_at(ds + later, count) == deposit_root_at(ds, count),
{
    lemma_node_depends_on_prefix(ds + later, ds, count, DEPOSIT_CONTRACT_TREE_DEPTH as nat, 0);
}

/// The roots of all-zero subtrees of each level up to the contract's depth.
fn zero_hashes() -> (r: Vec<Hash256>)
    ensures
        r@.len() == DEPOSIT_CONTRACT_TREE_DEPTH + 1,
        forall|k: int| 0 <= k < r@.len() ==> (#[trigger] r@[k])@ == zero_node(k as nat),
{
    let mut r: Vec<Hash256> = Vec::new();
    let mut z = zero_chunk();
    r.push(z);
    let mut k: usize = 0;
    while k < DEPOSIT_CONTRACT_TREE_DEPTH
        invariant
            k <= DEPOSIT_CONTRACT_TREE_DEPTH,
            r@.len() == k + 1,
            z == r@[k as int],
            forall|t: int| 0 <= t < r@.len() ==> (#[trigger] r@[t])@ == zero_node(t as nat),
        decreases DEPOSIT_CONTRACT_TREE_DEPTH - k,
    {
        z = hash_pair(&z, &z);
        r.push(z);
        k = k + 1;
    }
    r
}

/// An append-only Merkle accumulator over the deposit log stream. Each level
/// caches the roots of its complete subtrees, so an append hashes at most
/// one node per level, and a root or proof at any historical count reads the
/// cache and rehashes only the one incomplete node of each level.
pub struct DepositTree {
    deposits: Vec<DepositData>,
    levels: Vec<Vec<Hash256>>,
    zero_hashes: Vec<Hash256>,
}

impl View for DepositTree {
    type V = Seq<DepositData>;

    /// The deposits ingested so far, in index order.
    closed spec fn view(&self) -> Seq<DepositData> {
        self.deposits@
    }
}

/// `bounds[k]` is the first incomplete node of level `k` in the tree of the
/// first `count` deposits of `ds`, and `fulls[k]` its index.
pub open spec fn is_boundary(ds: Seq<DepositData>, count: nat, bounds: Seq<Hash256>, fulls: Seq<u64>) -> bool {
    &&& bounds.len() == DEPOSIT_CONTRACT_TREE_DEPTH + 1
    &&& fulls.len() == DEPOSIT_CONTRACT_TREE_DEPTH + 1
    &&& forall|k: int| 0 <= k < fulls.len() ==> #[trigger] fulls[k] == complete_count(count, k as nat)
    &&& forall|k: int| 0 <= k < bounds.len() ==>
        (#[trigger] bounds[k])@ == node_at(ds, count, k as nat, complete_count(count, k as nat))
}

impl DepositTree {
    /// Level `k` caches exactly the complete subtrees of the ingested leaves,
    /// level 0 being the leaves themselves.
    pub closed spec fn wf(&self) -> bool {
        let n = self.deposits@.len();
        &&& n <= MAX_DEPOSIT_COUNT
        &&& self.levels@.len() == DEPOSIT_CONTRACT_TREE_DEPTH + 1
        &&& self.zero_hashes@.len() == DEPOSIT_CONTRACT_TREE_DEPTH + 1
        &&& forall|k: int| 0 <= k < self.zero_hashes@.len() ==> (#[trigger] self.zero_hashes@[k])@ == zero_node(k as nat)
        &&& forall|k: int| 0 <= k < self.levels@.len() ==> (#[trigger] self.levels@[k])@.len() == complete_count(n, k as nat)
        &&& forall|k: int, i: int| 0 <= k < self.levels@.len() && 0 <= i < self.levels@[k]@.len()
            ==> (#[trigger] self.levels@[k]@[i])@ == node_at(self.deposits@, n, k as nat, i as nat)
    }

    /// An empty tree.
    pub fn new() -> (r: Self)
        ensures
            r.wf(),
            r@ == Seq::<DepositData>::empty(),
    {
        let mut levels: Vec<Vec<Hash256>> = Vec::new();
        let mut k: usize = 0;
        while k <= DEPOSIT_CONTRACT_TREE_DEPTH
            invariant
                k <= DEPOSIT_CONTRACT_TREE_DEPTH + 1,
                levels@.len() == k,
                forall|t: int| 0 <= t < k ==> (#[trigger] levels@[t])@.len() == 0,
            decreases DEPOSIT_CONTRACT_TREE_DEPTH + 1 - k,
        {
            levels.push(Vec::new());
            k = k + 1;
        }
        let r = DepositTree { deposits: Vec::new(), levels, zero_hashes: zero_hashes() };
        assert forall|k: int| 0 <= k < r.levels@.len() implies (#[trigger] r.levels@[k])@.len() == complete_count(0, k as nat) by {
            lemma_complete_count_zero(k as nat);
        }
        r
    }

    /// The number of leaves ingested so far.
    pub fn leaf_count(&self) -> (r: u64)
        requires
            self.wf(),
        ensures
            r == self@.len(),
    {
        self.deposits.len() as u64
    }

    /// Appends the deposit of `log`, which must carry the next index.
    pub fn insert_log(&mut self, log: DepositLog) -> (r: Result<(), DepositTreeError>)
        requires
            old(self).wf(),
        ensures
            final(self).wf(),
            log.index != old(self)@.len() ==> r == Err::<(), DepositTreeError>(
                DepositTreeError::OutOfOrderInsert { expected: old(self)@.len() as u64, got: log.index },
            ) && final(self)@ == old(self)@,
            log.index == old(self)@.len() == MAX_DEPOSIT_COUNT ==> r == Err::<(), DepositTreeError>(
                DepositTreeError::TreeFull,
            ) && final(self)@ == old(self)@,
            log.index == old(self)@.len() < MAX_DEPOSIT_COUNT ==> r is Ok
                && final(self)@ == old(self)@.push(log.deposit_data),
    {
        let n = self.deposits.len() as u64;
        if log.index != n {
            return Err(DepositTreeError::OutOfOrderInsert { expected: n, got: log.index });
        }
        if n == MAX_DEPOSIT_COUNT {
            return Err(DepositTreeError::TreeFull);
        }
        let leaf = deposit_data_tree_hash_root(&log.deposit_data);
        let ghost ds = self.deposits@;
        let ghost nn = ds.len();
        self.deposits.push(log.deposit_data);
        let ghost ds2 = self.deposits@;
        proof {
            assert forall|k: int, i: int| 0 <= k < self.levels@.len() && 0 <= i < self.levels@[k]@.len()
                implies (#[trigger] self.levels@[k]@[i])@ == node_at(ds2, nn + 1, k as nat, i as nat) by {
                lemma_complete_node_stable(ds, nn, ds2, nn + 1, nn, k as nat, i as nat);
            }
        }
        self.levels[0].push(leaf);
        let ghost zh = self.zero_hashes@;
        let mut k: usize = 0;
        let mut carry: bool = true;
        while carry && k < DEPOSIT_CONTRACT_TREE_DEPTH
            invariant
                self.deposits@ == ds2,
                ds2.len() == nn + 1,
                nn + 1 <= MAX_DEPOSIT_COUNT,
                self.zero_hashes@ == zh,
                self.levels@.len() == DEPOSIT_CONTRACT_TREE_DEPTH + 1,
                k <= DEPOSIT_CONTRACT_TREE_DEPTH,
                self.levels@[k as int]@.len() == complete_count(nn + 1, k as nat),
                complete_count(nn + 1, k as nat) == complete_count(nn, k as nat) + 1,
                forall|kk: int| 0 <= kk <= k ==> (#[trigger] self.levels@[kk])@.len() == complete_count(nn + 1, kk as nat),
                forall|kk: int| k < kk < self.levels@.len() ==> (#[trigger] self.levels@[kk])@.len() == complete_count(nn, kk as nat),
                forall|kk: int, i: int| 0 <= kk < self.levels@.len() && 0 <= i < self.levels@[kk]@.len()
                    ==> (#[trigger] self.levels@[kk]@[i])@ == node_at(ds2, nn + 1, kk as nat, i as nat),
                !carry ==> complete_count(nn + 1, k as nat) % 2 == 1,
            decreases DEPOSIT_CONTRACT_TREE_DEPTH - k + (if carry { 1int } else { 0int }),
        {
            let len = self.levels[k].len();
            if len % 2 == 1 {
                carry = false;
            } else {
                let a = self.levels[k][len - 2];
                let b = self.levels[k][len - 1];
                let h = hash_pair(&a, &b);
                proof {
                    assert(h@ == node_at(ds2, nn + 1, (k + 1) as nat, (len / 2 - 1) as nat));
                }
                self.levels[k + 1].push(h);
                k = k + 1;
            }
        }
        proof {
            if k < DEPOSIT_CONTRACT_TREE_DEPTH {
                assert(complete_count(nn + 1, (k + 1) as nat) == complete_count(nn, (k + 1) as nat));
                assert forall|kk: int| k < kk < self.levels@.len()
                    implies (#[trigger] self.levels@[kk])@.len() == complete_count(nn + 1, kk as nat) by {
                    lemma_complete_count_agree(nn + 1, nn, (k + 1) as nat, kk as nat);
                }
            }
        }
        Ok(())
    }

    /// The first incomplete node of every level of the tree of the first
    /// `count` leaves, with its index.
    fn boundary(&self, count: u64) -> (r: (Vec<Hash256>, Vec<u64>))
        requires
            self.wf(),
            count <= self@.len(),
        ensures
            is_boundary(self@, count as nat, r.0@, r.1@),
    {
        let ghost ds = self@;
        let ghost n = ds.len();
        let ghost c = count as nat;
        let mut bounds: Vec<Hash256> = Vec::new();
        let mut fulls: Vec<u64> = Vec::new();
        let mut b = self.zero_hashes[0];
        let mut f = count;
        bounds.push(b);
        fulls.push(f);
        let mut k: usize = 0;
        while k < DEPOSIT_CONTRACT_TREE_DEPTH
            invariant
                self.wf(),
                ds == self@,
                n == ds.len(),
                c == count,
                count <= n,
                k <= DEPOSIT_CONTRACT_TREE_DEPTH,
                bounds@.len() == k + 1,
                fulls@.len() == k + 1,
                b == bounds@[k as int],
                f == fulls@[k as int],
                forall|t: int| 0 <= t <= k ==> #[trigger] fulls@[t] == complete_count(c, t as nat),
                forall|t: int| 0 <= t <= k ==> (#[trigger] bounds@[t])@ == node_at(ds, c, t as nat, complete_count(c, t as nat)),
            decreases DEPOSIT_CONTRACT_TREE_DEPTH - k,
        {
            proof {
                lemma_complete_count_mono(c, n, k as nat);
            }
            if f % 2 == 0 {
                proof {
                    lemma_past_complete_is_zero(ds, c, k as nat, (f + 1) as nat);
                }
                b = hash_pair(&b, &self.zero_hashes[k]);
            } else {
                let row = &self.levels[k];
                // the length read bounds the index cast below
                let _len = row.len();
                let left = row[(f - 1) as usize];
                proof {
                    lemma_complete_node_stable(ds, n, ds, c, c, k as nat, (f - 1) as nat);
                }
                b = hash_pair(&left, &b);
            }
            f = f / 2;
            k = k + 1;
            bounds.push(b);
            fulls.push(f);
        }
        (bounds, fulls)
    }

    /// Node `i` of level `k` in the tree of the first `count` leaves.
    fn node_hash(&self, count: u64, bounds: &Vec<Hash256>, fulls: &Vec<u64>, k: usize, i: u64) -> (r: Hash256)
        requires
            self.wf(),
            count <= self@.len(),
            is_boundary(self@, count as nat, bounds@, fulls@),
            k <= DEPOSIT_CONTRACT_TREE_DEPTH,
        ensures
            r@ == node_at(self@, count as nat, k as nat, i as nat),
    {
        let f = fulls[k];
        if i < f {
            proof {
                lemma_complete_count_mono(count as nat, self@.len(), k as nat);
                lemma_complete_node_stable(self@, self@.len(), self@, count as nat, count as nat, k as nat, i as nat);
            }
            let row = &self.levels[k];
            // the length read bounds the index cast below
            let _len = row.len();
            row[i as usize]
        } else if i == f {
            bounds[k]
        } else {
            proof {
                lemma_past_complete_is_zero(self@, count as nat, k as nat, i as nat);
            }
            self.zero_hashes[k]
        }
    }

    /// The deposit root of the tree of the first `count` leaves.
    fn root_at(&self, count: u64, bounds: &Vec<Hash256>, fulls: &Vec<u64>) -> (r: Hash256)
        requires
            self.wf(),
            count <= self@.len(),
            is_boundary(self@, count as nat, bounds@, fulls@),
        ensures
            r@ == deposit_root_at(self@, count as nat),
    {
        let subtree = self.node_hash(count, bounds, fulls, DEPOSIT_CONTRACT_TREE_DEPTH, 0);
        hash_pair(&subtree, &le_chunk_of(count))
    }

    /// The root that the deposit contract reported when it held the first
    /// `deposit_count` of the ingested deposits.
    pub fn historical_root(&self, deposit_count: u64) -> (r: Result<Hash256, DepositTreeError>)
        requires
            self.wf(),
        ensures
            deposit_count > self@.len() ==> r == Err::<Hash256, DepositTreeError>(
                DepositTreeError::InsufficientHistory { requested: deposit_count, known: self@.len() as u64 },
            ),
            deposit_count <= self@.len() ==> r is Ok && r->Ok_0@ == deposit_root_at(self@, deposit_count as nat),
    {
        let known = self.deposits.len() as u64;
        if deposit_count > known {
            return Err(DepositTreeError::InsufficientHistory { requested: deposit_count, known });
        }
        let (bounds, fulls) = self.boundary(deposit_count);
        Ok(self.root_at(deposit_count, &bounds, &fulls))
    }

    /// The deposit root over every ingested deposit.
    pub fn root(&self) -> (r: Hash256)
        requires
            self.wf(),
        ensures
            r@ == deposit_root_at(self@, self@.len()),
    {
        let count = self.deposits.len() as u64;
        let (bounds, fulls) = self.boundary(count);
        self.root_at(count, &bounds, &fulls)
    }

    /// The contract's inclusion proof of leaf `j` in the tree of the first
    /// `count` leaves.
    fn proof_at(&self, count: u64, bounds: &Vec<Hash256>, fulls: &Vec<u64>, j: u64) -> (proof: Vec<Hash256>)
        requires
            self.wf(),
            j < count <= self@.len(),
            is_boundary(self@, count as nat, bounds@, fulls@),
        ensures
            is_contract_proof(self@, count as nat, j, hash_seq(proof@)),
    {
        let ghost ds = self@;
        let ghost c = count as nat;
        let mut proof: Vec<Hash256> = Vec::new();
        let mut idx: u64 = j;
        let mut k: usize = 0;
        proof {
            lemma_ancestor_zero(j);
        }
        while k < DEPOSIT_CONTRACT_TREE_DEPTH
            invariant
                self.wf(),
                ds == self@,
                c == count,
                j < count <= self@.len(),
                is_boundary(self@, count as nat, bounds@, fulls@),
                k <= DEPOSIT_CONTRACT_TREE_DEPTH,
                idx == ancestor(j, k as nat),
                proof@.len() == k,
                forall|t: int| 0 <= t < k ==> (#[trigger] proof@[t])@ == node_at(ds, c, t as nat, sibling(ancestor(j, t as nat))),
            decreases DEPOSIT_CONTRACT_TREE_DEPTH - k,
        {
            proof {
                lemma_ancestor_step(j, k as u64);
            }
            let sib: u64 = if idx % 2 == 0 {
                idx + 1
            } else {
                idx - 1
            };
            let h = self.node_hash(count, bounds, fulls, k, sib);
            proof.push(h);
            idx = idx / 2;
            k = k + 1;
        }
        proof.push(le_chunk_of(count));
        proof {
            let hs = hash_seq(proof@);
            assert forall|t: nat| t < DEPOSIT_CONTRACT_TREE_DEPTH implies #[trigger] hs[t as int]
                == node_at(ds, c, t, sibling(ancestor(j, t))) by {
                assert(proof@[t as int]@ == node_at(ds, c, t, sibling(ancestor(j, t))));
            }
        }
        proof
    }

    /// The root at a historical `deposit_count` together with each deposit in
    /// `range` and its inclusion proof in the tree of that many leaves.
    pub fn get_deposits(&self, range: std::ops::Range<u64>, deposit_count: u64, depth: usize) -> (r: Result<(Hash256, Vec<Deposit>), DepositTreeError>)
        requires
            self.wf(),
        ensures
            deposit_count > self@.len() ==> r == Err::<(Hash256, Vec<Deposit>), DepositTreeError>(
                DepositTreeError::InsufficientHistory { requested: deposit_count, known: self@.len() as u64 },
            ),
            deposit_count <= self@.len() && depth != DEPOSIT_CONTRACT_TREE_DEPTH
                ==> r == Err::<(Hash256, Vec<Deposit>), DepositTreeError>(DepositTreeError::UnsupportedDepth { depth }),
            deposit_count <= self@.len() && depth == DEPOSIT_CONTRACT_TREE_DEPTH
                && !(range.start <= range.end <= deposit_count) ==> r == Err::<(Hash256, Vec<Deposit>), DepositTreeError>(
                DepositTreeError::InvalidRange { start: range.start, end: range.end, deposit_count },
            ),
            deposit_count <= self@.len() && depth == DEPOSIT_CONTRACT_TREE_DEPTH
                && range.start <= range.end <= deposit_count ==> r is Ok && ({
                let (root, deposits) = r->Ok_0;
                &&& root@ == deposit_root_at(self@, deposit_count as nat)
                &&& deposits@.len() == range.end - range.start
                &&& forall|t: int| 0 <= t < deposits@.len() ==> {
                    &&& (#[trigger] deposits@[t]).data == self@[range.start + t]
                    &&& is_contract_proof(self@, deposit_count as nat, (range.start + t) as u64, hash_seq(deposits@[t].proof@))
                    &&& branch_root(deposit_data_root(deposits@[t].data), (range.start + t) as nat,
                        hash_seq(deposits@[t].proof@)) == root@
                }
            }),
    {
        let known = self.deposits.len() as u64;
        if deposit_count > known {
            return Err(DepositTreeError::InsufficientHistory { requested: deposit_count, known });
        }
        if depth != DEPOSIT_CONTRACT_TREE_DEPTH {
            return Err(DepositTreeError::UnsupportedDepth { depth });
        }
        if !(range.start <= range.end && range.end <= deposit_count) {
            return Err(DepositTreeError::InvalidRange { start: range.start, end: range.end, deposit_count });
        }
        let (bounds, fulls) = self.boundary(deposit_count);
        let root = self.root_at(deposit_count, &bounds, &fulls);
        let mut deposits: Vec<Deposit> = Vec::new();
        let mut j: u64 = range.start;
        while j < range.end
            invariant
                self.wf(),
                deposit_count <= self@.len(),
                range.start <= j <= range.end <= deposit_count,
                root@ == deposit_root_at(self@, deposit_count as nat),
                is_boundary(self@, deposit_count as nat, bounds@, fulls@),
                deposits@.len() == j - range.start,
                forall|t: int| 0 <= t < deposits@.len() ==> {
                    &&& (#[trigger] deposits@[t]).data == self@[range.start + t]
                    &&& is_contract_proof(self@, deposit_count as nat, (range.start + t) as u64, hash_seq(deposits@[t].proof@))
                    &&& branch_root(deposit_data_root(deposits@[t].data), (range.start + t) as nat,
                        hash_seq(deposits@[t].proof@)) == root@
                },
            decreases range.end - j,
        {
            let proof = self.proof_at(deposit_count, &bounds, &fulls, j);
            proof {
                lemma_contract_proof_verifies(self@, deposit_count as nat, j, hash_seq(proof@));
            }
            let data = self.deposits[j as usize];
            deposits.push(Deposit { proof, data });
            j = j + 1;
        }
        Ok((root, deposits))
    }
}

} // verus!
