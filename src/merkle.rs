//! A Merkle tree over SHA-256 leaf digests, kept by `rs_merkle`.
use crate::codec::views;
use crate::error::MerkleError;
use crate::membership::{flat_sides, proof_layout_of, proof_root_of};
use vstd::prelude::*;

verus! {

/// The SHA-256 digest of `data`.
pub uninterp spec fn sha256_of(data: Seq<u8>) -> Seq<u8>;

/// The committed leaf digests of a tree.
pub uninterp spec fn tree_leaves(t: TreeHandle) -> Seq<Seq<u8>>;

/// The leaf digests appended to a tree and not yet committed.
pub uninterp spec fn pending_leaves(t: TreeHandle) -> Seq<Seq<u8>>;

/// One level up the tree: each pair of nodes hashed together, left then
/// right, and an unpaired last node promoted unchanged.
pub open spec fn parent_level(nodes: Seq<Seq<u8>>) -> Seq<Seq<u8>> {
    Seq::new(
        ((nodes.len() + 1) / 2) as nat,
        |i: int|
            if 2 * i + 1 < nodes.len() {
                sha256_of(nodes[2 * i] + nodes[2 * i + 1])
            } else {
                nodes[2 * i]
            },
    )
}

/// The root over `leaves`: levels folded pairwise until one node is left.
pub open spec fn merkle_root_of(leaves: Seq<Seq<u8>>) -> Seq<u8>
    decreases leaves.len(),
{
    if leaves.len() <= 1 {
        leaves[0]
    } else {
        merkle_root_of(parent_level(leaves))
    }
}

/// The helper digests that `rs_merkle` gives as the proof of `indices` in a
/// tree over `leaves`.
pub uninterp spec fn helper_hashes_of(leaves: Seq<Seq<u8>>, indices: Seq<usize>) -> Seq<Seq<u8>>;

/// The lowercase hexadecimal digit of `n`, for `n < 16`.
pub open spec fn hex_digit(n: u8) -> char {
    seq!['0', '1', '2', '3', '4', '5', '6', '7', '8', '9', 'a', 'b', 'c', 'd', 'e', 'f'][n as int]
}

/// Two lowercase hexadecimal digits per byte, high digit first.
pub open spec fn hex_of(b: Seq<u8>) -> Seq<char>
    decreases b.len(),
{
    if b.len() == 0 {
        Seq::empty()
    } else {
        hex_of(b.drop_last()) + seq![hex_digit(b.last() / 16), hex_digit(b.last() % 16)]
    }
}

/// The byte contents of digests.
pub open spec fn array_views(s: Seq<[u8; 32]>) -> Seq<Seq<u8>> {
    s.map_values(|a: [u8; 32]| a@)
}

/// Each index is below the next.
pub open spec fn strictly_increasing(s: Seq<usize>) -> bool {
    forall|i: int, j: int| 0 <= i < j < s.len() ==> s[i] < s[j]
}

/// The leaves at `indices`, in the order of `indices`.
pub open spec fn leaves_at(leaves: Seq<Seq<u8>>, indices: Seq<usize>) -> Seq<Seq<u8>> {
    Seq::new(indices.len(), |j: int| leaves[indices[j] as int])
}

/// The leaf digests of `values`, in order.
pub open spec fn digests_of(values: Seq<Seq<u8>>) -> Seq<Seq<u8>> {
    values.map_values(|v: Seq<u8>| sha256_of(v))
}

/// Relies on `sha2::Sha256`: the 32-byte SHA-256 digest of `data`.
#[verifier::external_body]
pub(crate) fn hash(data: &[u8]) -> (r: [u8; 32])
    ensures
        r@ == sha256_of(data@),
{
    <[u8; 32]>::from(<sha2::Sha256 as sha2::Digest>::digest(data))
}

pub(crate) fn hash_all(values: &Vec<Vec<u8>>) -> (r: Vec<[u8; 32]>)
    ensures
        array_views(r@) == digests_of(views(values@)),
{
    let mut r: Vec<[u8; 32]> = Vec::new();
    let mut i: usize = 0;
    while i < values.len()
        invariant
            i <= values.len(),
            array_views(r@) =~= digests_of(views(values@)).subrange(0, i as int),
        decreases values.len() - i,
    {
        let d = hash(values[i].as_slice());
        let ghost before = r@;
        r.push(d);
        assert(r@ == before.push(d));
        assert(views(values@)[i as int] == values@[i as int]@);
        assert(array_views(r@) =~= array_views(before).push(d@));
        i = i + 1;
    }
    assert(digests_of(views(values@)).subrange(0, values.len() as int) =~= digests_of(
        views(values@),
    ));
    r
}

/// Holds an `rs_merkle` tree, whose generic declaration Verus does not
/// accept.
#[verifier::external_body]
pub struct TreeHandle {
    tree: rs_merkle::MerkleTree<rs_merkle::algorithms::Sha256>,
}

impl TreeHandle {
    /// Relies on `MerkleTree::from_leaves`: a tree whose committed leaves are
    /// `leaves`, with nothing pending.
    #[verifier::external_body]
    fn from_leaves(leaves: &Vec<[u8; 32]>) -> (r: TreeHandle)
        ensures
            tree_leaves(r) == array_views(leaves@),
            pending_leaves(r).len() == 0,
    {
        TreeHandle {
            tree: rs_merkle::MerkleTree::<rs_merkle::algorithms::Sha256>::from_leaves(leaves),
        }
    }

    /// Relies on `MerkleTree::append`: moves `leaves` to the end of the
    /// pending leaves.
    #[verifier::external_body]
    fn append(&mut self, leaves: &mut Vec<[u8; 32]>)
        ensures
            tree_leaves(*final(self)) == tree_leaves(*old(self)),
            pending_leaves(*final(self)) == pending_leaves(*old(self)) + array_views(
                old(leaves)@,
            ),
            final(leaves)@.len() == 0,
    {
        self.tree.append(leaves);
    }

    /// Relies on `MerkleTree::commit`: the pending leaves join the committed
    /// ones.
    #[verifier::external_body]
    fn commit(&mut self)
        ensures
            tree_leaves(*final(self)) == tree_leaves(*old(self)) + pending_leaves(*old(self)),
            pending_leaves(*final(self)).len() == 0,
    {
        self.tree.commit();
    }

    /// Relies on `MerkleTree::root`: the root over the committed leaves, or
    /// none when there are none. Each layer hashes pairs of nodes with
    /// `Sha256::concat_and_hash`, which promotes an unpaired node unchanged.
    #[verifier::external_body]
    fn root(&self) -> (r: Option<[u8; 32]>)
        ensures
            r is Some <==> tree_leaves(*self).len() > 0,
            r is Some ==> r->Some_0@ == merkle_root_of(tree_leaves(*self)),
    {
        self.tree.root()
    }

    /// Relies on `MerkleTree::root_hex`: the root over the committed leaves in
    /// lowercase hexadecimal, two digits per byte, or none when there are no
    /// leaves.
    #[verifier::external_body]
    fn root_hex(&self) -> (r: Option<String>)
        ensures
            r is Some <==> tree_leaves(*self).len() > 0,
            r is Some ==> r->Some_0@ == hex_of(merkle_root_of(tree_leaves(*self))),
    {
        self.tree.root_hex()
    }

    /// Relies on `MerkleTree::proof`: the helper digests that prove the leaves
    /// at strictly increasing `indices`, one for each node of the proof
    /// layout, from which `MerkleProof::root` recomputes the tree's root when
    /// at least one leaf is proved (with none it has no node to return).
    #[verifier::external_body]
    fn proof_hashes(&self, indices: &Vec<usize>) -> (r: Vec<[u8; 32]>)
        requires
            strictly_increasing(indices@),
            forall|i: int| 0 <= i < indices.len() ==> #[trigger] indices[i] < tree_leaves(*self).len(),
        ensures
            array_views(r@) == helper_hashes_of(tree_leaves(*self), indices@),
            r@.len() == flat_sides(proof_layout_of(indices@, tree_leaves(*self).len())).len(),
            indices@.len() > 0 ==> proof_root_of(
                array_views(r@),
                indices@,
                leaves_at(tree_leaves(*self), indices@),
                tree_leaves(*self).len(),
            ) == Some(merkle_root_of(tree_leaves(*self))),
    {
        self.tree.proof(indices).proof_hashes().to_vec()
    }
}

/// A Merkle tree over the digests of an ordered sequence of byte values,
/// which only ever grows at its end.
pub struct MerkleIndex {
    handle: TreeHandle,
    count: usize,
}

impl View for MerkleIndex {
    type V = Seq<Seq<u8>>;

    /// The leaf digests, in order.
    closed spec fn view(&self) -> Seq<Seq<u8>> {
        tree_leaves(self.handle)
    }
}

impl MerkleIndex {
    pub closed spec fn wf(&self) -> bool {
        &&& self.count == tree_leaves(self.handle).len()
        &&& pending_leaves(self.handle).len() == 0
    }

    /// Number of leaves.
    pub fn leaf_count(&self) -> (r: usize)
        requires
            self.wf(),
        ensures
            r == self@.len(),
    {
        self.count
    }

    /// The helper digests that prove the leaves at `indices`.
    pub(crate) fn helper_hashes(&self, indices: &Vec<usize>) -> (r: Vec<[u8; 32]>)
        requires
            self.wf(),
            strictly_increasing(indices@),
            forall|i: int| 0 <= i < indices.len() ==> #[trigger] indices[i] < self@.len(),
        ensures
            array_views(r@) == helper_hashes_of(self@, indices@),
            r@.len() == flat_sides(proof_layout_of(indices@, self@.len())).len(),
            indices@.len() > 0 ==> proof_root_of(
                array_views(r@),
                indices@,
                leaves_at(self@, indices@),
                self@.len(),
            ) == Some(merkle_root_of(self@)),
    {
        self.handle.proof_hashes(indices)
    }
}

/// Builds a tree over the digests of `leaf_values`; an empty sequence has no
/// tree.
pub fn create_tree(leaf_values: &Vec<Vec<u8>>) -> (r: Result<MerkleIndex, MerkleError>)
    ensures
        leaf_values.len() == 0 ==> r == Err::<MerkleIndex, MerkleError>(MerkleError::Empty),
        leaf_values.len() > 0 ==> r is Ok && r->Ok_0.wf() && r->Ok_0@ == digests_of(
            views(leaf_values@),
        ),
{
    if leaf_values.len() == 0 {
        return Err(MerkleError::Empty);
    }
    let leaves = hash_all(leaf_values);
    let handle = TreeHandle::from_leaves(&leaves);
    Ok(MerkleIndex { handle, count: leaf_values.len() })
}

/// Appends the digests of `leaf_values` at the end of the tree.
pub fn append_to_tree(tree: &mut MerkleIndex, leaf_values: &Vec<Vec<u8>>)
    requires
        old(tree).wf(),
        old(tree)@.len() + leaf_values.len() <= usize::MAX,
    ensures
        final(tree).wf(),
        final(tree)@ == old(tree)@ + digests_of(views(leaf_values@)),
{
    let mut leaves = hash_all(leaf_values);
    tree.handle.append(&mut leaves);
    tree.handle.commit();
    tree.count = tree.count + leaf_values.len();
    assert(pending_leaves(tree.handle).len() == 0);
}

/// The current root of the tree.
pub fn get_root(tree: &MerkleIndex) -> (r: Result<[u8; 32], MerkleError>)
    requires
        tree.wf(),
    ensures
        tree@.len() == 0 ==> r == Err::<[u8; 32], MerkleError>(MerkleError::Empty),
        tree@.len() > 0 ==> r is Ok && r->Ok_0@ == merkle_root_of(tree@),
{
    match tree.handle.root() {
        Some(root) => Ok(root),
        None => Err(MerkleError::Empty),
    }
}

/// The current root of the tree, as 64 lowercase hexadecimal digits.
pub fn get_root_hex(tree: &MerkleIndex) -> (r: Result<String, MerkleError>)
    requires
        tree.wf(),
    ensures
        tree@.len() == 0 ==> r is Err && r->Err_0 == MerkleError::Empty,
        tree@.len() > 0 ==> r is Ok && r->Ok_0@ == hex_of(merkle_root_of(tree@)),
{
    match tree.handle.root_hex() {
        Some(hex) => Ok(hex),
        None => Err(MerkleError::Empty),
    }
}

/// The root over three values is the hash of the hash of the first two
/// leaf digests, then the third digest promoted unchanged and paired with it.
pub proof fn lemma_three_leaf_root(a: Seq<u8>, b: Seq<u8>, c: Seq<u8>)
    ensures
        merkle_root_of(digests_of(seq![a, b, c])) == sha256_of(
            sha256_of(sha256_of(a) + sha256_of(b)) + sha256_of(c),
        ),
{
    let leaves = digests_of(seq![a, b, c]);
    let ab = sha256_of(sha256_of(a) + sha256_of(b));
    let top = sha256_of(ab + sha256_of(c));
    assert(parent_level(leaves) =~= seq![ab, sha256_of(c)]);
    assert(parent_level(seq![ab, sha256_of(c)]) =~= seq![top]);
    reveal_with_fuel(merkle_root_of, 3);
}

} // verus!
