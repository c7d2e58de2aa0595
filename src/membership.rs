//! Membership proofs: their byte format, how the tree produces them, and how
//! they are checked against a root.
use crate::codec::views;
use crate::error::MerkleError;
use crate::merkle::{
    array_views, digests_of, hash_all, helper_hashes_of, leaves_at, merkle_root_of,
    strictly_increasing, MerkleIndex,
};
use crate::shards::copy_range;
use vstd::prelude::*;

verus! {

/// Per tree layer, the node indices of the helper digests that `rs_merkle`
/// uses to prove `indices` in a tree of `count` leaves.
pub uninterp spec fn proof_layout_of(indices: Seq<usize>, count: nat) -> Seq<Seq<usize>>;

/// The root that `rs_merkle` recomputes from helper digests, leaf indices and
/// leaf digests in a tree of `count` leaves, or none where they do not fit.
pub uninterp spec fn proof_root_of(
    hashes: Seq<Seq<u8>>,
    indices: Seq<usize>,
    leaf_hashes: Seq<Seq<u8>>,
    count: nat,
) -> Option<Seq<u8>>;

/// The node indices of a layout, layer by layer.
pub open spec fn layout_views(v: Seq<Vec<usize>>) -> Seq<Seq<usize>> {
    v.map_values(|x: Vec<usize>| x@)
}

/// Relies on `rs_merkle::utils::indices::proof_indices_by_layers`: per
/// layer, the indices of the helper nodes of a proof.
#[verifier::external_body]
fn proof_layout(indices: &Vec<usize>, count: usize) -> (r: Vec<Vec<usize>>)
    requires
        count >= 1,
        forall|i: int| 0 <= i < indices.len() ==> #[trigger] indices[i] < count,
    ensures
        layout_views(r@) == proof_layout_of(indices@, count as nat),
{
    rs_merkle::utils::indices::proof_indices_by_layers(indices, count)
}

/// Relies on `MerkleProof::new` and `MerkleProof::root`: the root that the
/// helper digests give for the leaf digests at `indices`, or none on any of
/// the crate's errors.
#[verifier::external_body]
fn proof_root(hashes: &Vec<Vec<u8>>, indices: &Vec<usize>, leaf_hashes: &Vec<[u8; 32]>, count: usize) -> (r:
    Option<[u8; 32]>)
    requires
        count >= 1,
        forall|i: int| 0 <= i < indices.len() ==> #[trigger] indices[i] < count,
        forall|i: int| 0 <= i < hashes.len() ==> #[trigger] hashes[i]@.len() == 32,
    ensures
        r is Some <==> proof_root_of(views(hashes@), indices@, array_views(leaf_hashes@), count as nat) is Some,
        r is Some ==> Some(r->Some_0@) == proof_root_of(
            views(hashes@),
            indices@,
            array_views(leaf_hashes@),
            count as nat,
        ),
{
    let hashes: Vec<[u8; 32]> = hashes.iter().map(|h| <[u8; 32]>::try_from(h.as_slice()).unwrap()).collect();
    rs_merkle::MerkleProof::<rs_merkle::algorithms::Sha256>::new(hashes).root(indices, leaf_hashes, count).ok()
}

/// 256 to the power `n`.
pub open spec fn pow256(n: nat) -> nat
    decreases n,
{
    if n == 0 {
        1
    } else {
        256 * pow256((n - 1) as nat)
    }
}

/// The number that big-endian bytes `b` stand for.
pub open spec fn be_value(b: Seq<u8>) -> nat
    decreases b.len(),
{
    if b.len() == 0 {
        0
    } else {
        be_value(b.drop_last()) * 256 + b.last() as nat
    }
}

/// The `n` big-endian bytes of `v`.
pub open spec fn be_bytes(v: nat, n: nat) -> Seq<u8>
    decreases n,
{
    if n == 0 {
        Seq::empty()
    } else {
        be_bytes(v / 256, (n - 1) as nat).push((v % 256) as u8)
    }
}

/// Side flag of a helper node: 1 where it is a right child, 0 where left.
pub open spec fn side_of(index: usize) -> u8 {
    (index % 2) as u8
}

/// The side flags of a layout, layer by layer.
pub open spec fn flat_sides(layout: Seq<Seq<usize>>) -> Seq<u8>
    decreases layout.len(),
{
    if layout.len() == 0 {
        Seq::empty()
    } else {
        flat_sides(layout.drop_last()) + layout.last().map_values(|x: usize| side_of(x))
    }
}

/// Each item as its side flag followed by its digest.
pub open spec fn items_bytes(sides: Seq<u8>, digests: Seq<Seq<u8>>) -> Seq<u8>
    decreases digests.len(),
{
    if digests.len() == 0 || sides.len() == 0 {
        Seq::empty()
    } else {
        items_bytes(sides.drop_last(), digests.drop_last()) + seq![sides.last()]
            + digests.last()
    }
}

/// A serialized proof: leaf count and item count, 8 big-endian bytes each,
/// then the items.
pub open spec fn proof_bytes(count: nat, sides: Seq<u8>, digests: Seq<Seq<u8>>) -> Seq<u8> {
    be_bytes(count, 8) + be_bytes(digests.len(), 8) + items_bytes(sides, digests)
}

/// The leaf count that proof bytes record.
pub open spec fn proof_count(b: Seq<u8>) -> nat {
    be_value(b.subrange(0, 8))
}

/// The item count that proof bytes record.
pub open spec fn proof_items(b: Seq<u8>) -> nat {
    be_value(b.subrange(8, 16))
}

/// The side flag of item `i` of proof bytes.
pub open spec fn side_at(b: Seq<u8>, i: int) -> u8 {
    b[16 + 33 * i]
}

/// The digest of item `i` of proof bytes.
pub open spec fn digest_at(b: Seq<u8>, i: int) -> Seq<u8> {
    b.subrange(17 + 33 * i, 49 + 33 * i)
}

/// Proof bytes have both counts, exactly the items they announce, and a
/// side flag of 0 or 1 in each item.
pub open spec fn proof_well_formed(b: Seq<u8>) -> bool {
    &&& b.len() >= 16
    &&& b.len() == 16 + 33 * proof_items(b)
    &&& forall|i: int| 0 <= i < proof_items(b) ==> #[trigger] side_at(b, i) <= 1
}

/// The helper digests of well-formed proof bytes.
pub open spec fn proof_digests(b: Seq<u8>) -> Seq<Seq<u8>> {
    Seq::new(proof_items(b), |i: int| digest_at(b, i))
}

/// The distinct values of `indices` below `j`, in increasing order.
pub open spec fn distinct_sorted(indices: Seq<usize>, j: nat) -> Seq<usize>
    decreases j,
{
    if j == 0 {
        Seq::empty()
    } else {
        let prev = distinct_sorted(indices, (j - 1) as nat);
        if indices.contains((j - 1) as usize) {
            prev.push((j - 1) as usize)
        } else {
            prev
        }
    }
}

/// The position of the first occurrence of `x` in `s`.
pub open spec fn first_pos(s: Seq<usize>, x: usize) -> int {
    choose|p: int| 0 <= p < s.len() && s[p] == x && forall|q: int| 0 <= q < p ==> s[q] != x
}

/// For each index of `sorted`, the value given with its first occurrence in
/// `indices`.
pub open spec fn values_for(sorted: Seq<usize>, indices: Seq<usize>, values: Seq<Seq<u8>>) -> Seq<
    Seq<u8>,
> {
    Seq::new(sorted.len(), |k: int| values[first_pos(indices, sorted[k])])
}

proof fn lemma_distinct_sorted_members(indices: Seq<usize>, j: nat)
    ensures
        forall|k: int|
            0 <= k < distinct_sorted(indices, j).len() ==> indices.contains(
                #[trigger] distinct_sorted(indices, j)[k],
            ) && distinct_sorted(indices, j)[k] < j,
    decreases j,
{
    if j > 0 {
        lemma_distinct_sorted_members(indices, (j - 1) as nat);
        let prev = distinct_sorted(indices, (j - 1) as nat);
        let d = distinct_sorted(indices, j);
        assert forall|k: int| 0 <= k < d.len() implies indices.contains(#[trigger] d[k]) && d[k]
            < j by {
            if k < prev.len() {
                assert(d[k] == prev[k]);
            }
        }
    }
}

proof fn lemma_distinct_sorted_complete(indices: Seq<usize>, j: nat, x: usize)
    requires
        indices.contains(x),
        x < j,
    ensures
        distinct_sorted(indices, j).contains(x),
    decreases j,
{
    let d = distinct_sorted(indices, j);
    if x == j - 1 {
        assert(d[d.len() - 1] == x);
    } else {
        lemma_distinct_sorted_complete(indices, (j - 1) as nat, x);
        let prev = distinct_sorted(indices, (j - 1) as nat);
        let k = choose|k: int| 0 <= k < prev.len() && prev[k] == x;
        assert(d[k] == x);
    }
}

/// What proving the leaves at `indices` of a tree over `leaves` gives.
pub open spec fn proof_result(leaves: Seq<Seq<u8>>, indices: Seq<usize>) -> Result<
    Seq<u8>,
    MerkleError,
> {
    if leaves.len() == 0 {
        Err(MerkleError::Empty)
    } else if exists|i: int| 0 <= i < indices.len() && indices[i] >= leaves.len() {
        Err(MerkleError::Index)
    } else {
        let sorted = distinct_sorted(indices, leaves.len());
        Ok(
            proof_bytes(
                leaves.len(),
                flat_sides(proof_layout_of(sorted, leaves.len())),
                helper_hashes_of(leaves, sorted),
            ),
        )
    }
}

/// The side flags of proof bytes.
pub open spec fn proof_sides(b: Seq<u8>) -> Seq<u8> {
    Seq::new(proof_items(b), |i: int| side_at(b, i))
}

/// `b` is a well-formed proof of the leaves at `indices` in a tree over
/// `leaves`: it records the tree's leaf count and the side flags of the
/// proof layout of the distinct indices in increasing order, and where
/// there is at least one, its digests recompute the tree's root from those
/// leaves.
pub open spec fn is_proof_of(b: Seq<u8>, leaves: Seq<Seq<u8>>, indices: Seq<usize>) -> bool {
    let sorted = distinct_sorted(indices, leaves.len());
    &&& leaves.len() >= 1
    &&& forall|i: int| 0 <= i < indices.len() ==> #[trigger] indices[i] < leaves.len()
    &&& proof_well_formed(b)
    &&& proof_count(b) == leaves.len()
    &&& proof_sides(b) == flat_sides(proof_layout_of(sorted, leaves.len()))
    &&& sorted.len() > 0 ==> proof_root_of(
        proof_digests(b),
        sorted,
        leaves_at(leaves, sorted),
        leaves.len(),
    ) == Some(merkle_root_of(leaves))
}

/// What checking proof bytes `b` gives for the values `values` at `indices`
/// against `root` in a tree of `len` leaves. Each distinct index is checked
/// with the value given at its first occurrence.
pub open spec fn verify_result(
    b: Seq<u8>,
    indices: Seq<usize>,
    values: Seq<Seq<u8>>,
    root: Seq<u8>,
    len: nat,
) -> Result<bool, MerkleError> {
    if !proof_well_formed(b) {
        Err(MerkleError::ProofFormat)
    } else {
        Ok(
            proof_count(b) == len && len >= 1 && indices.len() == values.len() && (forall|i: int|
                0 <= i < indices.len() ==> #[trigger] indices[i] < len) && proof_sides(b)
                == flat_sides(proof_layout_of(distinct_sorted(indices, len), len)) && proof_root_of(
                proof_digests(b),
                distinct_sorted(indices, len),
                digests_of(values_for(distinct_sorted(indices, len), indices, values)),
                len,
            ) == Some(root),
        )
    }
}

/// The byte contents of a result.
pub open spec fn bytes_result_view(r: Result<Vec<u8>, MerkleError>) -> Result<Seq<u8>, MerkleError> {
    match r {
        Ok(v) => Ok(v@),
        Err(e) => Err(e),
    }
}

proof fn lemma_pow256_mono(a: nat, b: nat)
    requires
        a <= b,
    ensures
        1 <= pow256(a) <= pow256(b),
    decreases b,
{
    if b > 0 {
        if a < b {
            lemma_pow256_mono(a, (b - 1) as nat);
        } else {
            lemma_pow256_mono(0, (b - 1) as nat);
        }
    }
}

proof fn lemma_be_round_trip(v: nat, n: nat)
    requires
        v < pow256(n),
    ensures
        be_bytes(v, n).len() == n,
        be_value(be_bytes(v, n)) == v,
    decreases n,
{
    if n > 0 {
        let q = v / 256;
        let p = pow256((n - 1) as nat);
        assert(q < p) by (nonlinear_arith)
            requires
                v < 256 * p,
                q == v / 256,
        ;
        lemma_be_round_trip(q, (n - 1) as nat);
        assert(be_bytes(v, n).drop_last() =~= be_bytes(q, (n - 1) as nat));
    }
}

fn push_be(out: &mut Vec<u8>, v: u64, n: usize)
    ensures
        final(out)@ == old(out)@ + be_bytes(v as nat, n as nat),
    decreases n,
{
    if n > 0 {
        push_be(out, v / 256, n - 1);
        out.push((v % 256) as u8);
        assert(final(out)@ =~= old(out)@ + be_bytes(v as nat, n as nat));
    } else {
        assert(out@ =~= old(out)@ + be_bytes(v as nat, n as nat));
    }
}

fn read_be(b: &Vec<u8>, start: usize) -> (r: u64)
    requires
        start + 8 <= b.len(),
    ensures
        r == be_value(b@.subrange(start as int, start + 8)),
{
    proof {
        reveal_with_fuel(pow256, 9);
    }
    let mut v: u64 = 0;
    let mut i: usize = 0;
    while i < 8
        invariant
            i <= 8,
            start + 8 <= b.len(),
            v == be_value(b@.subrange(start as int, start + i)),
            v < pow256(i as nat),
            pow256(8) == 0x1_0000_0000_0000_0000,
        decreases 8 - i,
    {
        proof {
            lemma_pow256_mono((i + 1) as nat, 8);
        }
        let byte = b[start + i];
        assert(v * 256 + byte < pow256((i + 1) as nat)) by (nonlinear_arith)
            requires
                v < pow256(i as nat),
                pow256((i + 1) as nat) == 256 * pow256(i as nat),
                byte < 256,
        ;
        assert(b@.subrange(start as int, start + i + 1).drop_last() =~= b@.subrange(
            start as int,
            start + i,
        ));
        v = v * 256 + byte as u64;
        i = i + 1;
    }
    v
}

fn append_digest(out: &mut Vec<u8>, d: &[u8; 32])
    ensures
        final(out)@ == old(out)@ + d@,
{
    let mut i: usize = 0;
    while i < 32
        invariant
            i <= 32,
            d@.len() == 32,
            out@ == old(out)@ + d@.subrange(0, i as int),
        decreases 32 - i,
    {
        out.push(d[i]);
        assert(out@ =~= old(out)@ + d@.subrange(0, i + 1));
        i = i + 1;
    }
    assert(d@.subrange(0, 32) =~= d@);
}

fn same_digest(a: &[u8; 32], b: &[u8; 32]) -> (r: bool)
    ensures
        r == (a@ == b@),
{
    let mut i: usize = 0;
    while i < 32
        invariant
            i <= 32,
            a@.len() == 32 && b@.len() == 32,
            forall|j: int| 0 <= j < i ==> a@[j] == b@[j],
        decreases 32 - i,
    {
        if a[i] != b[i] {
            return false;
        }
        i = i + 1;
    }
    assert(a@ =~= b@);
    true
}

fn layout_sides(layout: &Vec<Vec<usize>>) -> (r: Vec<u8>)
    ensures
        r@ == flat_sides(layout_views(layout@)),
        forall|j: int| 0 <= j < r@.len() ==> #[trigger] r@[j] <= 1,
{
    let ghost lv = layout_views(layout@);
    let mut sides: Vec<u8> = Vec::new();
    let mut l: usize = 0;
    while l < layout.len()
        invariant
            l <= layout.len(),
            lv == layout_views(layout@),
            sides@ == flat_sides(lv.subrange(0, l as int)),
            forall|j: int| 0 <= j < sides@.len() ==> #[trigger] sides@[j] <= 1,
        decreases layout.len() - l,
    {
        let layer = &layout[l];
        assert(lv[l as int] == layer@);
        let ghost start = sides@;
        let mut x: usize = 0;
        while x < layer.len()
            invariant
                x <= layer.len(),
                sides@ == start + layer@.subrange(0, x as int).map_values(|y: usize| side_of(y)),
                forall|j: int| 0 <= j < sides@.len() ==> #[trigger] sides@[j] <= 1,
            decreases layer.len() - x,
        {
            sides.push((layer[x] % 2) as u8);
            assert(layer@.subrange(0, x + 1).map_values(|y: usize| side_of(y)) =~= layer@.subrange(
                0,
                x as int,
            ).map_values(|y: usize| side_of(y)).push(side_of(layer[x as int])));
            assert(sides@ =~= start + layer@.subrange(0, x + 1).map_values(|y: usize| side_of(y)));
            x = x + 1;
        }
        assert(layer@.subrange(0, layer.len() as int) =~= layer@);
        assert(lv.subrange(0, l + 1).drop_last() =~= lv.subrange(0, l as int));
        l = l + 1;
    }
    assert(lv.subrange(0, layout.len() as int) =~= lv);
    sides
}

fn same_bytes(a: &Vec<u8>, b: &Vec<u8>) -> (r: bool)
    ensures
        r == (a@ == b@),
{
    if a.len() != b.len() {
        return false;
    }
    let mut i: usize = 0;
    while i < a.len()
        invariant
            i <= a.len() == b.len(),
            forall|j: int| 0 <= j < i ==> a@[j] == b@[j],
        decreases a.len() - i,
    {
        if a[i] != b[i] {
            return false;
        }
        i = i + 1;
    }
    assert(a@ =~= b@);
    true
}

fn contains_index(indices: &Vec<usize>, x: usize) -> (r: bool)
    ensures
        r == indices@.contains(x),
{
    let mut i: usize = 0;
    while i < indices.len()
        invariant
            i <= indices.len(),
            forall|q: int| 0 <= q < i ==> indices@[q] != x,
        decreases indices.len() - i,
    {
        if indices[i] == x {
            assert(indices@[i as int] == x);
            return true;
        }
        i = i + 1;
    }
    false
}

/// The distinct indices below `n`, in increasing order.
fn distinct_indices(indices: &Vec<usize>, n: usize) -> (r: Vec<usize>)
    ensures
        r@ == distinct_sorted(indices@, n as nat),
        strictly_increasing(r@),
        forall|k: int| 0 <= k < r@.len() ==> #[trigger] r@[k] < n,
{
    let mut out: Vec<usize> = Vec::new();
    let mut j: usize = 0;
    while j < n
        invariant
            j <= n,
            out@ == distinct_sorted(indices@, j as nat),
            strictly_increasing(out@),
            forall|k: int| 0 <= k < out@.len() ==> #[trigger] out@[k] < j,
        decreases n - j,
    {
        if contains_index(indices, j) {
            out.push(j);
        }
        j = j + 1;
    }
    out
}

fn first_position(indices: &Vec<usize>, x: usize) -> (r: usize)
    requires
        indices@.contains(x),
    ensures
        r < indices.len(),
        r == first_pos(indices@, x),
{
    let mut i: usize = 0;
    while i < indices.len()
        invariant
            i <= indices.len(),
            indices@.contains(x),
            forall|q: int| 0 <= q < i ==> indices@[q] != x,
        decreases indices.len() - i,
    {
        if indices[i] == x {
            let ghost p = first_pos(indices@, x);
            assert(0 <= p < indices.len() && indices@[p] == x && forall|q: int|
                0 <= q < p ==> indices@[q] != x);
            assert(p == i) by {
                if p < i {
                } else if p > i {
                    assert(indices@[i as int] == x);
                }
            }
            return i;
        }
        i = i + 1;
    }
    proof {
        let w = choose|q: int| 0 <= q < indices.len() && indices@[q] == x;
        assert(indices@[w] != x);
    }
    0
}

/// Proves the leaves at `indices`, taken as distinct and in increasing
/// order: the leaf count, then for each helper digest that `rs_merkle`
/// gives, its side flag and the digest.
#[verifier::loop_isolation(false)]
pub fn create_proof_bytes(indices_to_prove: &Vec<usize>, merkle_tree: &MerkleIndex) -> (r: Result<
    Vec<u8>,
    MerkleError,
>)
    requires
        merkle_tree.wf(),
    ensures
        bytes_result_view(r) == proof_result(merkle_tree@, indices_to_prove@),
        r is Ok ==> is_proof_of(r->Ok_0@, merkle_tree@, indices_to_prove@),
{
    let n = merkle_tree.leaf_count();
    if n == 0 {
        return Err(MerkleError::Empty);
    }
    let mut i: usize = 0;
    while i < indices_to_prove.len()
        invariant
            i <= indices_to_prove.len(),
            n == merkle_tree@.len(),
            forall|j: int| 0 <= j < i ==> #[trigger] indices_to_prove[j] < n,
        decreases indices_to_prove.len() - i,
    {
        if indices_to_prove[i] >= n {
            assert(indices_to_prove@[i as int] >= merkle_tree@.len());
            return Err(MerkleError::Index);
        }
        i = i + 1;
    }
    let sorted = distinct_indices(indices_to_prove, n);
    let hs = merkle_tree.helper_hashes(&sorted);
    let layout = proof_layout(&sorted, n);
    let sides = layout_sides(&layout);
    let ghost ds = array_views(hs@);
    let mut out: Vec<u8> = Vec::new();
    push_be(&mut out, n as u64, 8);
    push_be(&mut out, hs.len() as u64, 8);
    proof {
        reveal_with_fuel(pow256, 9);
        lemma_be_round_trip(n as nat, 8);
        lemma_be_round_trip(hs.len() as nat, 8);
    }
    let ghost head = out@;
    assert(head.subrange(0, 8) =~= be_bytes(n as nat, 8));
    assert(head.subrange(8, 16) =~= be_bytes(hs.len() as nat, 8));
    let mut k: usize = 0;
    while k < hs.len()
        invariant
            k <= hs.len() == sides.len(),
            ds == array_views(hs@),
            out@ == head + items_bytes(sides@.subrange(0, k as int), ds.subrange(0, k as int)),
            out.len() == 16 + 33 * k,
            out@.subrange(0, 16) == head,
            forall|j: int| 0 <= j < k ==> #[trigger] side_at(out@, j) == sides@[j],
            forall|j: int| 0 <= j < k ==> #[trigger] digest_at(out@, j) == ds[j],
        decreases hs.len() - k,
    {
        let ghost before = out@;
        out.push(sides[k]);
        append_digest(&mut out, &hs[k]);
        assert(out@ == before.push(sides@[k as int]) + hs@[k as int]@);
        assert(ds[k as int] == hs@[k as int]@);
        assert(out@.subrange(0, 16) =~= head);
        assert forall|j: int| 0 <= j < k + 1 implies #[trigger] side_at(out@, j) == sides@[j] by {
            if j < k {
                assert(side_at(out@, j) == side_at(before, j));
            }
        }
        assert forall|j: int| 0 <= j < k + 1 implies #[trigger] digest_at(out@, j) == ds[j] by {
            if j < k {
                assert(digest_at(out@, j) =~= digest_at(before, j));
            } else {
                assert(digest_at(out@, j) =~= hs@[k as int]@);
            }
        }
        assert(sides@.subrange(0, k + 1).drop_last() =~= sides@.subrange(0, k as int));
        assert(ds.subrange(0, k + 1).drop_last() =~= ds.subrange(0, k as int));
        assert(out@ =~= head + items_bytes(sides@.subrange(0, k + 1), ds.subrange(0, k + 1)));
        k = k + 1;
    }
    assert(sides@.subrange(0, hs.len() as int) =~= sides@);
    assert(ds.subrange(0, hs.len() as int) =~= ds);
    assert(out@ =~= proof_bytes(n as nat, sides@, ds));
    assert(out@.subrange(0, 8) =~= head.subrange(0, 8));
    assert(out@.subrange(8, 16) =~= head.subrange(8, 16));
    assert(proof_digests(out@) =~= ds);
    assert(proof_sides(out@) =~= sides@);
    assert(proof_count(out@) == n);
    assert(proof_items(out@) == hs.len());
    assert(proof_well_formed(out@));
    Ok(out)
}

/// For each index of `sorted`, a copy of the value given with its first
/// occurrence in `indices`.
fn pick_values(sorted: &Vec<usize>, indices: &Vec<usize>, values: &Vec<Vec<u8>>, len: usize) -> (r:
    Vec<Vec<u8>>)
    requires
        sorted@ == distinct_sorted(indices@, len as nat),
        indices.len() == values.len(),
    ensures
        views(r@) == values_for(sorted@, indices@, views(values@)),
{
    proof {
        lemma_distinct_sorted_members(indices@, len as nat);
    }
    let mut picked: Vec<Vec<u8>> = Vec::new();
    let mut k: usize = 0;
    while k < sorted.len()
        invariant
            k <= sorted.len(),
            sorted@ == distinct_sorted(indices@, len as nat),
            indices.len() == values.len(),
            forall|q: int| 0 <= q < sorted@.len() ==> indices@.contains(#[trigger] sorted@[q]),
            views(picked@) =~= values_for(sorted@, indices@, views(values@)).subrange(0, k as int),
        decreases sorted.len() - k,
    {
        assert(indices@.contains(sorted@[k as int]));
        let at = first_position(indices, sorted[k]);
        let v = &values[at];
        let copy = copy_range(v, 0, v.len());
        assert(v@.subrange(0, v.len() as int) =~= v@);
        let ghost before = picked@;
        picked.push(copy);
        assert(views(picked@) =~= views(before).push(copy@));
        k = k + 1;
    }
    assert(views(picked@) =~= values_for(sorted@, indices@, views(values@)));
    picked
}

/// Checks proof bytes for the values `leaf_values_to_prove` at
/// `indices_to_prove` against `root` in a tree of `len` leaves: true exactly
/// when the proof records `len` leaves and the side flags of the proof
/// layout, and the root recomputed from it is `root`. Malformed bytes are
/// an error.
#[verifier::loop_isolation(false)]
pub fn merkle_proof(
    proof_bytes: &Vec<u8>,
    indices_to_prove: &Vec<usize>,
    leaf_values_to_prove: &Vec<Vec<u8>>,
    root: [u8; 32],
    len: usize,
) -> (r: Result<bool, MerkleError>)
    ensures
        r == verify_result(
            proof_bytes@,
            indices_to_prove@,
            views(leaf_values_to_prove@),
            root@,
            len as nat,
        ),
{
    let ghost b = proof_bytes@;
    if proof_bytes.len() < 16 {
        return Err(MerkleError::ProofFormat);
    }
    let count = read_be(proof_bytes, 0);
    let items = read_be(proof_bytes, 8);
    let rest: usize = proof_bytes.len() - 16;
    if items > (rest / 33) as u64 {
        assert(33 * items > rest) by (nonlinear_arith)
            requires
                items > rest / 33,
        ;
        return Err(MerkleError::ProofFormat);
    }
    assert(33 * items <= rest) by (nonlinear_arith)
        requires
            items <= rest / 33,
    ;
    let m: usize = items as usize;
    if 33 * m != rest {
        return Err(MerkleError::ProofFormat);
    }
    let mut digests: Vec<Vec<u8>> = Vec::new();
    let mut recorded: Vec<u8> = Vec::new();
    let mut i: usize = 0;
    while i < m
        invariant
            i <= m,
            m == proof_items(b),
            b == proof_bytes@,
            b.len() == 16 + 33 * m,
            b.len() == proof_bytes.len() <= usize::MAX,
            views(digests@) =~= proof_digests(b).subrange(0, i as int),
            recorded@ =~= proof_sides(b).subrange(0, i as int),
            forall|j: int| 0 <= j < digests.len() ==> #[trigger] digests[j]@.len() == 32,
            forall|j: int| 0 <= j < i ==> #[trigger] side_at(b, j) <= 1,
        decreases m - i,
    {
        assert(16 + 33 * i + 33 <= 16 + 33 * m) by (nonlinear_arith)
            requires
                i < m,
        ;
        let at: usize = 16 + 33 * i;
        if proof_bytes[at] > 1 {
            assert(side_at(b, i as int) > 1);
            return Err(MerkleError::ProofFormat);
        }
        recorded.push(proof_bytes[at]);
        let d = copy_range(proof_bytes, at + 1, at + 33);
        let ghost before = digests@;
        digests.push(d);
        assert(views(digests@) =~= views(before).push(d@));
        i = i + 1;
    }
    assert(proof_digests(b).subrange(0, m as int) =~= proof_digests(b));
    assert(proof_sides(b).subrange(0, m as int) =~= proof_sides(b));
    assert(proof_well_formed(b));
    if count != len as u64 || len == 0 || indices_to_prove.len() != leaf_values_to_prove.len() {
        return Ok(false);
    }
    let mut x: usize = 0;
    while x < indices_to_prove.len()
        invariant
            x <= indices_to_prove.len(),
            forall|j: int| 0 <= j < x ==> #[trigger] indices_to_prove[j] < len,
        decreases indices_to_prove.len() - x,
    {
        if indices_to_prove[x] >= len {
            assert(indices_to_prove@[x as int] >= len);
            return Ok(false);
        }
        x = x + 1;
    }
    let sorted = distinct_indices(indices_to_prove, len);
    let layout = proof_layout(&sorted, len);
    let expected = layout_sides(&layout);
    if !same_bytes(&recorded, &expected) {
        return Ok(false);
    }
    let picked = pick_values(&sorted, indices_to_prove, leaf_values_to_prove, len);
    let leaf_hashes = hash_all(&picked);
    match proof_root(&digests, &sorted, &leaf_hashes, len) {
        Some(candidate) => Ok(same_digest(&candidate, &root)),
        None => Ok(false),
    }
}

/// A proof made by the tree checks out: for the values whose digests are the
/// tree's leaves, the proof of any leaves verifies against the tree's root
/// and leaf count with the values at those leaves.
pub proof fn lemma_proof_checks_out(all_values: Seq<Seq<u8>>, indices: Seq<usize>, proof: Seq<u8>)
    requires
        is_proof_of(proof, digests_of(all_values), indices),
        indices.len() > 0,
    ensures
        verify_result(
            proof,
            indices,
            Seq::new(indices.len(), |j: int| all_values[indices[j] as int]),
            merkle_root_of(digests_of(all_values)),
            all_values.len(),
        ) == Ok::<bool, MerkleError>(true),
{
    let leaves = digests_of(all_values);
    let n = all_values.len();
    let values = Seq::new(indices.len(), |j: int| all_values[indices[j] as int]);
    let sorted = distinct_sorted(indices, n);
    assert(indices.contains(indices[0]));
    lemma_distinct_sorted_complete(indices, n, indices[0]);
    lemma_distinct_sorted_members(indices, n);
    assert forall|k: int| 0 <= k < sorted.len() implies #[trigger] values_for(sorted, indices, values)[k]
        == all_values[sorted[k] as int] by {
        assert(indices.contains(sorted[k]));
        let w = choose|p: int| 0 <= p < indices.len() && indices[p] == sorted[k];
        let fp = first_pos(indices, sorted[k]);
        assert(exists|p: int|
            0 <= p < indices.len() && indices[p] == sorted[k] && forall|q: int|
                0 <= q < p ==> indices[q] != sorted[k]) by {
            lemma_first_occurrence(indices, sorted[k], w);
        }
    }
    assert(digests_of(values_for(sorted, indices, values)) =~= leaves_at(leaves, sorted));
}

proof fn lemma_first_occurrence(s: Seq<usize>, x: usize, w: int)
    requires
        0 <= w < s.len(),
        s[w] == x,
    ensures
        exists|p: int| 0 <= p < s.len() && s[p] == x && forall|q: int| 0 <= q < p ==> s[q] != x,
    decreases w,
{
    if exists|q: int| 0 <= q < w && s[q] == x {
        let q = choose|q: int| 0 <= q < w && s[q] == x;
        lemma_first_occurrence(s, x, q);
    } else {
        assert(forall|q: int| 0 <= q < w ==> s[q] != x);
    }
}

/// A proof made before leaves were appended never checks out against the
/// grown tree's leaf count, whatever root and values it is checked with.
pub proof fn lemma_stale_proof_rejected(
    leaves: Seq<Seq<u8>>,
    added: Seq<Seq<u8>>,
    indices: Seq<usize>,
    proof: Seq<u8>,
    values: Seq<Seq<u8>>,
    root: Seq<u8>,
)
    requires
        is_proof_of(proof, leaves, indices),
        added.len() > 0,
    ensures
        verify_result(proof, indices, values, root, (leaves + added).len()) != Ok::<
            bool,
            MerkleError,
        >(true),
{
}

/// A proof that checks out against one root checks out against no other.
pub proof fn lemma_root_binding(
    proof: Seq<u8>,
    indices: Seq<usize>,
    values: Seq<Seq<u8>>,
    root: Seq<u8>,
    other: Seq<u8>,
    len: nat,
)
    requires
        verify_result(proof, indices, values, root, len) == Ok::<bool, MerkleError>(true),
        other != root,
    ensures
        verify_result(proof, indices, values, other, len) == Ok::<bool, MerkleError>(false),
{
}

} // verus!
