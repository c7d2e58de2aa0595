//! Splitting a blob into data and parity shards, and getting it back from any
//! sufficient subset of them.
use crate::codec::{
    agrees_with, all_of_len, full_encoding, opt_views, present_count, present_of_len,
    recovered_of, views, Codec,
};
use crate::error::ShardError;
use vstd::prelude::*;

verus! {

/// Length of each shard when `len` bytes are spread over `k` data shards.
pub open spec fn shard_size(len: nat, k: nat) -> nat {
    if len % k == 0 {
        len / k
    } else {
        len / k + 1
    }
}

/// Number of trailer bytes that bring `len` up to a multiple of `k`.
pub open spec fn pad_len(len: nat, k: nat) -> nat {
    if len % k == 0 {
        0
    } else {
        (k - len % k) as nat
    }
}

/// The blob followed by its self-describing trailer: `p` bytes of value `p`.
pub open spec fn padded(blob: Seq<u8>, k: nat) -> Seq<u8> {
    let p = pad_len(blob.len(), k);
    blob + Seq::new(p, |i: int| p as u8)
}

/// `k` consecutive pieces of `size` bytes each.
pub open spec fn split(bytes: Seq<u8>, k: nat, size: nat) -> Seq<Seq<u8>> {
    Seq::new(k, |i: int| bytes.subrange(i * size, (i + 1) * size))
}

/// The data shards of `blob` over `k` data shards.
pub open spec fn data_shards_of(blob: Seq<u8>, k: nat) -> Seq<Seq<u8>> {
    split(padded(blob, k), k, shard_size(blob.len(), k))
}

/// The full shard set of `blob` for `n` nodes tolerating `f` faults.
pub open spec fn encoding_of(blob: Seq<u8>, n: nat, f: nat) -> Seq<Seq<u8>> {
    full_encoding(data_shards_of(blob, (n - f) as nat), f)
}

/// What sharding `blob` over `n` nodes with `f` tolerated faults gives.
pub open spec fn encode_result(blob: Seq<u8>, n: nat, f: nat) -> Result<Seq<Seq<u8>>, ShardError> {
    if f >= n {
        Err(ShardError::Config)
    } else if pad_len(blob.len(), (n - f) as nat) >= 256 {
        Err(ShardError::PaddingOverflow)
    } else if f > 0 && n > 256 {
        Err(ShardError::Config)
    } else if blob.len() == 0 {
        Ok(Seq::new(n, |i: int| Seq::empty()))
    } else {
        Ok(encoding_of(blob, n, f))
    }
}

/// The shard contents of a result.
pub open spec fn shards_result_view(r: Result<Vec<Vec<u8>>, ShardError>) -> Result<
    Seq<Seq<u8>>,
    ShardError,
> {
    match r {
        Ok(v) => Ok(views(v@)),
        Err(e) => Err(e),
    }
}

proof fn lemma_padded_len(len: nat, k: nat)
    requires
        k >= 1,
    ensures
        k * shard_size(len, k) == len + pad_len(len, k),
        shard_size(len, k) <= len,
        len > 0 ==> shard_size(len, k) > 0,
{
    vstd::arithmetic::div_mod::lemma_fundamental_div_mod(len as int, k as int);
    let q = len / k;
    let r = len % k;
    if r == 0 {
        assert(q <= len && (len > 0 ==> q > 0)) by (nonlinear_arith)
            requires
                len == k * q,
                k >= 1,
                q >= 0,
        ;
    } else {
        assert(k * (q + 1) == len + (k - r)) by (nonlinear_arith)
            requires
                len == k * q + r,
        ;
        assert(q + 1 <= len) by (nonlinear_arith)
            requires
                len == k * q + r,
                k >= 1,
                r >= 1,
                r < k,
                q >= 0,
        ;
    }
}

pub(crate) fn copy_range(v: &Vec<u8>, start: usize, end: usize) -> (r: Vec<u8>)
    requires
        start <= end <= v.len(),
    ensures
        r@ == v@.subrange(start as int, end as int),
{
    let mut r: Vec<u8> = Vec::new();
    let mut i: usize = start;
    while i < end
        invariant
            start <= i <= end <= v.len(),
            r@ == v@.subrange(start as int, i as int),
        decreases end - i,
    {
        r.push(v[i]);
        assert(r@ =~= v@.subrange(start as int, i + 1));
        i = i + 1;
    }
    r
}

/// Splits `data` into `num_nodes` shards of which any `num_nodes - num_faults`
/// suffice to get it back: the padded blob cut into data shards, in order,
/// followed by the parity shards.
///
/// Fails with `Config` unless `num_faults < num_nodes`, with
/// `PaddingOverflow` where the trailer would be 256 bytes or longer, with
/// `Config` where parity over GF(256) cannot reach `num_nodes` shards (more
/// than 256 with at least one fault). An empty blob has shard size zero
/// and no trailer: its shards are `num_nodes` empty ones.
pub fn to_shards(data: &[u8], num_nodes: usize, num_faults: usize) -> (r: Result<
    Vec<Vec<u8>>,
    ShardError,
>)
    requires
        data.len() + 256 <= usize::MAX,
    ensures
        shards_result_view(r) == encode_result(data@, num_nodes as nat, num_faults as nat),
        r is Ok ==> r->Ok_0.len() == num_nodes,
        r is Ok ==> all_of_len(
            views(r->Ok_0@),
            shard_size(data@.len(), (num_nodes - num_faults) as nat),
        ),
{
    if num_faults >= num_nodes {
        return Err(ShardError::Config);
    }
    let k: usize = num_nodes - num_faults;
    let rem: usize = data.len() % k;
    let pad: usize = if rem == 0 {
        0
    } else {
        k - rem
    };
    if pad >= 256 {
        return Err(ShardError::PaddingOverflow);
    }
    if num_faults > 0 && num_nodes > 256 {
        return Err(ShardError::Config);
    }
    if data.len() == 0 {
        let mut empty: Vec<Vec<u8>> = Vec::new();
        let mut e: usize = 0;
        while e < num_nodes
            invariant
                e <= num_nodes,
                views(empty@) =~= Seq::new(e as nat, |i: int| Seq::<u8>::empty()),
            decreases num_nodes - e,
        {
            let ghost before = empty@;
            empty.push(Vec::new());
            assert(views(empty@) =~= views(before).push(Seq::<u8>::empty()));
            e = e + 1;
        }
        return Ok(empty);
    }
    let size: usize = data.len() / k + if rem == 0 {
        0
    } else {
        1
    };
    proof {
        lemma_padded_len(data@.len(), k as nat);
    }
    let mut bytes: Vec<u8> = Vec::new();
    let mut i: usize = 0;
    while i < data.len()
        invariant
            i <= data.len(),
            bytes@ == data@.subrange(0, i as int),
        decreases data.len() - i,
    {
        bytes.push(data[i]);
        assert(bytes@ =~= data@.subrange(0, i + 1));
        i = i + 1;
    }
    let mut j: usize = 0;
    while j < pad
        invariant
            j <= pad < 256,
            bytes@ == data@ + Seq::new(j as nat, |x: int| pad as u8),
        decreases pad - j,
    {
        bytes.push(pad as u8);
        assert(bytes@ =~= data@ + Seq::new((j + 1) as nat, |x: int| pad as u8));
        j = j + 1;
    }
    assert(bytes@ =~= padded(data@, k as nat));
    let ghost whole = split(bytes@, k as nat, size as nat);
    let mut result: Vec<Vec<u8>> = Vec::new();
    let mut s: usize = 0;
    while s < k
        invariant
            s <= k,
            k * size == bytes.len(),
            views(result@) =~= whole.subrange(0, s as int),
            whole == split(bytes@, k as nat, size as nat),
            all_of_len(views(result@), size as nat),
        decreases k - s,
    {
        assert((s + 1) * size <= k * size) by (nonlinear_arith)
            requires
                s + 1 <= k,
        ;
        assert(s * size + size == (s + 1) * size) by (nonlinear_arith);
        let piece = copy_range(&bytes, s * size, (s + 1) * size);
        let ghost before = views(result@);
        result.push(piece);
        assert(views(result@) =~= before.push(piece@));
        assert(whole[s as int] == piece@);
        assert(whole.subrange(0, s + 1) =~= whole.subrange(0, s as int).push(piece@));
        s = s + 1;
    }
    assert(views(result@) =~= data_shards_of(data@, k as nat));
    if num_faults == 0 {
        return Ok(result);
    }
    let mut p: usize = 0;
    while p < num_faults
        invariant
            p <= num_faults,
            result.len() == k + p,
            views(result@).subrange(0, k as int) == data_shards_of(data@, k as nat),
            all_of_len(views(result@), size as nat),
        decreases num_faults - p,
    {
        let mut zeros: Vec<u8> = Vec::new();
        let mut z: usize = 0;
        while z < size
            invariant
                z <= size,
                zeros.len() == z,
            decreases size - z,
        {
            zeros.push(0u8);
            z = z + 1;
        }
        let ghost before = views(result@);
        result.push(zeros);
        assert(views(result@) =~= before.push(zeros@));
        assert(views(result@).subrange(0, k as int) =~= before.subrange(0, k as int));
        p = p + 1;
    }
    let codec = match Codec::new(k, num_faults) {
        Some(c) => c,
        None => {
            return Err(ShardError::Internal);
        },
    };
    assert(views(result@)[0] == result@[0]@);
    let ok = codec.encode(&mut result);
    if !ok {
        return Err(ShardError::Internal);
    }
    let ghost d = views(result@).subrange(0, k as int);
    assert(views(result@) =~= d + views(result@).subrange(k as int, result.len() as int));
    Ok(result)
}

/// Concatenation of `pieces`, in order.
pub open spec fn concat(pieces: Seq<Seq<u8>>) -> Seq<u8>
    decreases pieces.len(),
{
    if pieces.len() == 0 {
        Seq::empty()
    } else {
        concat(pieces.drop_last()) + pieces.last()
    }
}

/// Removes the trailer: as many final bytes as the last byte's value.
pub open spec fn strip_trailer(bytes: Seq<u8>) -> Option<Seq<u8>> {
    if bytes.len() == 0 {
        None
    } else if bytes.last() as nat > bytes.len() {
        None
    } else {
        Some(bytes.subrange(0, bytes.len() - bytes.last() as nat))
    }
}

/// All present shards share one non-zero length.
pub open spec fn present_uniform(shards: Seq<Option<Seq<u8>>>) -> bool {
    exists|len: nat| len > 0 && present_of_len(shards, len)
}

/// The `k` data shards that decoding works from: each present one as it is,
/// each absent one as the codec recovers it.
pub open spec fn recovered_data(shards: Seq<Option<Seq<u8>>>, k: nat, f: nat) -> Seq<Seq<u8>> {
    Seq::new(
        k,
        |i: int|
            if shards[i] is Some {
                shards[i]->Some_0
            } else {
                recovered_of(shards, f)[i]
            },
    )
}

/// What decoding `shards` for `n` nodes with `f` tolerated faults gives.
pub open spec fn decode_result(shards: Seq<Option<Seq<u8>>>, n: nat, f: nat) -> Result<
    Seq<u8>,
    ShardError,
> {
    if f >= n || (f > 0 && n > 256) {
        Err(ShardError::Config)
    } else if shards.len() != n {
        Err(ShardError::Shape)
    } else if present_count(shards) < n - f {
        Err(ShardError::InsufficientShards)
    } else if !present_uniform(shards) {
        Err(ShardError::Shape)
    } else {
        match strip_trailer(concat(recovered_data(shards, (n - f) as nat, f))) {
            Some(b) => Ok(b),
            None => Err(ShardError::Shape),
        }
    }
}

/// `shards` holds, at each present position, the shard of `blob`'s encoding,
/// and at least as many are present as there are data shards.
pub open spec fn drawn_from(shards: Seq<Option<Seq<u8>>>, blob: Seq<u8>, n: nat, f: nat) -> bool {
    &&& f < n
    &&& (f > 0 ==> n <= 256)
    &&& present_count(shards) >= n - f
    &&& encoding_of(blob, n, f).len() == n
    &&& all_of_len(encoding_of(blob, n, f), shard_size(blob.len(), (n - f) as nat))
    &&& agrees_with(shards, data_shards_of(blob, (n - f) as nat), f)
}

/// `blob` comes back whole through its trailer: it is not empty, its trailer
/// fits in a byte, and where it has no trailer its last byte is zero.
pub open spec fn round_trips(blob: Seq<u8>, k: nat) -> bool {
    &&& blob.len() > 0
    &&& pad_len(blob.len(), k) < 256
    &&& (pad_len(blob.len(), k) > 0 || blob.last() == 0)
}

/// The byte contents of a result.
pub open spec fn bytes_result_view(r: Result<Vec<u8>, ShardError>) -> Result<Seq<u8>, ShardError> {
    match r {
        Ok(v) => Ok(v@),
        Err(e) => Err(e),
    }
}

proof fn lemma_present_count_bound(s: Seq<Option<Seq<u8>>>)
    ensures
        present_count(s) <= s.len(),
        present_count(s) == s.len() ==> forall|i: int| 0 <= i < s.len() ==> #[trigger] s[i] is Some,
    decreases s.len(),
{
    if s.len() > 0 {
        lemma_present_count_bound(s.drop_last());
        if present_count(s) == s.len() {
            assert forall|i: int| 0 <= i < s.len() implies #[trigger] s[i] is Some by {
                if i < s.len() - 1 {
                    assert(s.drop_last()[i] == s[i]);
                }
            }
        }
    }
}

proof fn lemma_concat_split(bytes: Seq<u8>, k: nat, size: nat, j: nat)
    requires
        bytes.len() == k * size,
        j <= k,
    ensures
        concat(split(bytes, k, size).subrange(0, j as int)) == bytes.subrange(0, (j * size) as int),
    decreases j,
{
    let pieces = split(bytes, k, size).subrange(0, j as int);
    if j == 0 {
        assert(bytes.subrange(0, 0) =~= Seq::<u8>::empty());
    } else {
        lemma_concat_split(bytes, k, size, (j - 1) as nat);
        assert(pieces.drop_last() =~= split(bytes, k, size).subrange(0, j - 1));
        assert((j - 1) * size + size == j * size) by (nonlinear_arith);
        assert(j * size <= k * size) by (nonlinear_arith)
            requires
                j <= k,
        ;
        assert(bytes.subrange(0, (j * size) as int) =~= bytes.subrange(0, (j - 1) * size)
            + bytes.subrange((j - 1) * size, (j * size) as int));
    }
}

proof fn lemma_round_trip_bytes(blob: Seq<u8>, k: nat)
    requires
        k >= 1,
        round_trips(blob, k),
    ensures
        strip_trailer(concat(data_shards_of(blob, k))) == Some(blob),
{
    let s = shard_size(blob.len(), k);
    let p = pad_len(blob.len(), k);
    lemma_padded_len(blob.len(), k);
    let bytes = padded(blob, k);
    lemma_concat_split(bytes, k, s, k);
    assert(split(bytes, k, s).subrange(0, k as int) =~= split(bytes, k, s));
    assert(bytes.subrange(0, (k * s) as int) =~= bytes);
    if p > 0 {
        assert(bytes.last() == p as u8);
        assert(bytes.subrange(0, bytes.len() - p) =~= blob);
    } else {
        assert(bytes =~= blob);
        assert(bytes.subrange(0, bytes.len() - 0) =~= blob);
    }
}

fn append_bytes(out: &mut Vec<u8>, v: &Vec<u8>)
    ensures
        final(out)@ == old(out)@ + v@,
{
    let mut i: usize = 0;
    while i < v.len()
        invariant
            i <= v.len(),
            out@ == old(out)@ + v@.subrange(0, i as int),
        decreases v.len() - i,
    {
        out.push(v[i]);
        assert(out@ =~= old(out)@ + v@.subrange(0, i + 1));
        i = i + 1;
    }
    assert(v@.subrange(0, v.len() as int) =~= v@);
}

/// Rebuilds the blob from `data`, where absent shards are `None`: recovers
/// the data shards, concatenates them and removes the trailer. Whenever the
/// present shards come from the encoding of a blob that survives its
/// trailer, that blob comes back; with fewer present shards than data
/// shards the result is `InsufficientShards`.
///
/// Fails with `Config` on node and fault counts that `to_shards` refuses,
/// and with `Shape` where `data` does not hold `num_nodes` entries, where
/// the present shards differ in length or are empty, or where the trailer
/// is longer than the recovered bytes.
pub fn from_shards(data: Vec<Option<Vec<u8>>>, num_nodes: usize, num_faults: usize) -> (r: Result<
    Vec<u8>,
    ShardError,
>)
    ensures
        bytes_result_view(r) == decode_result(
            opt_views(data@),
            num_nodes as nat,
            num_faults as nat,
        ),
        forall|blob: Seq<u8>|
            drawn_from(opt_views(data@), blob, num_nodes as nat, num_faults as nat) && round_trips(
                blob,
                (num_nodes - num_faults) as nat,
            ) ==> #[trigger] bytes_result_view(r) == Ok::<Seq<u8>, ShardError>(blob),
{
    let ghost shards = opt_views(data@);
    let mut data = data;
    if num_faults >= num_nodes || (num_faults > 0 && num_nodes > 256) {
        return Err(ShardError::Config);
    }
    let k: usize = num_nodes - num_faults;
    if data.len() != num_nodes {
        return Err(ShardError::Shape);
    }
    let mut count: usize = 0;
    let mut first: usize = 0;
    let mut i: usize = 0;
    while i < data.len()
        invariant
            i <= data.len(),
            shards == opt_views(data@),
            count == present_count(shards.subrange(0, i as int)),
            count <= i,
            count > 0 ==> first < i && shards[first as int] is Some,
        decreases data.len() - i,
    {
        assert(shards.subrange(0, i + 1).drop_last() =~= shards.subrange(0, i as int));
        if data[i].is_some() {
            if count == 0 {
                first = i;
            }
            count = count + 1;
        }
        i = i + 1;
    }
    assert(shards.subrange(0, data.len() as int) =~= shards);
    if count < k {
        return Err(ShardError::InsufficientShards);
    }
    let len: usize = match &data[first] {
        Some(v) => v.len(),
        None => 0,
    };
    let mut same: bool = true;
    let mut j: usize = 0;
    while j < data.len()
        invariant
            j <= data.len(),
            shards == opt_views(data@),
            same <==> forall|x: int|
                0 <= x < j && (#[trigger] shards[x]) is Some ==> shards[x]->Some_0.len() == len,
        decreases data.len() - j,
    {
        match &data[j] {
            Some(v) => {
                assert(shards[j as int] == Some(v@));
                if v.len() != len {
                    same = false;
                }
            },
            None => {
                assert(shards[j as int] is None);
            },
        }
        j = j + 1;
    }
    if len == 0 || !same {
        proof {
            if present_uniform(shards) {
                let l = choose|l: nat| l > 0 && present_of_len(shards, l);
                assert(shards[first as int]->Some_0.len() == l);
            }
            assert forall|blob: Seq<u8>|
                drawn_from(shards, blob, num_nodes as nat, num_faults as nat) && round_trips(
                    blob,
                    k as nat,
                ) implies false by {
                let size = shard_size(blob.len(), k as nat);
                lemma_padded_len(blob.len(), k as nat);
                let full = encoding_of(blob, num_nodes as nat, num_faults as nat);
                assert(shards[first as int]->Some_0 == full[first as int]);
                assert(full[first as int].len() == size);
                assert forall|x: int|
                    0 <= x < j && (#[trigger] shards[x]) is Some implies shards[x]->Some_0.len()
                    == len by {
                    assert(shards[x]->Some_0 == full[x]);
                    assert(full[x].len() == size);
                }
            }
        }
        return Err(ShardError::Shape);
    }
    assert(present_of_len(shards, len as nat));
    let ghost rec = recovered_data(shards, k as nat, num_faults as nat);
    if num_faults == 0 {
        proof {
            lemma_present_count_bound(shards);
        }
    } else {
        let codec = match Codec::new(k, num_faults) {
            Some(c) => c,
            None => {
                return Err(ShardError::Internal);
            },
        };
        let ok = codec.reconstruct_data(&mut data);
        if !ok {
            return Err(ShardError::Internal);
        }
    }
    assert forall|x: int| 0 <= x < k implies #[trigger] opt_views(data@)[x] == Some(rec[x]) by {}
    proof {
        assert forall|blob: Seq<u8>|
            drawn_from(shards, blob, num_nodes as nat, num_faults as nat) implies rec
            == data_shards_of(blob, k as nat) by {
            let d = data_shards_of(blob, k as nat);
            assert forall|x: int| 0 <= x < k implies #[trigger] rec[x] == d[x] by {
                if shards[x] is Some {
                    assert(shards[x]->Some_0 == full_encoding(d, num_faults as nat)[x]);
                } else if num_faults > 0 {
                    assert(recovered_of(shards, num_faults as nat).subrange(0, k as int)[x]
                        == recovered_of(shards, num_faults as nat)[x]);
                }
            }
            assert(rec =~= d);
        }
    }
    let mut out: Vec<u8> = Vec::new();
    let mut s: usize = 0;
    while s < k
        invariant
            s <= k <= data.len(),
            rec.len() == k,
            forall|x: int| 0 <= x < k ==> #[trigger] opt_views(data@)[x] == Some(rec[x]),
            out@ == concat(rec.subrange(0, s as int)),
        decreases k - s,
    {
        match &data[s] {
            Some(v) => {
                assert(opt_views(data@)[s as int] == Some(v@));
                append_bytes(&mut out, v);
            },
            None => {
                return Err(ShardError::Internal);
            },
        }
        assert(rec.subrange(0, s + 1).drop_last() =~= rec.subrange(0, s as int));
        s = s + 1;
    }
    assert(rec.subrange(0, k as int) =~= rec);
    proof {
        assert forall|blob: Seq<u8>|
            drawn_from(shards, blob, num_nodes as nat, num_faults as nat) && round_trips(
                blob,
                k as nat,
            ) implies strip_trailer(out@) == Some(blob) by {
            lemma_round_trip_bytes(blob, k as nat);
        }
    }
    if out.len() == 0 {
        return Err(ShardError::Shape);
    }
    let last: u8 = out[out.len() - 1];
    if last as usize > out.len() {
        return Err(ShardError::Shape);
    }
    let keep: usize = out.len() - last as usize;
    out.truncate(keep);
    Ok(out)
}

/// Any selection of at least `n - f` shards out of an encoding of `blob`,
/// the others absent, is drawn from `blob`; so decoding it gives `blob` back
/// whenever `blob` survives its trailer.
pub proof fn lemma_selection_is_drawn(
    blob: Seq<u8>,
    n: nat,
    f: nat,
    full: Seq<Seq<u8>>,
    shards: Seq<Option<Seq<u8>>>,
)
    requires
        blob.len() > 0,
        encode_result(blob, n, f) == Ok::<Seq<Seq<u8>>, ShardError>(full),
        full.len() == n,
        all_of_len(full, shard_size(blob.len(), (n - f) as nat)),
        shards.len() == n,
        forall|i: int| 0 <= i < n && (#[trigger] shards[i]) is Some ==> shards[i] == Some(full[i]),
        present_count(shards) >= n - f,
    ensures
        drawn_from(shards, blob, n, f),
{
    let k = (n - f) as nat;
    let data = data_shards_of(blob, k);
    assert forall|i: int| 0 <= i < data.len() implies #[trigger] data[i].len() == data[0].len() by {
        assert(full[i] == data[i]);
        assert(full[0] == data[0]);
    }
}

/// Sharding is a function of its inputs: two calls on the same blob, node
/// count and fault count give the same shards (or the same error).
pub proof fn lemma_encode_deterministic(
    blob: Seq<u8>,
    n: nat,
    f: nat,
    first: Result<Seq<Seq<u8>>, ShardError>,
    second: Result<Seq<Seq<u8>>, ShardError>,
)
    requires
        first == encode_result(blob, n, f),
        second == encode_result(blob, n, f),
    ensures
        first == second,
{
}

} // verus!
