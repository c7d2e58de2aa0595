//! The GF(256) Reed-Solomon codec, as provided by `reed_solomon_erasure`.
use vstd::prelude::*;

verus! {

/// Holds a `reed_solomon_erasure` codec, whose generic declaration Verus
/// does not accept.
#[verifier::external_body]
struct RsHandle {
    rs: reed_solomon_erasure::galois_8::ReedSolomon,
}

/// The parity shards that the codec computes for `data` with `parity_count`
/// parity shards.
pub uninterp spec fn parity_of(data: Seq<Seq<u8>>, parity_count: nat) -> Seq<Seq<u8>>;

/// The data shards that the codec recovers from `shards` (present or absent),
/// the last `parity_count` of which are parity shards.
pub uninterp spec fn recovered_of(shards: Seq<Option<Seq<u8>>>, parity_count: nat) -> Seq<Seq<u8>>;

/// Every shard of `shards` has length `len`.
pub open spec fn all_of_len(shards: Seq<Seq<u8>>, len: nat) -> bool {
    forall|i: int| 0 <= i < shards.len() ==> #[trigger] shards[i].len() == len
}

/// The full shard set of an encoding: data shards, then parity shards.
pub open spec fn full_encoding(data: Seq<Seq<u8>>, parity_count: nat) -> Seq<Seq<u8>> {
    if parity_count == 0 {
        data
    } else {
        data + parity_of(data, parity_count)
    }
}

/// `data` is a set of data shards of one length, and each present entry of
/// `shards` agrees with its full encoding.
pub open spec fn agrees_with(
    shards: Seq<Option<Seq<u8>>>,
    data: Seq<Seq<u8>>,
    parity_count: nat,
) -> bool {
    &&& data.len() > 0
    &&& all_of_len(data, data[0].len())
    &&& shards.len() == data.len() + parity_count
    &&& forall|i: int|
        0 <= i < shards.len() && (#[trigger] shards[i]) is Some ==> shards[i]->Some_0
            == full_encoding(data, parity_count)[i]
}

/// Number of present entries.
pub open spec fn present_count(shards: Seq<Option<Seq<u8>>>) -> nat
    decreases shards.len(),
{
    if shards.len() == 0 {
        0
    } else {
        present_count(shards.drop_last()) + if shards.last() is Some {
            1nat
        } else {
            0nat
        }
    }
}

/// All present entries have length `len`.
pub open spec fn present_of_len(shards: Seq<Option<Seq<u8>>>, len: nat) -> bool {
    forall|i: int|
        0 <= i < shards.len() && (#[trigger] shards[i]) is Some ==> shards[i]->Some_0.len()
            == len
}

/// The byte contents of possibly absent shards.
pub open spec fn opt_views(shards: Seq<Option<Vec<u8>>>) -> Seq<Option<Seq<u8>>> {
    shards.map_values(
        |s: Option<Vec<u8>>|
            match s {
                Some(v) => Some(v@),
                None => None,
            },
    )
}

/// The byte contents of shards.
pub open spec fn views(shards: Seq<Vec<u8>>) -> Seq<Seq<u8>> {
    shards.map_values(|s: Vec<u8>| s@)
}

/// A Reed-Solomon codec with a fixed number of data and parity shards.
pub(crate) struct Codec {
    handle: RsHandle,
    data_count: usize,
    parity_count: usize,
}

impl Codec {
    pub(crate) closed spec fn data_count(&self) -> nat {
        self.data_count as nat
    }

    pub(crate) closed spec fn parity_count(&self) -> nat {
        self.parity_count as nat
    }

    /// Relies on `ReedSolomon::new`, which refuses zero data shards, zero
    /// parity shards, and more than 256 shards in all (it adds the two counts
    /// unchecked, hence the bound on their sum).
    #[verifier::external_body]
    pub(crate) fn new(data_count: usize, parity_count: usize) -> (r: Option<Codec>)
        requires
            data_count + parity_count <= usize::MAX,
        ensures
            r is Some <==> (data_count >= 1 && parity_count >= 1 && data_count + parity_count
                <= 256),
            r is Some ==> r->Some_0.data_count() == data_count && r->Some_0.parity_count()
                == parity_count,
    {
        match reed_solomon_erasure::galois_8::ReedSolomon::new(data_count, parity_count) {
            Ok(rs) => Some(Codec { handle: RsHandle { rs }, data_count, parity_count }),
            Err(_) => None,
        }
    }

    /// Relies on `ReedSolomon::encode`: with the right number of shards, all
    /// of one non-zero length, it overwrites the parity slots with the parity
    /// of the data slots and leaves the data slots as they were.
    #[verifier::external_body]
    pub(crate) fn encode(&self, shards: &mut Vec<Vec<u8>>) -> (ok: bool)
        requires
            old(shards).len() == self.data_count() + self.parity_count(),
            old(shards)@.len() > 0,
            old(shards)[0].len() > 0,
            all_of_len(views(old(shards)@), old(shards)[0]@.len()),
        ensures
            ok,
            final(shards).len() == old(shards).len(),
            views(final(shards)@).subrange(0, self.data_count() as int) == views(
                old(shards)@,
            ).subrange(0, self.data_count() as int),
            views(final(shards)@).subrange(self.data_count() as int, final(shards).len() as int)
                == parity_of(
                views(old(shards)@).subrange(0, self.data_count() as int),
                self.parity_count(),
            ),
            all_of_len(views(final(shards)@), old(shards)[0]@.len()),
    {
        self.handle.rs.encode(shards).is_ok()
    }

    /// Relies on `ReedSolomon::reconstruct_data`: with the right number of
    /// shards, at least as many present as there are data shards, and all
    /// present ones of one non-zero length, it fills every data slot and
    /// keeps the present ones. The data it fills in are those of any
    /// encoding that the present shards agree with.
    #[verifier::external_body]
    pub(crate) fn reconstruct_data(&self, shards: &mut Vec<Option<Vec<u8>>>) -> (ok: bool)
        requires
            old(shards).len() == self.data_count() + self.parity_count(),
            present_count(opt_views(old(shards)@)) >= self.data_count(),
            exists|len: nat| len > 0 && present_of_len(opt_views(old(shards)@), len),
        ensures
            ok,
            final(shards).len() == old(shards).len(),
            recovered_of(opt_views(old(shards)@), self.parity_count()).len() == self.data_count()
                && forall|i: int|
                0 <= i < self.data_count() ==> #[trigger] opt_views(final(shards)@)[i] == Some(
                    recovered_of(opt_views(old(shards)@), self.parity_count())[i],
                ) && (opt_views(old(shards)@)[i] is Some ==> opt_views(final(shards)@)[i]
                    == opt_views(old(shards)@)[i]),
            forall|data: Seq<Seq<u8>>|
                agrees_with(opt_views(old(shards)@), data, self.parity_count()) ==> recovered_of(
                    opt_views(old(shards)@),
                    self.parity_count(),
                ).subrange(0, self.data_count() as int) == data,
    {
        self.handle.rs.reconstruct_data(shards).is_ok()
    }
}

} // verus!
