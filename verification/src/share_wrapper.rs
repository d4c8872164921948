use vstd::prelude::*;
use vstd::slice::{slice_index_get, slice_subrange, slice_to_vec};
use crate::base62::pow256;
use crate::share::{Share, ShareV, SharedSecretType};

verus! {

/// Mathematical view of a [`ShareWrapper`].
pub ghost struct WrapperV {
    pub generator_kme_id: i64,
    pub threshold: u8,
    pub share: ShareV,
}

/// A share together with its provenance: which KME generated it by a split,
/// and how many sibling shares of that split are needed to combine it.
#[derive(Debug, Clone, PartialEq, Eq)]
pub struct ShareWrapper {
    /// KME id of the generator of the share.
    pub generator_kme_id: i64,
    /// Threshold of the underlying split.
    pub threshold: u8,
    /// The actual secret share.
    pub share: Share,
}

impl View for ShareWrapper {
    type V = WrapperV;

    open spec fn view(&self) -> WrapperV {
        WrapperV {
            generator_kme_id: self.generator_kme_id,
            threshold: self.threshold,
            share: self.share@,
        }
    }
}

impl ShareWrapper {
    pub fn new(generator_kme_id: i64, threshold: u8, share: Share) -> (r: ShareWrapper)
        ensures
            r@ == (WrapperV { generator_kme_id, threshold, share: share@ }),
    {
        ShareWrapper { generator_kme_id, threshold, share }
    }
}

/// Value of a little-endian (least significant first) byte string.
pub open spec fn le_val(s: Seq<u8>) -> nat
    decreases s.len(),
{
    if s.len() == 0 {
        0
    } else {
        s.first() as nat + 256 * le_val(s.drop_first())
    }
}

/// The `n` little-endian bytes of a value.
pub open spec fn le_bytes(v: nat, n: nat) -> Seq<u8>
    decreases n,
{
    if n == 0 {
        Seq::empty()
    } else {
        seq![(v % 256) as u8] + le_bytes(v / 256, (n - 1) as nat)
    }
}

pub proof fn lemma_le_val_le_bytes(v: nat, n: nat)
    requires
        v < pow256(n),
    ensures
        le_val(le_bytes(v, n)) == v,
    decreases n,
{
    if n == 0 {
    } else {
        assert(v / 256 < pow256((n - 1) as nat)) by (nonlinear_arith)
            requires
                v < pow256(n),
                pow256(n) == 256 * pow256((n - 1) as nat),
        ;
        lemma_le_val_le_bytes(v / 256, (n - 1) as nat);
        let bs = le_bytes(v, n);
        assert(bs.first() == (v % 256) as u8);
        assert(bs.drop_first() =~= le_bytes(v / 256, (n - 1) as nat));
        assert(le_val(bs) == v % 256 + 256 * (v / 256));
    }
}

pub proof fn lemma_le_bytes_len(v: nat, n: nat)
    ensures
        le_bytes(v, n).len() == n,
    decreases n,
{
    if n > 0 {
        lemma_le_bytes_len(v / 256, (n - 1) as nat);
    }
}

pub proof fn lemma_pow256_64()
    ensures
        pow256(8) == 0x1_0000_0000_0000_0000,
{
    assert(pow256(0) == 1);
    assert(pow256(1) == 256);
    assert(pow256(2) == 0x1_0000);
    assert(pow256(3) == 0x100_0000);
    assert(pow256(4) == 0x1_0000_0000);
    assert(pow256(5) == 0x100_0000_0000);
    assert(pow256(6) == 0x1_0000_0000_0000);
    assert(pow256(7) == 0x100_0000_0000_0000);
    assert(pow256(8) == 0x1_0000_0000_0000_0000);
}

/// The byte standing for a payload-kind tag on the wire.
pub open spec fn kind_byte(t: SharedSecretType) -> u8 {
    match t {
        SharedSecretType::Secret => 0,
        SharedSecretType::SubShareWrapper => 1,
    }
}

/// Wire form of a wrapper: tag byte, threshold, share index, eight bytes of
/// generator id, then the share data as the remaining tail.
pub open spec fn wrapper_encode(w: WrapperV) -> Seq<u8> {
    seq![kind_byte(w.share.shared_secret_type), w.threshold, w.share.index] + le_bytes(
        (w.generator_kme_id as u64) as nat,
        8,
    ) + w.share.data
}

/// Parse of the wire form; `None` exactly on a short buffer or a tag byte
/// that stands for no payload kind.
pub open spec fn wrapper_decode(b: Seq<u8>) -> Option<WrapperV> {
    if b.len() < 11 {
        None
    } else if b[0] != 0 && b[0] != 1 {
        None
    } else {
        Some(
            WrapperV {
                generator_kme_id: (le_val(b.subrange(3, 11)) as u64) as i64,
                threshold: b[1],
                share: ShareV {
                    index: b[2],
                    data: b.skip(11),
                    shared_secret_type: if b[0] == 0 {
                        SharedSecretType::Secret
                    } else {
                        SharedSecretType::SubShareWrapper
                    },
                },
            },
        )
    }
}

/// Serialize a wrapper for delivery or for nesting inside a parent share.
pub fn encode_wrapper(w: &ShareWrapper) -> (r: Vec<u8>)
    ensures
        r@ == wrapper_encode(w@),
{
    let mut out: Vec<u8> = Vec::new();
    let tag: u8 = match w.share.shared_secret_type {
        SharedSecretType::Secret => 0,
        SharedSecretType::SubShareWrapper => 1,
    };
    out.push(tag);
    out.push(w.threshold);
    out.push(w.share.index);
    let ghost v0 = (w.generator_kme_id as u64) as nat;
    let mut v: u64 = w.generator_kme_id as u64;
    let mut i: usize = 0;
    proof {
        lemma_pow256_64();
        assert(le_bytes(v0, 8) =~= Seq::<u8>::empty() + le_bytes(v0, 8));
    }
    while i < 8
        invariant
            i <= 8,
            out@.len() == 3 + i,
            out@[0] == kind_byte(w@.share.shared_secret_type),
            out@[1] == w@.threshold,
            out@[2] == w@.share.index,
            le_bytes(v0, 8) =~= out@.skip(3) + le_bytes(v as nat, (8 - i) as nat),
        decreases 8 - i,
    {
        let ghost m = (8 - i) as nat;
        let b: u8 = (v % 256) as u8;
        proof {
            assert(le_bytes(v as nat, m) == seq![((v as nat) % 256) as u8] + le_bytes(
                (v as nat) / 256,
                (m - 1) as nat,
            ));
            assert((out@.push(b)).skip(3) =~= out@.skip(3) + seq![b]);
            assert(out@.skip(3) + le_bytes(v as nat, m) =~= (out@.skip(3) + seq![b]) + le_bytes(
                (v as nat) / 256,
                (m - 1) as nat,
            ));
        }
        out.push(b);
        v = v / 256;
        i = i + 1;
    }
    proof {
        assert(le_bytes(v as nat, 0) =~= Seq::<u8>::empty());
        assert(out@.skip(3) =~= le_bytes(v0, 8));
    }
    let n: usize = w.share.data.len();
    let mut k: usize = 0;
    while k < n
        invariant
            k <= n,
            n == w@.share.data.len(),
            out@.len() == 11 + k,
            out@.take(11) =~= seq![
                kind_byte(w@.share.shared_secret_type),
                w@.threshold,
                w@.share.index,
            ] + le_bytes(v0, 8),
            forall|t: int| 11 <= t < 11 + k ==> out@[t] == w@.share.data[t - 11],
        decreases n - k,
    {
        out.push(w.share.data[k]);
        k = k + 1;
    }
    proof {
        assert(out@ =~= wrapper_encode(w@));
    }
    out
}

/// Parse a wrapper back from its wire form.
pub fn decode_wrapper(b: &[u8]) -> (r: Option<ShareWrapper>)
    ensures
        match r {
            Some(w) => wrapper_decode(b@) == Some(w@),
            None => wrapper_decode(b@) is None,
        },
{
    if b.len() < 11 {
        return None;
    }
    let tag: u8 = *slice_index_get(b, 0);
    let shared_secret_type: SharedSecretType = if tag == 0 {
        SharedSecretType::Secret
    } else if tag == 1 {
        SharedSecretType::SubShareWrapper
    } else {
        return None;
    };
    let threshold: u8 = *slice_index_get(b, 1);
    let index: u8 = *slice_index_get(b, 2);
    proof {
        lemma_pow256_64();
    }
    let mut v: u64 = 0;
    let mut t: usize = 8;
    proof {
        assert(b@.subrange(11, 11) =~= Seq::<u8>::empty());
    }
    while t > 0
        invariant
            t <= 8,
            b@.len() >= 11,
            v as nat == le_val(b@.subrange(3 + t, 11)),
            (v as nat) < pow256((8 - t) as nat),
            pow256(8) == 0x1_0000_0000_0000_0000,
        decreases t,
    {
        let j: usize = t - 1;
        let ghost sub = b@.subrange(3 + j, 11);
        proof {
            assert(sub.first() == b@[3 + j]);
            assert(sub.drop_first() =~= b@.subrange(3 + t, 11));
            assert(pow256((8 - j) as nat) == 256 * pow256((8 - t) as nat));
            assert((v as nat) * 256 + 256 > 256 * (v as nat)) by (nonlinear_arith);
            assert((v as nat) * 256 + (b@[3 + j] as nat) < pow256((8 - j) as nat))
                by (nonlinear_arith)
                requires
                    (v as nat) < pow256((8 - t) as nat),
                    b@[3 + j] < 256,
                    pow256((8 - j) as nat) == 256 * pow256((8 - t) as nat),
            ;
            assert(pow256((8 - j) as nat) <= pow256(8)) by {
                lemma_pow256_mono((8 - j) as nat, 8);
            }
        }
        let byte: u8 = *slice_index_get(b, 3 + j);
        v = v * 256 + (byte as u64);
        t = j;
    }
    proof {
        assert(b@.subrange(3, 11) =~= b@.subrange(3 + t as int, 11));
    }
    let generator_kme_id: i64 = v as i64;
    let data_slice: &[u8] = slice_subrange(b, 11, b.len());
    let data: Vec<u8> = slice_to_vec(data_slice);
    proof {
        assert(data@ =~= b@.skip(11));
    }
    Some(
        ShareWrapper {
            generator_kme_id,
            threshold,
            share: Share { index, data, shared_secret_type },
        },
    )
}

pub proof fn lemma_pow256_mono(a: nat, b: nat)
    requires
        a <= b,
    ensures
        pow256(a) <= pow256(b),
    decreases b,
{
    if a < b {
        lemma_pow256_mono(a, (b - 1) as nat);
        assert(pow256(b) == 256 * pow256((b - 1) as nat));
    }
}

/// Round trip: parsing a serialized wrapper restores it exactly.
pub proof fn lemma_wrapper_round_trip(w: WrapperV)
    ensures
        wrapper_decode(wrapper_encode(w)) == Some(w),
{
    let e = wrapper_encode(w);
    let u = w.generator_kme_id as u64;
    lemma_pow256_64();
    lemma_le_bytes_len(u as nat, 8);
    assert(e.len() == 11 + w.share.data.len());
    assert(e[0] == kind_byte(w.share.shared_secret_type));
    assert(e[1] == w.threshold);
    assert(e[2] == w.share.index);
    assert(e.subrange(3, 11) =~= le_bytes(u as nat, 8));
    lemma_le_val_le_bytes(u as nat, 8);
    assert(le_val(e.subrange(3, 11)) == u as nat);
    assert(((u as nat) as u64) == u);
    let g = w.generator_kme_id;
    assert(((g as u64) as i64) == g) by (bit_vector);
    assert(e.skip(11) =~= w.share.data);
    assert(e[0] == 0 || e[0] == 1);
    match w.share.shared_secret_type {
        SharedSecretType::Secret => {
            assert(wrapper_decode(e) == Some(w));
        },
        SharedSecretType::SubShareWrapper => {
            assert(wrapper_decode(e) == Some(w));
        },
    }
}

} // verus!
