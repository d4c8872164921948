//! Key Management Entities: nodes that hold an optional secret and a
//! collection of received share wrappers, spread them to downstream KMEs by
//! threshold splitting, and reconstruct what reaches them by peeling one
//! nesting layer per round.

use vstd::prelude::*;
use vstd::slice::{slice_index_get, slice_to_vec};
use crate::share::{Share, ShareV, SharedSecretType, share_string, share_decode};
use crate::share_wrapper::{
    ShareWrapper,
    WrapperV,
    encode_wrapper,
    decode_wrapper,
    wrapper_encode,
    wrapper_decode,
    lemma_wrapper_round_trip,
    lemma_le_bytes_len,
};
use crate::shamir::{ssss_split, ssss_unlock, unlock_spec, is_sharing, split_result_ok, strviews};

verus! {

/// Mathematical view of a [`Kme`].
pub ghost struct KmeV {
    pub id: i64,
    pub secret: Option<Seq<u8>>,
    pub share_wrappers: Seq<WrapperV>,
}

/// A Key Management Entity.
pub struct Kme {
    /// Stable identity of this KME.
    pub id: i64,
    /// The held secret: present only at a distribution origin that has not
    /// yet spread it.
    pub secret: Option<Vec<u8>>,
    /// Share wrappers received from upstream KMEs.
    pub share_wrappers: Vec<ShareWrapper>,
}

/// Views of a sequence of wrappers.
pub open spec fn wviews(s: Seq<ShareWrapper>) -> Seq<WrapperV> {
    s.map_values(|w: ShareWrapper| w@)
}

impl View for Kme {
    type V = KmeV;

    open spec fn view(&self) -> KmeV {
        KmeV {
            id: self.id,
            secret: match self.secret {
                Option::Some(s) => Option::Some(s@),
                Option::None => Option::None,
            },
            share_wrappers: wviews(self.share_wrappers@),
        }
    }
}

/// The distinct generator ids of a working set, in first-occurrence order:
/// the order in which reconstruction visits the groups.
pub open spec fn gids_of(ws: Seq<WrapperV>) -> Seq<i64>
    decreases ws.len(),
{
    if ws.len() == 0 {
        Seq::empty()
    } else {
        let pre = gids_of(ws.drop_last());
        if pre.contains(ws.last().generator_kme_id) {
            pre
        } else {
            pre.push(ws.last().generator_kme_id)
        }
    }
}

/// The wrappers of one generator, in arrival order.
pub open spec fn group_of(ws: Seq<WrapperV>, g: i64) -> Seq<WrapperV>
    decreases ws.len(),
{
    if ws.len() == 0 {
        Seq::empty()
    } else {
        let pre = group_of(ws.drop_last(), g);
        if ws.last().generator_kme_id == g {
            pre.push(ws.last())
        } else {
            pre
        }
    }
}

/// The share strings handed to the combiner for one group.
pub open spec fn group_strings(grp: Seq<WrapperV>) -> Seq<Seq<char>> {
    grp.map_values(|w: WrapperV| share_string(w.share))
}

/// What one group contributes to a round: a recovered secret, a decoded
/// nested wrapper for the next round, or nothing. The declared threshold
/// and payload kind are read from the group's last wrapper, as the group
/// is walked in arrival order.
pub open spec fn group_outcome(grp: Seq<WrapperV>) -> (Option<Seq<u8>>, Option<WrapperV>) {
    if grp.len() == 0 {
        (None, None)
    } else if (grp.len() as int) < (grp.last().threshold as int) {
        (None, None)
    } else {
        match unlock_spec(group_strings(grp)) {
            None => (None, None),
            Some(bytes) => {
                if grp.last().share.shared_secret_type == SharedSecretType::Secret {
                    (Some(bytes), None)
                } else {
                    match wrapper_decode(bytes) {
                        None => (None, None),
                        Some(w) => (None, Some(w)),
                    }
                }
            },
        }
    }
}

/// One round over the groups named by `gids`: the first group that yields a
/// secret ends the round at once; otherwise the decoded nested wrappers are
/// staged, in group order, for the next round.
pub open spec fn round_scan(ws: Seq<WrapperV>, gids: Seq<i64>) -> (Option<Seq<u8>>, Seq<WrapperV>)
    decreases gids.len(),
{
    if gids.len() == 0 {
        (None, Seq::empty())
    } else {
        let oc = group_outcome(group_of(ws, gids.first()));
        if oc.0 is Some {
            (oc.0, Seq::empty())
        } else {
            let head = match oc.1 {
                Some(w) => seq![w],
                None => Seq::<WrapperV>::empty(),
            };
            let rest = round_scan(ws, gids.drop_first());
            if rest.0 is Some {
                (rest.0, Seq::empty())
            } else {
                (None, head + rest.1)
            }
        }
    }
}

/// Round-by-round reconstruction from a working set, each round consuming
/// the set and staging what its groups decoded. The fuel bounds the number
/// of rounds; one round per initially held wrapper is ample, as honest
/// nesting depth cannot exceed the wrapper count.
#[verifier::opaque]
pub open spec fn retrieve_from(ws: Seq<WrapperV>, fuel: nat) -> Option<Seq<u8>>
    decreases fuel,
{
    if ws.len() == 0 || fuel == 0 {
        None
    } else {
        let rr = round_scan(ws, gids_of(ws));
        match rr.0 {
            Some(s) => Some(s),
            None => retrieve_from(rr.1, (fuel - 1) as nat),
        }
    }
}

/// What `try_retrieve_secret` returns on a given KME state.
pub open spec fn retrieve_spec(m: KmeV) -> Option<Seq<u8>> {
    match m.secret {
        Some(s) => Some(s),
        None => retrieve_from(m.share_wrappers, m.share_wrappers.len()),
    }
}

impl Kme {
    /// A fresh KME: the given identity, no secret, no wrappers.
    pub fn new(id: i64) -> (r: Kme)
        ensures
            r@.id == id,
            r@.secret is None,
            r@.share_wrappers =~= Seq::<WrapperV>::empty(),
    {
        let r = Kme { id, secret: None, share_wrappers: Vec::new() };
        proof {
            assert(wviews(r.share_wrappers@) =~= Seq::<WrapperV>::empty());
        }
        r
    }

    /// Hand this KME the secret to be spread.
    pub fn set_secret(&mut self, secret: &[u8])
        ensures
            final(self)@.id == old(self)@.id,
            final(self)@.secret == Some(secret@),
            final(self)@.share_wrappers == old(self)@.share_wrappers,
    {
        self.secret = Some(slice_to_vec(secret));
    }

    /// Receive a serialized share wrapper from another KME. Bytes that do
    /// not parse as a wrapper are dropped; everything else is appended.
    pub fn receive_qkd_encrypted_share_wrapper(&mut self, serial_share_wrapper: &[u8])
        ensures
            final(self)@.id == old(self)@.id,
            final(self)@.secret == old(self)@.secret,
            match wrapper_decode(serial_share_wrapper@) {
                Some(w) => final(self)@.share_wrappers == old(self)@.share_wrappers.push(w),
                None => final(self)@.share_wrappers == old(self)@.share_wrappers,
            },
    {
        match decode_wrapper(serial_share_wrapper) {
            Some(w) => {
                let ghost before = self.share_wrappers@;
                self.share_wrappers.push(w);
                proof {
                    assert(wviews(self.share_wrappers@) =~= wviews(before).push(w@));
                }
            },
            None => {},
        }
    }

    /// Try to reconstruct a secret from the held state: the held secret
    /// itself if present, else round-by-round reconstruction from the
    /// received wrappers. Never fails; `None` is the expected outcome when
    /// too little reached this KME.
    #[verifier::rlimit(100)]
    pub fn try_retrieve_secret(&self) -> (r: Option<Vec<u8>>)
        ensures
            match r {
                Some(v) => retrieve_spec(self@) == Some(v@),
                None => retrieve_spec(self@) is None,
            },
    {
        if let Some(s) = &self.secret {
            let out: Vec<u8> = slice_to_vec(s.as_slice());
            return Some(out);
        }
        let mut ws: Vec<ShareWrapper> = copy_wrappers(&self.share_wrappers);
        let ghost orig = wviews(self.share_wrappers@);
        let mut fuel: usize = ws.len();
        while ws.len() > 0 && fuel > 0
            invariant
                self@.secret is None,
                orig == self@.share_wrappers,
                retrieve_from(orig, orig.len()) == retrieve_from(wviews(ws@), fuel as nat),
            decreases fuel,
        {
            let (found, next) = run_round(&ws);
            proof {
                reveal_with_fuel(retrieve_from, 1);
                let rr = round_scan(wviews(ws@), gids_of(wviews(ws@)));
                assert(wviews(ws@).len() == ws@.len());
                assert(retrieve_from(wviews(ws@), fuel as nat) == (match rr.0 {
                    Some(s) => Some(s),
                    None => retrieve_from(rr.1, (fuel - 1) as nat),
                }));
            }
            match found {
                Some(bytes) => {
                    proof {
                        assert(wviews(ws@).len() == ws@.len());
                        assert(retrieve_from(wviews(ws@), fuel as nat) == Some(bytes@));
                        assert(retrieve_spec(self@) == Some(bytes@));
                    }
                    return Some(bytes);
                },
                None => {},
            }
            ws = next;
            fuel = fuel - 1;
        }
        proof {
            reveal_with_fuel(retrieve_from, 1);
            assert(wviews(ws@).len() == ws@.len());
            assert(retrieve_from(wviews(ws@), fuel as nat) is None);
        }
        None
    }
}

/// Views of a sequence of KMEs.
pub open spec fn kviews(s: Seq<Kme>) -> Seq<KmeV> {
    s.map_values(|k: Kme| k@)
}

/// A payload the splitting primitive accepts: nonempty, at most its
/// default maximum secret size.
pub open spec fn payload_ok(p: Seq<u8>) -> bool {
    0 < p.len() <= 65535
}

/// The majority threshold for a destination count.
pub open spec fn majority_threshold(n: int) -> u8 {
    ((n / 2) + 1) as u8
}

/// The inputs on which `spread_secrets` does its work rather than abort:
/// between one and 255 destinations, a held secret the splitter accepts,
/// and — when re-splitting happens at all — stored wrappers whose wire
/// forms the splitter accepts.
pub open spec fn spread_accepts(m: KmeV, n: int) -> bool {
    &&& 1 <= n <= 255
    &&& (m.secret matches Some(s) ==> payload_ok(s))
    &&& (n >= 2 ==> forall|j: int|
        0 <= j < m.share_wrappers.len() ==> payload_ok(
            wrapper_encode(#[trigger] m.share_wrappers[j]),
        ))
}

/// The wrapper that destination `i` receives for the share at position `i`
/// of one split performed by `src_id`.
pub open spec fn dealt_wrapper(
    src_id: i64,
    t: u8,
    i: int,
    data: Seq<u8>,
    kind: SharedSecretType,
) -> WrapperV {
    WrapperV {
        generator_kme_id: src_id,
        threshold: t,
        share: ShareV { index: (i + 1) as u8, data, shared_secret_type: kind },
    }
}

/// `sec_split` and `sub_splits` witness the split operations one spread
/// performed: a sharing of the held secret, and one sharing per stored
/// wrapper of its wire form (none when a single destination takes the
/// stored wrappers verbatim).
pub open spec fn split_witnesses_ok(
    m: KmeV,
    n: int,
    t: u8,
    sec_split: Seq<Seq<u8>>,
    sub_splits: Seq<Seq<Seq<u8>>>,
) -> bool {
    &&& (m.secret matches Some(s) ==> sec_split.len() == n && is_sharing(sec_split, t, s))
    &&& (n >= 2 ==> {
        &&& sub_splits.len() == m.share_wrappers.len()
        &&& forall|j: int|
            0 <= j < sub_splits.len() ==> (#[trigger] sub_splits[j]).len() == n && is_sharing(
                sub_splits[j],
                t,
                wrapper_encode(m.share_wrappers[j]),
            )
    })
}

/// Everything destination `i` receives from one spread, in delivery order:
/// its share of the held secret first, then — per stored wrapper — either
/// the wrapper itself (single destination) or its share of that wrapper's
/// split, re-stamped with the sender's identity.
/// Destination `i`'s share of the held secret, if one was held.
pub open spec fn sec_part(m: KmeV, t: u8, sec_split: Seq<Seq<u8>>, i: int) -> Seq<WrapperV> {
    match m.secret {
        Some(_) => seq![dealt_wrapper(m.id, t, i, sec_split[i], SharedSecretType::Secret)],
        None => Seq::<WrapperV>::empty(),
    }
}

pub open spec fn deliveries_for(
    m: KmeV,
    n: int,
    t: u8,
    sec_split: Seq<Seq<u8>>,
    sub_splits: Seq<Seq<Seq<u8>>>,
    i: int,
) -> Seq<WrapperV> {
    let subs = if n == 1 {
        m.share_wrappers
    } else {
        Seq::new(
            m.share_wrappers.len(),
            |j: int| dealt_wrapper(m.id, t, i, sub_splits[j][i], SharedSecretType::SubShareWrapper),
        )
    };
    sec_part(m, t, sec_split, i) + subs
}

/// Spreading is idempotent in the held secret: once the secret slot is
/// empty — as it is after any successful spread — a further spread deals
/// out only what derives from the stored wrappers, never a fresh split of
/// a secret.
pub proof fn lemma_spread_without_secret(
    m: KmeV,
    n: int,
    t: u8,
    sec_split: Seq<Seq<u8>>,
    sub_splits: Seq<Seq<Seq<u8>>>,
    i: int,
)
    requires
        m.secret is None,
    ensures
        deliveries_for(m, n, t, sec_split, sub_splits, i) == (if n == 1 {
            m.share_wrappers
        } else {
            Seq::new(
                m.share_wrappers.len(),
                |j: int|
                    dealt_wrapper(m.id, t, i, sub_splits[j][i], SharedSecretType::SubShareWrapper),
            )
        }),
{
    assert(sec_part(m, t, sec_split, i) =~= Seq::<WrapperV>::empty());
    if n == 1 {
        assert(sec_part(m, t, sec_split, i) + m.share_wrappers =~= m.share_wrappers);
    } else {
        assert(sec_part(m, t, sec_split, i) + Seq::new(
            m.share_wrappers.len(),
            |j: int| dealt_wrapper(m.id, t, i, sub_splits[j][i], SharedSecretType::SubShareWrapper),
        ) =~= Seq::new(
            m.share_wrappers.len(),
            |j: int| dealt_wrapper(m.id, t, i, sub_splits[j][i], SharedSecretType::SubShareWrapper),
        ));
    }
}

/// With a single destination the stored wrappers are forwarded verbatim:
/// what that destination receives, beyond its share of a held secret, is
/// bit-identical to what was held before forwarding.
pub proof fn lemma_single_destination_lossless(
    m: KmeV,
    t: u8,
    sec_split: Seq<Seq<u8>>,
    sub_splits: Seq<Seq<Seq<u8>>>,
)
    ensures
        deliveries_for(m, 1, t, sec_split, sub_splits, 0) == sec_part(m, t, sec_split, 0)
            + m.share_wrappers,
{
}

/// Why a spread call was aborted.
#[derive(Debug, Clone, Copy, PartialEq, Eq, Structural)]
pub enum SpreadError {
    /// The destination list was empty.
    NoDestinations,
    /// More than 255 destinations: the splitting primitive cannot cut that
    /// many shares.
    TooManyDestinations,
    /// A payload the splitting primitive rejects: an empty or oversized
    /// held secret, or an oversized stored wrapper.
    SplitRefused,
}

impl Kme {
    /// Spread what this KME holds to the given destinations: cut the held
    /// secret (if any) and every stored wrapper into one share per
    /// destination under the majority threshold, deliver share `i` to
    /// destination `i`, and clear this KME. A single destination receives
    /// the stored wrappers verbatim. A call the configuration or the
    /// splitting primitive rejects aborts with nothing changed.
    #[verifier::rlimit(100)]
    pub fn spread_secrets(&mut self, dest_kmes: &mut Vec<Kme>) -> (r: Result<(), SpreadError>)
        ensures
            r is Ok <==> spread_accepts(old(self)@, old(dest_kmes)@.len() as int),
            r matches Err(SpreadError::NoDestinations) <==> old(dest_kmes)@.len() == 0,
            r matches Err(SpreadError::TooManyDestinations) <==> old(dest_kmes)@.len() > 255,
            r is Err ==> final(self)@ == old(self)@ && final(dest_kmes)@ == old(dest_kmes)@,
            r is Ok ==> ({
                let n = old(dest_kmes)@.len() as int;
                let t = majority_threshold(n);
                &&& final(self)@.id == old(self)@.id
                &&& final(self)@.secret is None
                &&& final(self)@.share_wrappers.len() == 0
                &&& final(dest_kmes)@.len() == n
                &&& (forall|i: int|
                    0 <= i < n ==> (#[trigger] final(dest_kmes)@[i]@).id == old(dest_kmes)@[i]@.id
                        && final(dest_kmes)@[i]@.secret == old(dest_kmes)@[i]@.secret)
                &&& exists|sec_split: Seq<Seq<u8>>, sub_splits: Seq<Seq<Seq<u8>>>|
                    {
                        &&& #[trigger] split_witnesses_ok(old(self)@, n, t, sec_split, sub_splits)
                        &&& forall|i: int|
                            0 <= i < n ==> (#[trigger] final(dest_kmes)@[i]@).share_wrappers == old(
                                dest_kmes,
                            )@[i]@.share_wrappers + deliveries_for(
                                old(self)@,
                                n,
                                t,
                                sec_split,
                                sub_splits,
                                i,
                            )
                    }
            }),
    {
        let n: usize = dest_kmes.len();
        if n == 0 {
            return Err(SpreadError::NoDestinations);
        }
        if n > 255 {
            return Err(SpreadError::TooManyDestinations);
        }
        let t: u8 = (n as u8) / 2 + 1;
        proof {
            assert(t == majority_threshold(n as int));
        }
        // Validate every payload first, so that an aborted call has
        // changed nothing.
        let mut has_secret: bool = false;
        match &self.secret {
            Some(s) => {
                if s.len() == 0 || s.len() > 65535 {
                    return Err(SpreadError::SplitRefused);
                }
                has_secret = true;
                proof {
                    assert(old(self)@.secret is Some && payload_ok(old(self)@.secret.unwrap()));
                }
            },
            None => {},
        }
        if n >= 2 {
            let wn: usize = self.share_wrappers.len();
            let mut j: usize = 0;
            while j < wn
                invariant
                    j <= wn,
                    wn == self@.share_wrappers.len(),
                    self@ == old(self)@,
                    2 <= n <= 255,
                    n == old(dest_kmes)@.len(),
                    dest_kmes@ == old(dest_kmes)@,
                    forall|q: int|
                        0 <= q < j ==> payload_ok(
                            wrapper_encode(#[trigger] old(self)@.share_wrappers[q]),
                        ),
                decreases wn - j,
            {
                let e: Vec<u8> = encode_wrapper(&self.share_wrappers[j]);
                proof {
                    assert(self@.share_wrappers[j as int] == self.share_wrappers@[j as int]@);
                    lemma_le_bytes_len(
                        (self.share_wrappers@[j as int]@.generator_kme_id as u64) as nat,
                        8,
                    );
                    assert(e@.len() >= 11);
                }
                if e.len() > 65535 {
                    proof {
                        assert(!payload_ok(wrapper_encode(old(self)@.share_wrappers[j as int])));
                        assert(!spread_accepts(old(self)@, n as int));
                    }
                    return Err(SpreadError::SplitRefused);
                }
                j = j + 1;
            }
        }
        proof {
            assert(spread_accepts(old(self)@, n as int));
        }
        // Split the held secret into one share per destination.
        let mut sec_shares: Vec<String> = Vec::new();
        let ghost mut sec_datas: Seq<Seq<u8>> = Seq::empty();
        if has_secret {
            match &self.secret {
                Some(s) => {
                    match ssss_split(n as u8, t, s.as_slice()) {
                        Some(shares) => {
                            proof {
                                sec_datas = choose|d: Seq<Seq<u8>>|
                                    split_result_ok(strviews(shares@), d, n as int, t, s@);
                            }
                            sec_shares = shares;
                        },
                        None => {
                            proof {
                                assert(false);
                            }
                            return Err(SpreadError::SplitRefused);
                        },
                    }
                },
                None => {
                    proof {
                        assert(false);
                    }
                    return Err(SpreadError::SplitRefused);
                },
            }
        }
        // Deliver each secret share to its destination.
        if has_secret {
            let mut i: usize = 0;
            while i < n
                invariant
                    i <= n,
                    n == dest_kmes@.len(),
                    1 <= n <= 255,
                    t == majority_threshold(n as int),
                    self@ == old(self)@,
                    has_secret,
                    old(self)@.secret is Some,
                    split_result_ok(
                        strviews(sec_shares@),
                        sec_datas,
                        n as int,
                        t,
                        old(self)@.secret.unwrap(),
                    ),
                    forall|q: int| i <= q < n ==> #[trigger] dest_kmes@[q] == old(dest_kmes)@[q],
                    forall|q: int|
                        0 <= q < i ==> (#[trigger] dest_kmes@[q]@).id == old(dest_kmes)@[q]@.id
                            && dest_kmes@[q]@.secret == old(dest_kmes)@[q]@.secret
                            && dest_kmes@[q]@.share_wrappers == old(
                            dest_kmes,
                        )@[q]@.share_wrappers + sec_part(old(self)@, t, sec_datas, q),
                decreases n - i,
            {
                proof {
                    assert(strviews(sec_shares@)[i as int] == sec_shares@[i as int]@);
                    assert(share_decode(sec_shares@[i as int]@) == Some(
                        (((i + 1) as u8), sec_datas[i as int]),
                    ));
                }
                let sh: Share = match Share::from_string(
                    sec_shares[i].as_str(),
                    SharedSecretType::Secret,
                ) {
                    Ok(x) => x,
                    Err(()) => {
                        proof {
                            assert(false);
                        }
                        return Err(SpreadError::SplitRefused);
                    },
                };
                let wrapper: ShareWrapper = ShareWrapper::new(self.id, t, sh);
                let e: Vec<u8> = encode_wrapper(&wrapper);
                proof {
                    lemma_wrapper_round_trip(wrapper@);
                }
                let ghost before = dest_kmes@;
                let dk: &mut Kme = &mut dest_kmes[i];
                dk.receive_qkd_encrypted_share_wrapper(e.as_slice());
                proof {
                    assert(dest_kmes@ =~= before.update(i as int, dest_kmes@[i as int]));
                    assert(wrapper@ == dealt_wrapper(
                        old(self)@.id,
                        t,
                        i as int,
                        sec_datas[i as int],
                        SharedSecretType::Secret,
                    ));
                    assert(dest_kmes@[i as int]@.share_wrappers =~= old(
                        dest_kmes,
                    )@[i as int]@.share_wrappers + sec_part(old(self)@, t, sec_datas, i as int));
                }
                i = i + 1;
            }
        }
        proof {
            assert forall|q: int| 0 <= q < n implies (#[trigger] dest_kmes@[q]@).id == old(
                dest_kmes,
            )@[q]@.id && dest_kmes@[q]@.secret == old(dest_kmes)@[q]@.secret
                && dest_kmes@[q]@.share_wrappers == old(dest_kmes)@[q]@.share_wrappers + sec_part(
                old(self)@,
                t,
                sec_datas,
                q,
            ) by {
                if !has_secret {
                    assert(old(self)@.secret is None);
                    assert(dest_kmes@[q]@.share_wrappers =~= old(dest_kmes)@[q]@.share_wrappers
                        + sec_part(old(self)@, t, sec_datas, q));
                }
            }
        }
        let ghost mut sub_splits: Seq<Seq<Seq<u8>>> = Seq::empty();
        let ghost after_sec = dest_kmes@;
        if n == 1 {
            // A single destination takes every stored wrapper verbatim.
            let wn: usize = self.share_wrappers.len();
            let mut j: usize = 0;
            proof {
                assert(after_sec[0]@.share_wrappers + wviews(self.share_wrappers@).take(0) =~=
                    after_sec[0]@.share_wrappers);
            }
            while j < wn
                invariant
                    j <= wn,
                    wn == self@.share_wrappers.len(),
                    n == dest_kmes@.len(),
                    n == 1,
                    self@ == old(self)@,
                    after_sec.len() == 1,
                    dest_kmes@[0]@.id == after_sec[0]@.id,
                    dest_kmes@[0]@.secret == after_sec[0]@.secret,
                    dest_kmes@[0]@.share_wrappers == after_sec[0]@.share_wrappers + old(
                        self,
                    )@.share_wrappers.take(j as int),
                decreases wn - j,
            {
                let e: Vec<u8> = encode_wrapper(&self.share_wrappers[j]);
                proof {
                    assert(self@.share_wrappers[j as int] == self.share_wrappers@[j as int]@);
                    lemma_wrapper_round_trip(self.share_wrappers@[j as int]@);
                }
                let dk: &mut Kme = &mut dest_kmes[0];
                dk.receive_qkd_encrypted_share_wrapper(e.as_slice());
                proof {
                    assert(old(self)@.share_wrappers.take(j + 1) =~= old(
                        self,
                    )@.share_wrappers.take(j as int).push(old(self)@.share_wrappers[j as int]));
                    assert(dest_kmes@[0]@.share_wrappers =~= after_sec[0]@.share_wrappers + old(
                        self,
                    )@.share_wrappers.take(j + 1));
                }
                j = j + 1;
            }
            proof {
                assert(old(self)@.share_wrappers.take(wn as int) =~= old(self)@.share_wrappers);
            }
        } else {
            // Re-split each stored wrapper's wire form and deal the shares.
            let wn: usize = self.share_wrappers.len();
            let mut j: usize = 0;
            while j < wn
                invariant
                    j <= wn,
                    wn == self@.share_wrappers.len(),
                    n == dest_kmes@.len(),
                    2 <= n <= 255,
                    t == majority_threshold(n as int),
                    self@ == old(self)@,
                    spread_accepts(old(self)@, n as int),
                    after_sec.len() == n,
                    sub_splits.len() == j,
                    forall|q: int|
                        0 <= q < j ==> (#[trigger] sub_splits[q]).len() == n && is_sharing(
                            sub_splits[q],
                            t,
                            wrapper_encode(old(self)@.share_wrappers[q]),
                        ),
                    forall|q: int|
                        0 <= q < n ==> (#[trigger] dest_kmes@[q]@).id == after_sec[q]@.id
                            && dest_kmes@[q]@.secret == after_sec[q]@.secret
                            && dest_kmes@[q]@.share_wrappers == after_sec[q]@.share_wrappers
                            + Seq::new(
                            j as nat,
                            |jj: int|
                                dealt_wrapper(
                                    old(self)@.id,
                                    t,
                                    q,
                                    sub_splits[jj][q],
                                    SharedSecretType::SubShareWrapper,
                                ),
                        ),
                decreases wn - j,
            {
                let e: Vec<u8> = encode_wrapper(&self.share_wrappers[j]);
                proof {
                    assert(self@.share_wrappers[j as int] == self.share_wrappers@[j as int]@);
                    assert(payload_ok(e@));
                }
                let shares: Vec<String> = match ssss_split(n as u8, t, e.as_slice()) {
                    Some(sh) => sh,
                    None => {
                        proof {
                            assert(false);
                        }
                        return Err(SpreadError::SplitRefused);
                    },
                };
                let ghost datas_j = choose|d: Seq<Seq<u8>>|
                    split_result_ok(strviews(shares@), d, n as int, t, e@);
                let mut i: usize = 0;
                while i < n
                    invariant
                        i <= n,
                        n == dest_kmes@.len(),
                        2 <= n <= 255,
                        t == majority_threshold(n as int),
                        self@ == old(self)@,
                        j < wn,
                        wn == self@.share_wrappers.len(),
                        e@ == wrapper_encode(old(self)@.share_wrappers[j as int]),
                        split_result_ok(strviews(shares@), datas_j, n as int, t, e@),
                        after_sec.len() == n,
                        sub_splits.len() == j,
                        forall|q: int|
                            i <= q < n ==> (#[trigger] dest_kmes@[q]@).id == after_sec[q]@.id
                                && dest_kmes@[q]@.secret == after_sec[q]@.secret
                                && dest_kmes@[q]@.share_wrappers == after_sec[q]@.share_wrappers
                                + Seq::new(
                                j as nat,
                                |jj: int|
                                    dealt_wrapper(
                                        old(self)@.id,
                                        t,
                                        q,
                                        sub_splits[jj][q],
                                        SharedSecretType::SubShareWrapper,
                                    ),
                            ),
                        forall|q: int|
                            0 <= q < i ==> (#[trigger] dest_kmes@[q]@).id == after_sec[q]@.id
                                && dest_kmes@[q]@.secret == after_sec[q]@.secret
                                && dest_kmes@[q]@.share_wrappers == after_sec[q]@.share_wrappers
                                + Seq::new(
                                j as nat,
                                |jj: int|
                                    dealt_wrapper(
                                        old(self)@.id,
                                        t,
                                        q,
                                        sub_splits[jj][q],
                                        SharedSecretType::SubShareWrapper,
                                    ),
                            ).push(
                                dealt_wrapper(
                                    old(self)@.id,
                                    t,
                                    q,
                                    datas_j[q],
                                    SharedSecretType::SubShareWrapper,
                                ),
                            ),
                    decreases n - i,
                {
                    proof {
                        assert(strviews(shares@)[i as int] == shares@[i as int]@);
                        assert(share_decode(shares@[i as int]@) == Some(
                            (((i + 1) as u8), datas_j[i as int]),
                        ));
                    }
                    let sh: Share = match Share::from_string(
                        shares[i].as_str(),
                        SharedSecretType::SubShareWrapper,
                    ) {
                        Ok(x) => x,
                        Err(()) => {
                            proof {
                                assert(false);
                            }
                            return Err(SpreadError::SplitRefused);
                        },
                    };
                    let wrapper: ShareWrapper = ShareWrapper::new(self.id, t, sh);
                    let eb: Vec<u8> = encode_wrapper(&wrapper);
                    proof {
                        lemma_wrapper_round_trip(wrapper@);
                    }
                    let ghost before = dest_kmes@;
                    let dk: &mut Kme = &mut dest_kmes[i];
                    dk.receive_qkd_encrypted_share_wrapper(eb.as_slice());
                    proof {
                        assert(dest_kmes@ =~= before.update(i as int, dest_kmes@[i as int]));
                        assert(wrapper@ == dealt_wrapper(
                            old(self)@.id,
                            t,
                            i as int,
                            datas_j[i as int],
                            SharedSecretType::SubShareWrapper,
                        ));
                    }
                    i = i + 1;
                }
                proof {
                    let ghost prev_subs = sub_splits;
                    sub_splits = sub_splits.push(datas_j);
                    assert forall|q: int| 0 <= q < n implies (#[trigger] dest_kmes@[q]@).share_wrappers
                        == after_sec[q]@.share_wrappers + Seq::new(
                        (j + 1) as nat,
                        |jj: int|
                            dealt_wrapper(
                                old(self)@.id,
                                t,
                                q,
                                sub_splits[jj][q],
                                SharedSecretType::SubShareWrapper,
                            ),
                    ) by {
                        assert(Seq::new(
                            j as nat,
                            |jj: int|
                                dealt_wrapper(
                                    old(self)@.id,
                                    t,
                                    q,
                                    prev_subs[jj][q],
                                    SharedSecretType::SubShareWrapper,
                                ),
                        ).push(
                            dealt_wrapper(
                                old(self)@.id,
                                t,
                                q,
                                datas_j[q],
                                SharedSecretType::SubShareWrapper,
                            ),
                        ) =~= Seq::new(
                            (j + 1) as nat,
                            |jj: int|
                                dealt_wrapper(
                                    old(self)@.id,
                                    t,
                                    q,
                                    sub_splits[jj][q],
                                    SharedSecretType::SubShareWrapper,
                                ),
                        ));
                    }
                }
                j = j + 1;
            }
        }
        // The secret is spread exactly once; the stored wrappers are drained.
        self.secret = None;
        self.share_wrappers.clear();
        proof {
            assert(wviews(self.share_wrappers@) =~= Seq::<WrapperV>::empty());
            assert(split_witnesses_ok(old(self)@, n as int, t, sec_datas, sub_splits));
            assert forall|i: int| 0 <= i < n implies (#[trigger] dest_kmes@[i]@).share_wrappers
                == old(dest_kmes)@[i]@.share_wrappers + deliveries_for(
                old(self)@,
                n as int,
                t,
                sec_datas,
                sub_splits,
                i,
            ) by {
                if n == 1 {
                    assert(dest_kmes@[i]@.share_wrappers =~= old(dest_kmes)@[i]@.share_wrappers + (
                    sec_part(old(self)@, t, sec_datas, i) + old(self)@.share_wrappers));
                } else {
                    assert(dest_kmes@[i]@.share_wrappers =~= old(dest_kmes)@[i]@.share_wrappers + (
                    sec_part(old(self)@, t, sec_datas, i) + Seq::new(
                        old(self)@.share_wrappers.len(),
                        |jj: int|
                            dealt_wrapper(
                                old(self)@.id,
                                t,
                                i,
                                sub_splits[jj][i],
                                SharedSecretType::SubShareWrapper,
                            ),
                    )));
                }
            }
        }
        Ok(())
    }

}

/// Whether a KME can produce exactly the expected secret bytes.
pub fn check_retrieve_secret_ok(kme: &Kme, expected: &[u8]) -> (r: bool)
    ensures
        r == (retrieve_spec(kme@) == Some(expected@)),
{
    match kme.try_retrieve_secret() {
        None => false,
        Some(secret) => bytes_eq(secret.as_slice(), expected),
    }
}

/// Whether two byte strings hold the same bytes.
fn bytes_eq(a: &[u8], b: &[u8]) -> (r: bool)
    ensures
        r == (a@ == b@),
{
    if a.len() != b.len() {
        proof {
            assert(a@ != b@);
        }
        return false;
    }
    let n: usize = a.len();
    let mut i: usize = 0;
    while i < n
        invariant
            i <= n,
            n == a@.len(),
            n == b@.len(),
            forall|k: int| 0 <= k < i ==> a@[k] == b@[k],
        decreases n - i,
    {
        if *slice_index_get(a, i) != *slice_index_get(b, i) {
            proof {
                assert(a@[i as int] != b@[i as int]);
            }
            return false;
        }
        i = i + 1;
    }
    proof {
        assert(a@ =~= b@);
    }
    true
}

/// Byte-for-byte copies of a wrapper list, so that reconstruction works on
/// a snapshot of the received collection.
fn copy_wrappers(ws: &Vec<ShareWrapper>) -> (r: Vec<ShareWrapper>)
    ensures
        wviews(r@) == wviews(ws@),
{
    let mut out: Vec<ShareWrapper> = Vec::new();
    let n: usize = ws.len();
    let mut i: usize = 0;
    while i < n
        invariant
            i <= n,
            n == ws@.len(),
            out@.len() == i,
            forall|k: int| 0 <= k < i ==> out@[k]@ == ws@[k]@,
        decreases n - i,
    {
        let w: &ShareWrapper = &ws[i];
        let data: Vec<u8> = slice_to_vec(w.share.data.as_slice());
        let share = Share { index: w.share.index, data, shared_secret_type: w.share.shared_secret_type };
        out.push(ShareWrapper { generator_kme_id: w.generator_kme_id, threshold: w.threshold, share });
        i = i + 1;
    }
    proof {
        assert(wviews(out@) =~= wviews(ws@));
    }
    out
}

fn contains_gid(v: &Vec<i64>, g: i64) -> (b: bool)
    ensures
        b == v@.contains(g),
{
    let n: usize = v.len();
    let mut i: usize = 0;
    while i < n
        invariant
            i <= n,
            n == v@.len(),
            forall|k: int| 0 <= k < i ==> v@[k] != g,
        decreases n - i,
    {
        if v[i] == g {
            assert(v@.contains(g));
            return true;
        }
        i = i + 1;
    }
    proof {
        if v@.contains(g) {
            let k = choose|k: int| 0 <= k < v@.len() && v@[k] == g;
            assert(false);
        }
    }
    false
}

/// One reconstruction round over a working set: group the wrappers by
/// generator, combine each group that reaches its declared threshold, and
/// either return the first recovered secret or the staged nested wrappers.
fn run_round(ws: &Vec<ShareWrapper>) -> (res: (Option<Vec<u8>>, Vec<ShareWrapper>))
    ensures
        ({
            let rr = round_scan(wviews(ws@), gids_of(wviews(ws@)));
            &&& match res.0 {
                Some(s) => rr.0 == Some(s@),
                None => rr.0 is None,
            }
            &&& (res.0 is None ==> wviews(res.1@) == rr.1)
        }),
{
    let ghost wsv = wviews(ws@);
    let n: usize = ws.len();
    let mut gids: Vec<i64> = Vec::new();
    let mut i: usize = 0;
    while i < n
        invariant
            i <= n,
            n == ws@.len(),
            wsv == wviews(ws@),
            gids@ == gids_of(wsv.take(i as int)),
        decreases n - i,
    {
        proof {
            assert(wsv.take(i + 1).drop_last() =~= wsv.take(i as int));
            assert(wsv.take(i + 1).last() == ws@[i as int]@);
        }
        if !contains_gid(&gids, ws[i].generator_kme_id) {
            gids.push(ws[i].generator_kme_id);
        }
        i = i + 1;
    }
    proof {
        assert(wsv.take(n as int) =~= wsv);
    }
    let ghost allgids = gids_of(wsv);
    let mut newly: Vec<ShareWrapper> = Vec::new();
    let m: usize = gids.len();
    let mut g: usize = 0;
    proof {
        assert(allgids.skip(0) =~= allgids);
        assert(wviews(newly@) =~= Seq::<WrapperV>::empty());
        lemma_round_scan_some_empty(wsv, allgids);
        if round_scan(wsv, allgids).0 is None {
            assert(Seq::<WrapperV>::empty() + round_scan(wsv, allgids).1 =~= round_scan(
                wsv,
                allgids,
            ).1);
        }
    }
    while g < m
        invariant
            g <= m,
            n == ws@.len(),
            m == gids@.len(),
            wsv == wviews(ws@),
            gids@ == allgids,
            allgids == gids_of(wsv),
            ({
                let full = round_scan(wsv, allgids);
                let rest = round_scan(wsv, allgids.skip(g as int));
                if rest.0 is Some {
                    full == (rest.0, Seq::<WrapperV>::empty())
                } else {
                    full.0 is None && full.1 == wviews(newly@) + rest.1
                }
            }),
        decreases m - g,
    {
        let gid: i64 = gids[g];
        proof {
            assert(allgids[g as int] == gid);
            assert(allgids.contains(gid));
            assert(allgids.skip(g as int).first() == gid);
            assert(allgids.skip(g as int).drop_first() =~= allgids.skip(g + 1));
            lemma_round_scan_some_empty(wsv, allgids.skip(g + 1));
        }
        let (secret_found, staged) = process_group(ws, gid);
        let ghost oc = group_outcome(group_of(wsv, gid));
        match secret_found {
            Some(bytes) => {
                proof {
                    assert(oc.0 == Some(bytes@));
                    assert(round_scan(wsv, allgids.skip(g as int)).0 == Some(bytes@));
                }
                return (Some(bytes), Vec::new());
            },
            None => {
                proof {
                    assert(oc.0 is None);
                }
                match staged {
                    Some(w) => {
                        let ghost before = newly@;
                        newly.push(w);
                        proof {
                            assert(oc.1 == Some(w@));
                            assert(wviews(newly@) =~= wviews(before).push(w@));
                            let rest1 = round_scan(wsv, allgids.skip(g + 1)).1;
                            assert(wviews(before).push(w@) + rest1 =~= wviews(before) + (seq![w@]
                                + rest1));
                        }
                    },
                    None => {
                        proof {
                            assert(oc.1 is None);
                            let rest1 = round_scan(wsv, allgids.skip(g + 1)).1;
                            assert(wviews(newly@) + (Seq::<WrapperV>::empty() + rest1) =~= wviews(
                                newly@,
                            ) + rest1);
                        }
                    },
                }
            },
        }
        g = g + 1;
    }
    proof {
        assert(allgids.skip(m as int) =~= Seq::<i64>::empty());
    }
    (None, newly)
}

/// Work one group through its threshold check, the combiner, and — for a
/// nested payload — the wrapper decoder.
fn process_group(ws: &Vec<ShareWrapper>, gid: i64) -> (res: (Option<Vec<u8>>, Option<ShareWrapper>))
    requires
        gids_of(wviews(ws@)).contains(gid),
    ensures
        ({
            let oc = group_outcome(group_of(wviews(ws@), gid));
            &&& match res.0 {
                Some(s) => oc.0 == Some(s@),
                None => oc.0 is None,
            }
            &&& match res.1 {
                Some(w) => oc.1 == Some(w@),
                None => oc.1 is None,
            }
            &&& !(res.0 is Some && res.1 is Some)
        }),
{
    let ghost wsv = wviews(ws@);
    let ghost grp = group_of(wsv, gid);
    let n: usize = ws.len();
    let mut strs: Vec<String> = Vec::new();
    let mut count: usize = 0;
    let mut last_threshold: u8 = 0;
    let mut last_kind: SharedSecretType = SharedSecretType::Secret;
    let mut k: usize = 0;
    proof {
        assert(wsv.take(0) =~= Seq::<WrapperV>::empty());
        assert(strs@.map_values(|x: String| x@) =~= group_strings(
            group_of(Seq::<WrapperV>::empty(), gid),
        ));
    }
    while k < n
        invariant
            k <= n,
            n == ws@.len(),
            wsv == wviews(ws@),
            count <= k,
            count == group_of(wsv.take(k as int), gid).len(),
            count == strs@.len(),
            strs@.map_values(|x: String| x@) == group_strings(group_of(wsv.take(k as int), gid)),
            count > 0 ==> last_threshold == group_of(wsv.take(k as int), gid).last().threshold,
            count > 0 ==> last_kind == group_of(
                wsv.take(k as int),
                gid,
            ).last().share.shared_secret_type,
        decreases n - k,
    {
        proof {
            assert(wsv.take(k + 1).drop_last() =~= wsv.take(k as int));
            assert(wsv.take(k + 1).last() == ws@[k as int]@);
        }
        if ws[k].generator_kme_id == gid {
            let st: String = ws[k].share.to_string();
            let ghost pstr = strs@;
            strs.push(st);
            count = count + 1;
            last_threshold = ws[k].threshold;
            last_kind = ws[k].share.shared_secret_type;
            proof {
                assert(group_of(wsv.take(k + 1), gid) =~= group_of(wsv.take(k as int), gid).push(
                    ws@[k as int]@,
                ));
                assert(strs@ =~= pstr.push(st));
                assert(ws@[k as int]@.share == ws@[k as int].share@);
                assert(st@ == share_string(ws@[k as int]@.share));
                lemma_map_str_push(pstr, st);
                lemma_group_strings_push(group_of(wsv.take(k as int), gid), ws@[k as int]@);
                assert(strs@.map_values(|x: String| x@) =~= group_strings(
                    group_of(wsv.take(k + 1), gid),
                ));
            }
        } else {
            proof {
                assert(group_of(wsv.take(k + 1), gid) =~= group_of(wsv.take(k as int), gid));
            }
        }
        k = k + 1;
    }
    proof {
        assert(wsv.take(n as int) =~= wsv);
        lemma_gid_group_nonempty(wsv, gid);
    }
    if count < last_threshold as usize {
        return (None, None);
    }
    match ssss_unlock(&strs) {
        None => (None, None),
        Some(bytes) => {
            if matches!(last_kind, SharedSecretType::Secret) {
                (Some(bytes), None)
            } else {
                match decode_wrapper(bytes.as_slice()) {
                    None => (None, None),
                    Some(w) => (None, Some(w)),
                }
            }
        },
    }
}

proof fn lemma_map_str_push(pstr: Seq<String>, st: String)
    ensures
        (pstr.push(st)).map_values(|x: String| x@) =~= pstr.map_values(|x: String| x@).push(st@),
{
}

proof fn lemma_group_strings_push(grp: Seq<WrapperV>, w: WrapperV)
    ensures
        group_strings(grp.push(w)) =~= group_strings(grp).push(share_string(w.share)),
{
}

/// Whenever a round ends on a recovered secret, it stages nothing.
proof fn lemma_round_scan_some_empty(ws: Seq<WrapperV>, gids: Seq<i64>)
    ensures
        round_scan(ws, gids).0 is Some ==> round_scan(ws, gids).1 =~= Seq::<WrapperV>::empty(),
    decreases gids.len(),
{
    if gids.len() > 0 {
        lemma_round_scan_some_empty(ws, gids.drop_first());
    }
}

/// A working set whose wrappers all name one generator has exactly that
/// one group, holding the whole set.
proof fn lemma_homogeneous_groups(ws: Seq<WrapperV>, g: i64)
    requires
        ws.len() >= 1,
        forall|k: int| 0 <= k < ws.len() ==> (#[trigger] ws[k]).generator_kme_id == g,
    ensures
        gids_of(ws) =~= seq![g],
        group_of(ws, g) =~= ws,
    decreases ws.len(),
{
    if ws.len() == 1 {
        assert(gids_of(ws.drop_last()) =~= Seq::<i64>::empty());
        assert(group_of(ws.drop_last(), g) =~= Seq::<WrapperV>::empty());
    } else {
        assert(forall|k: int|
            0 <= k < ws.drop_last().len() ==> (#[trigger] ws.drop_last()[k]).generator_kme_id
                == g);
        lemma_homogeneous_groups(ws.drop_last(), g);
        assert(gids_of(ws.drop_last())[0] == g);
        assert(gids_of(ws.drop_last()).contains(g));
        assert(group_of(ws.drop_last(), g).push(ws.last()) =~= ws);
    }
}

/// One-hop convergence: a KME with an empty secret slot that holds, and
/// holds nothing but, at least `threshold` distinct shares of one split of
/// a payload — all stamped with one generator and tagged as carrying the
/// secret — reconstructs exactly that payload.
pub proof fn lemma_one_hop_convergence(
    m: KmeV,
    datas: Seq<Seq<u8>>,
    threshold: u8,
    payload: Seq<u8>,
    picks: Seq<int>,
    g: i64,
)
    requires
        m.secret is None,
        is_sharing(datas, threshold, payload),
        payload.len() > 0,
        datas.len() <= 255,
        picks.len() >= threshold,
        picks.len() >= 1,
        forall|k: int| 0 <= k < picks.len() ==> 0 <= #[trigger] picks[k] < datas.len(),
        forall|k1: int, k2: int| 0 <= k1 < k2 < picks.len() ==> picks[k1] != picks[k2],
        m.share_wrappers.len() == picks.len(),
        forall|k: int|
            0 <= k < picks.len() ==> #[trigger] m.share_wrappers[k] == (WrapperV {
                generator_kme_id: g,
                threshold,
                share: ShareV {
                    index: (picks[k] + 1) as u8,
                    data: datas[picks[k]],
                    shared_secret_type: SharedSecretType::Secret,
                },
            }),
    ensures
        retrieve_spec(m) == Some(payload),
        forall|f: nat| f >= 1 ==> retrieve_from(m.share_wrappers, f) == Some(payload),
{
    let ws = m.share_wrappers;
    assert(forall|k: int| 0 <= k < ws.len() ==> (#[trigger] ws[k]).generator_kme_id == g);
    lemma_homogeneous_groups(ws, g);
    let grp = group_of(ws, g);
    assert(grp.last() == ws[ws.len() - 1]);
    assert(grp.last().threshold == threshold);
    assert(grp.last().share.shared_secret_type == SharedSecretType::Secret);
    assert(group_strings(grp) =~= crate::shamir::pick_strings(
        datas,
        picks,
        SharedSecretType::Secret,
    ));
    crate::shamir::lemma_split_combine_round_trip(
        datas,
        threshold,
        payload,
        picks,
        SharedSecretType::Secret,
    );
    assert(unlock_spec(group_strings(grp)) == Some(payload));
    assert(group_outcome(grp).0 == Some(payload));
    let gids = gids_of(ws);
    assert(gids.first() == g);
    assert(round_scan(ws, gids).0 == Some(payload));
    assert forall|f: nat| f >= 1 implies retrieve_from(ws, f) == Some(payload) by {
        reveal_with_fuel(retrieve_from, 1);
    }
}

/// One nesting hop peels off: a KME holding, and holding nothing but, at
/// least `threshold` distinct shares of one split of a serialized wrapper
/// — all stamped with one generator and tagged as nested — continues its
/// reconstruction exactly as if it held that inner wrapper alone, with one
/// round spent. Together with the one-hop law this covers convergence
/// through a chain of re-splitting hops.
pub proof fn lemma_nested_hop_peels(
    m: KmeV,
    datas: Seq<Seq<u8>>,
    threshold: u8,
    inner: WrapperV,
    picks: Seq<int>,
    g: i64,
)
    requires
        m.secret is None,
        is_sharing(datas, threshold, wrapper_encode(inner)),
        datas.len() <= 255,
        picks.len() >= threshold,
        picks.len() >= 1,
        forall|k: int| 0 <= k < picks.len() ==> 0 <= #[trigger] picks[k] < datas.len(),
        forall|k1: int, k2: int| 0 <= k1 < k2 < picks.len() ==> picks[k1] != picks[k2],
        m.share_wrappers.len() == picks.len(),
        forall|k: int|
            0 <= k < picks.len() ==> #[trigger] m.share_wrappers[k] == (WrapperV {
                generator_kme_id: g,
                threshold,
                share: ShareV {
                    index: (picks[k] + 1) as u8,
                    data: datas[picks[k]],
                    shared_secret_type: SharedSecretType::SubShareWrapper,
                },
            }),
    ensures
        retrieve_spec(m) == retrieve_from(seq![inner], (m.share_wrappers.len() - 1) as nat),
{
    let ws = m.share_wrappers;
    lemma_nested_branch_outcome(ws, datas, threshold, inner, picks, g);
    lemma_homogeneous_groups(ws, g);
    let grp = group_of(ws, g);
    let gids = gids_of(ws);
    assert(gids.first() == g);
    assert(gids.drop_first() =~= Seq::<i64>::empty());
    assert(round_scan(ws, Seq::<i64>::empty()) == (None::<Seq<u8>>, Seq::<WrapperV>::empty()));
    assert(round_scan(ws, gids.drop_first()) == (None::<Seq<u8>>, Seq::<WrapperV>::empty()));
    assert(seq![inner] + Seq::<WrapperV>::empty() =~= seq![inner]);
    assert(round_scan(ws, gids).0 is None);
    assert(round_scan(ws, gids).1 =~= seq![inner]);
    assert(retrieve_from(ws, ws.len()) == retrieve_from(seq![inner], (ws.len() - 1) as nat)) by {
        reveal_with_fuel(retrieve_from, 1);
    }
}

/// A branch of nested shares combines and decodes to its inner wrapper:
/// what one group holding at least `threshold` distinct shares of a split
/// of a serialized wrapper contributes to a round is exactly that wrapper.
pub proof fn lemma_nested_branch_outcome(
    ws: Seq<WrapperV>,
    datas: Seq<Seq<u8>>,
    threshold: u8,
    inner: WrapperV,
    picks: Seq<int>,
    g: i64,
)
    requires
        is_sharing(datas, threshold, wrapper_encode(inner)),
        datas.len() <= 255,
        picks.len() >= threshold,
        picks.len() >= 1,
        forall|k: int| 0 <= k < picks.len() ==> 0 <= #[trigger] picks[k] < datas.len(),
        forall|k1: int, k2: int| 0 <= k1 < k2 < picks.len() ==> picks[k1] != picks[k2],
        ws.len() == picks.len(),
        forall|k: int|
            0 <= k < picks.len() ==> #[trigger] ws[k] == (WrapperV {
                generator_kme_id: g,
                threshold,
                share: ShareV {
                    index: (picks[k] + 1) as u8,
                    data: datas[picks[k]],
                    shared_secret_type: SharedSecretType::SubShareWrapper,
                },
            }),
    ensures
        forall|k: int| 0 <= k < ws.len() ==> (#[trigger] ws[k]).generator_kme_id == g,
        group_of(ws, g) =~= ws,
        group_outcome(ws) == (None::<Seq<u8>>, Some(inner)),
{
    assert(forall|k: int| 0 <= k < ws.len() ==> (#[trigger] ws[k]).generator_kme_id == g);
    lemma_homogeneous_groups(ws, g);
    assert(ws.last() == ws[ws.len() - 1]);
    assert(ws.last().threshold == threshold);
    assert(ws.last().share.shared_secret_type == SharedSecretType::SubShareWrapper);
    assert(group_strings(ws) =~= crate::shamir::pick_strings(
        datas,
        picks,
        SharedSecretType::SubShareWrapper,
    ));
    lemma_le_bytes_len((inner.generator_kme_id as u64) as nat, 8);
    assert(wrapper_encode(inner).len() >= 11);
    crate::shamir::lemma_split_combine_round_trip(
        datas,
        threshold,
        wrapper_encode(inner),
        picks,
        SharedSecretType::SubShareWrapper,
    );
    assert(unlock_spec(group_strings(ws)) == Some(wrapper_encode(inner)));
    lemma_wrapper_round_trip(inner);
    assert(group_outcome(ws) == (None::<Seq<u8>>, Some(inner)));
}

/// Grouping distributes over concatenation of working sets.
proof fn lemma_group_of_concat(x: Seq<WrapperV>, y: Seq<WrapperV>, g: i64)
    ensures
        group_of(x + y, g) == group_of(x, g) + group_of(y, g),
    decreases y.len(),
{
    if y.len() == 0 {
        assert(x + y =~= x);
        assert(group_of(x, g) + group_of(y, g) =~= group_of(x, g));
    } else {
        lemma_group_of_concat(x, y.drop_last(), g);
        assert((x + y).drop_last() =~= x + y.drop_last());
        assert((x + y).last() == y.last());
        if y.last().generator_kme_id == g {
            assert((group_of(x, g) + group_of(y.drop_last(), g)).push(y.last()) =~= group_of(x, g)
                + group_of(y.drop_last(), g).push(y.last()));
        }
    }
}

/// A homogeneous working set has nothing in any other generator's group.
proof fn lemma_group_of_other(ws: Seq<WrapperV>, g: i64, g2: i64)
    requires
        g2 != g,
        forall|k: int| 0 <= k < ws.len() ==> (#[trigger] ws[k]).generator_kme_id == g,
    ensures
        group_of(ws, g2) =~= Seq::<WrapperV>::empty(),
    decreases ws.len(),
{
    if ws.len() > 0 {
        assert(forall|k: int|
            0 <= k < ws.drop_last().len() ==> (#[trigger] ws.drop_last()[k]).generator_kme_id
                == g);
        lemma_group_of_other(ws.drop_last(), g, g2);
    }
}

/// Two converging branches, one behind the other in arrival order: the
/// round combines each branch's group independently and stages the two
/// decoded inner wrappers, in branch order. What each branch's group
/// yields is taken as given, so this composes with the per-group laws.
pub proof fn lemma_two_branch_round(
    ws1: Seq<WrapperV>,
    ws2: Seq<WrapperV>,
    g1: i64,
    g2: i64,
    w1: WrapperV,
    w2: WrapperV,
)
    requires
        g1 != g2,
        ws1.len() >= 1,
        ws2.len() >= 1,
        forall|k: int| 0 <= k < ws1.len() ==> (#[trigger] ws1[k]).generator_kme_id == g1,
        forall|k: int| 0 <= k < ws2.len() ==> (#[trigger] ws2[k]).generator_kme_id == g2,
        group_outcome(ws1) == (None::<Seq<u8>>, Some(w1)),
        group_outcome(ws2) == (None::<Seq<u8>>, Some(w2)),
    ensures
        round_scan(ws1 + ws2, gids_of(ws1 + ws2)) == (None::<Seq<u8>>, seq![w1, w2]),
{
    let ws = ws1 + ws2;
    lemma_homogeneous_groups(ws1, g1);
    lemma_homogeneous_groups(ws2, g2);
    lemma_group_of_concat(ws1, ws2, g1);
    lemma_group_of_concat(ws1, ws2, g2);
    lemma_group_of_other(ws2, g2, g1);
    lemma_group_of_other(ws1, g1, g2);
    assert(group_of(ws, g1) =~= ws1);
    assert(group_of(ws, g2) =~= ws2);
    lemma_gids_two_branches(ws1, ws2, g1, g2);
    let gids = gids_of(ws);
    assert(gids =~= seq![g1, g2]);
    assert(gids.first() == g1);
    assert(gids.drop_first() =~= seq![g2]);
    assert(seq![g2].first() == g2);
    assert(seq![g2].drop_first() =~= Seq::<i64>::empty());
    assert(round_scan(ws, Seq::<i64>::empty()) == (None::<Seq<u8>>, Seq::<WrapperV>::empty()));
    assert(round_scan(ws, seq![g2]) == (None::<Seq<u8>>, seq![w2] + Seq::<WrapperV>::empty()));
    assert(seq![w2] + Seq::<WrapperV>::empty() =~= seq![w2]);
    assert(round_scan(ws, gids.drop_first()) == (None::<Seq<u8>>, seq![w2]));
    assert(seq![w1] + seq![w2] =~= seq![w1, w2]);
    assert(round_scan(ws, gids) == (None::<Seq<u8>>, seq![w1, w2]));
}

proof fn lemma_gids_two_branches(ws1: Seq<WrapperV>, ws2: Seq<WrapperV>, g1: i64, g2: i64)
    requires
        g1 != g2,
        ws1.len() >= 1,
        ws2.len() >= 1,
        forall|k: int| 0 <= k < ws1.len() ==> (#[trigger] ws1[k]).generator_kme_id == g1,
        forall|k: int| 0 <= k < ws2.len() ==> (#[trigger] ws2[k]).generator_kme_id == g2,
    ensures
        gids_of(ws1 + ws2) =~= seq![g1, g2],
    decreases ws2.len(),
{
    let ws = ws1 + ws2;
    if ws2.len() == 1 {
        assert(ws.drop_last() =~= ws1);
        lemma_homogeneous_groups(ws1, g1);
        assert(gids_of(ws1) =~= seq![g1]);
        assert(ws.last() == ws2[0]);
        assert(ws.last().generator_kme_id == g2);
        assert(!seq![g1].contains(g2)) by {
            if seq![g1].contains(g2) {
                let i = choose|i: int| 0 <= i < 1 && seq![g1][i] == g2;
                assert(false);
            }
        }
        assert(gids_of(ws) =~= seq![g1].push(g2));
        assert(seq![g1].push(g2) =~= seq![g1, g2]);
    } else {
        assert(forall|k: int|
            0 <= k < ws2.drop_last().len() ==> (#[trigger] ws2.drop_last()[k]).generator_kme_id
                == g2);
        lemma_gids_two_branches(ws1, ws2.drop_last(), g1, g2);
        assert(ws.drop_last() =~= ws1 + ws2.drop_last());
        assert(ws.last() == ws2.last());
        assert(gids_of(ws.drop_last()) =~= seq![g1, g2]);
        assert(seq![g1, g2][1] == g2);
        assert(gids_of(ws.drop_last()).contains(g2));
    }
}

/// Two branches of nested shares peel together: a KME whose wrappers are
/// the shares of two such branches continues exactly as if it held the two
/// decoded inner wrappers, with one round spent.
pub proof fn lemma_two_branches_peel(
    m: KmeV,
    ws1: Seq<WrapperV>,
    ws2: Seq<WrapperV>,
    g1: i64,
    g2: i64,
    w1: WrapperV,
    w2: WrapperV,
)
    requires
        m.secret is None,
        m.share_wrappers == ws1 + ws2,
        g1 != g2,
        ws1.len() >= 1,
        ws2.len() >= 1,
        forall|k: int| 0 <= k < ws1.len() ==> (#[trigger] ws1[k]).generator_kme_id == g1,
        forall|k: int| 0 <= k < ws2.len() ==> (#[trigger] ws2[k]).generator_kme_id == g2,
        group_outcome(ws1) == (None::<Seq<u8>>, Some(w1)),
        group_outcome(ws2) == (None::<Seq<u8>>, Some(w2)),
    ensures
        retrieve_spec(m) == retrieve_from(seq![w1, w2], (m.share_wrappers.len() - 1) as nat),
{
    lemma_two_branch_round(ws1, ws2, g1, g2, w1, w2);
    let ws = m.share_wrappers;
    assert(ws.len() >= 2);
    assert(retrieve_from(ws, ws.len()) == retrieve_from(seq![w1, w2], (ws.len() - 1) as nat)) by {
        reveal_with_fuel(retrieve_from, 1);
    }
}

/// End-to-end convergence through one re-splitting level: a KME whose
/// wrappers are exactly two branches, each holding at least that hop's
/// threshold of distinct shares of a split of a serialized inner wrapper,
/// where the two inner wrappers are two distinct shares of the origin's
/// split of the secret under a threshold of at most two, recovers exactly
/// the origin's secret. Enough shares delivered at every hop along two
/// converging branches suffice, whatever was lost elsewhere.
pub proof fn lemma_two_level_convergence(
    m: KmeV,
    ws1: Seq<WrapperV>,
    ws2: Seq<WrapperV>,
    datas1: Seq<Seq<u8>>,
    datas2: Seq<Seq<u8>>,
    t1: u8,
    t2: u8,
    picks1: Seq<int>,
    picks2: Seq<int>,
    g1: i64,
    g2: i64,
    origin: i64,
    datas0: Seq<Seq<u8>>,
    t0: u8,
    p1: int,
    p2: int,
    payload: Seq<u8>,
)
    requires
        m.secret is None,
        m.share_wrappers == ws1 + ws2,
        g1 != g2,
        // Each branch carries enough distinct shares of its inner wrapper.
        is_sharing(datas1, t1, wrapper_encode(inner_share(origin, t0, p1, datas0))),
        is_sharing(datas2, t2, wrapper_encode(inner_share(origin, t0, p2, datas0))),
        datas1.len() <= 255,
        datas2.len() <= 255,
        picks1.len() >= t1,
        picks1.len() >= 1,
        picks2.len() >= t2,
        picks2.len() >= 1,
        forall|k: int| 0 <= k < picks1.len() ==> 0 <= #[trigger] picks1[k] < datas1.len(),
        forall|k: int| 0 <= k < picks2.len() ==> 0 <= #[trigger] picks2[k] < datas2.len(),
        forall|k1: int, k2: int| 0 <= k1 < k2 < picks1.len() ==> picks1[k1] != picks1[k2],
        forall|k1: int, k2: int| 0 <= k1 < k2 < picks2.len() ==> picks2[k1] != picks2[k2],
        ws1.len() == picks1.len(),
        ws2.len() == picks2.len(),
        forall|k: int|
            0 <= k < picks1.len() ==> #[trigger] ws1[k] == (WrapperV {
                generator_kme_id: g1,
                threshold: t1,
                share: ShareV {
                    index: (picks1[k] + 1) as u8,
                    data: datas1[picks1[k]],
                    shared_secret_type: SharedSecretType::SubShareWrapper,
                },
            }),
        forall|k: int|
            0 <= k < picks2.len() ==> #[trigger] ws2[k] == (WrapperV {
                generator_kme_id: g2,
                threshold: t2,
                share: ShareV {
                    index: (picks2[k] + 1) as u8,
                    data: datas2[picks2[k]],
                    shared_secret_type: SharedSecretType::SubShareWrapper,
                },
            }),
        // The two inner wrappers are two distinct shares of the origin's
        // split, which their two together satisfy.
        is_sharing(datas0, t0, payload),
        payload.len() > 0,
        datas0.len() <= 255,
        t0 <= 2,
        0 <= p1 < datas0.len(),
        0 <= p2 < datas0.len(),
        p1 != p2,
    ensures
        retrieve_spec(m) == Some(payload),
{
    let w1 = inner_share(origin, t0, p1, datas0);
    let w2 = inner_share(origin, t0, p2, datas0);
    lemma_nested_branch_outcome(ws1, datas1, t1, w1, picks1, g1);
    lemma_nested_branch_outcome(ws2, datas2, t2, w2, picks2, g2);
    lemma_two_branches_peel(m, ws1, ws2, g1, g2, w1, w2);
    let m2 = KmeV { id: m.id, secret: None, share_wrappers: seq![w1, w2] };
    let picks0 = seq![p1, p2];
    assert(forall|k: int| 0 <= k < picks0.len() ==> 0 <= #[trigger] picks0[k] < datas0.len());
    assert(m2.share_wrappers.len() == picks0.len());
    assert(m2.share_wrappers[0] == (WrapperV {
        generator_kme_id: origin,
        threshold: t0,
        share: ShareV {
            index: (picks0[0] + 1) as u8,
            data: datas0[picks0[0]],
            shared_secret_type: SharedSecretType::Secret,
        },
    }));
    assert(m2.share_wrappers[1] == (WrapperV {
        generator_kme_id: origin,
        threshold: t0,
        share: ShareV {
            index: (picks0[1] + 1) as u8,
            data: datas0[picks0[1]],
            shared_secret_type: SharedSecretType::Secret,
        },
    }));
    lemma_one_hop_convergence(m2, datas0, t0, payload, picks0, origin);
    assert(m.share_wrappers.len() >= 2);
    assert(retrieve_from(seq![w1, w2], (m.share_wrappers.len() - 1) as nat) == Some(payload));
}

/// The origin-stamped wrapper carrying share `p` of the origin's split.
pub open spec fn inner_share(origin: i64, t0: u8, p: int, datas0: Seq<Seq<u8>>) -> WrapperV {
    WrapperV {
        generator_kme_id: origin,
        threshold: t0,
        share: ShareV {
            index: (p + 1) as u8,
            data: datas0[p],
            shared_secret_type: SharedSecretType::Secret,
        },
    }
}

/// A generator id listed for a working set names a nonempty group.
proof fn lemma_gid_group_nonempty(ws: Seq<WrapperV>, g: i64)
    requires
        gids_of(ws).contains(g),
    ensures
        group_of(ws, g).len() > 0,
        group_of(ws, g).last().generator_kme_id == g,
    decreases ws.len(),
{
    if ws.len() > 0 {
        if ws.last().generator_kme_id == g {
        } else {
            assert(gids_of(ws.drop_last()).contains(g));
            lemma_gid_group_nonempty(ws.drop_last(), g);
        }
    }
}

} // verus!
