//! The threshold-splitting primitive, as the library relies on it.
//!
//! The algebra of secret sharing is not redone here: splitting and combining
//! are calls into the `ssss` crate, taken on the contracts below. What the
//! combiner returns for a given set of decoded shares is given a name,
//! [`interpolate_of`]; the splitter's contract says that any large enough
//! submap of the shares it produced interpolates back to the payload.

use vstd::prelude::*;
use crate::share::{share_decode, share_string, lemma_share_string_round_trip, ShareV, SharedSecretType};

verus! {

/// What `ssss::unlock` computes from a validated map of decoded shares:
/// one byte-wise interpolation at zero. A pure function of the map alone.
pub uninterp spec fn interpolate_of(m: Map<u8, Seq<u8>>) -> Seq<u8>;

/// The map `ssss::unlock` builds from share strings: each string that
/// parses contributes its index and data, a later duplicate index winning.
pub open spec fn decoded_map(svs: Seq<Seq<char>>) -> Map<u8, Seq<u8>>
    decreases svs.len(),
{
    if svs.len() == 0 {
        Map::empty()
    } else {
        let m = decoded_map(svs.drop_last());
        match share_decode(svs.last()) {
            None => m,
            Some(p) => m.insert(p.0, p.1),
        }
    }
}

/// What `ssss::unlock` returns on a sequence of share strings: nothing when
/// no string parses, or a share is empty, or two shares differ in length;
/// otherwise the interpolation of the decoded map.
pub open spec fn unlock_spec(svs: Seq<Seq<char>>) -> Option<Seq<u8>> {
    let m = decoded_map(svs);
    if m == Map::<u8, Seq<u8>>::empty() {
        None
    } else if exists|k: u8| m.dom().contains(k) && m[k].len() == 0 {
        None
    } else if exists|k1: u8, k2: u8|
        m.dom().contains(k1) && m.dom().contains(k2) && m[k1].len() != m[k2].len() {
        None
    } else {
        Some(interpolate_of(m))
    }
}

/// Views of a sequence of strings.
pub open spec fn strviews(s: Seq<String>) -> Seq<Seq<char>> {
    s.map_values(|x: String| x@)
}

/// The map from share index to share data over a split's outputs, the
/// share at position `i` carrying index `i + 1`.
pub open spec fn share_map(datas: Seq<Seq<u8>>) -> Map<u8, Seq<u8>> {
    Map::new(
        |k: u8| 1 <= k <= datas.len(),
        |k: u8| datas[k - 1],
    )
}

/// `datas` are the data fields of a threshold sharing of `payload`: all of
/// one length, and every submap holding at least `threshold` of them
/// interpolates back to `payload` exactly.
pub open spec fn is_sharing(datas: Seq<Seq<u8>>, threshold: u8, payload: Seq<u8>) -> bool {
    &&& datas.len() >= 1
    &&& forall|i: int| 0 <= i < datas.len() ==> (#[trigger] datas[i]).len() == payload.len()
    &&& forall|m: Map<u8, Seq<u8>>|
        m.dom().finite() && m.submap_of(share_map(datas)) && m.len() >= threshold && m.len() >= 1
            ==> #[trigger] interpolate_of(m) == payload
}

/// `datas` witnesses what a successful split returned as `shares`: a
/// sharing of `secret` whose printed share at position `i` parses to index
/// `i + 1` and the data at position `i`.
pub open spec fn split_result_ok(
    shares: Seq<Seq<char>>,
    datas: Seq<Seq<u8>>,
    num: int,
    threshold: u8,
    secret: Seq<u8>,
) -> bool {
    &&& is_sharing(datas, threshold, secret)
    &&& datas.len() == num
    &&& shares.len() == num
    &&& forall|i: int|
        0 <= i < num ==> share_decode(#[trigger] shares[i]) == Some((((i + 1) as u8), datas[i]))
}

/// The printed shares of a selection of a split's outputs: the share at
/// position `picks[k]` of the split, under the given payload-kind tag.
pub open spec fn pick_strings(datas: Seq<Seq<u8>>, picks: Seq<int>, kind: SharedSecretType) -> Seq<
    Seq<char>,
> {
    Seq::new(
        picks.len(),
        |k: int|
            share_string(
                ShareV {
                    index: (picks[k] + 1) as u8,
                    data: datas[picks[k]],
                    shared_secret_type: kind,
                },
            ),
    )
}

proof fn lemma_picks_decoded_map(datas: Seq<Seq<u8>>, picks: Seq<int>, kind: SharedSecretType)
    requires
        datas.len() <= 255,
        forall|k: int| 0 <= k < picks.len() ==> 0 <= #[trigger] picks[k] < datas.len(),
        forall|k1: int, k2: int| 0 <= k1 < k2 < picks.len() ==> picks[k1] != picks[k2],
    ensures
        ({
            let m = decoded_map(pick_strings(datas, picks, kind));
            &&& m.dom().finite()
            &&& m.len() == picks.len()
            &&& m.submap_of(share_map(datas))
            &&& forall|key: u8|
                #[trigger] m.dom().contains(key) ==> 1 <= key <= datas.len() && m[key] == datas[key
                    - 1]
            &&& forall|key: u8|
                m.dom().contains(key) ==> exists|i: int|
                    0 <= i < picks.len() && key == picks[i] + 1
        }),
    decreases picks.len(),
{
    let s = pick_strings(datas, picks, kind);
    if picks.len() == 0 {
        let m = decoded_map(s);
        assert(m == Map::<u8, Seq<u8>>::empty());
        assert(m.dom() =~= Set::<u8>::empty());
        assert(m.submap_of(share_map(datas)));
    } else {
        lemma_picks_decoded_map(datas, picks.drop_last(), kind);
        let pre = decoded_map(pick_strings(datas, picks.drop_last(), kind));
        assert(s.drop_last() =~= pick_strings(datas, picks.drop_last(), kind));
        let last = picks.last();
        let sv = ShareV {
            index: (last + 1) as u8,
            data: datas[last],
            shared_secret_type: kind,
        };
        assert(s.last() == share_string(sv));
        lemma_share_string_round_trip(sv);
        assert(share_decode(s.last()) == Some((sv.index, sv.data)));
        let m = decoded_map(s);
        assert(m == pre.insert(sv.index, sv.data));
        assert(!pre.dom().contains(sv.index)) by {
            if pre.dom().contains(sv.index) {
                let i = choose|i: int|
                    0 <= i < picks.drop_last().len() && sv.index == picks.drop_last()[i] + 1;
                assert(picks[i] == last);
                assert(i < picks.len() - 1);
                assert(false);
            }
        }
        assert(m.dom() =~= pre.dom().insert(sv.index));
        assert(m.len() == pre.len() + 1);
        assert(share_map(datas).dom().contains(sv.index));
        assert(share_map(datas)[sv.index] == datas[sv.index - 1]);
        assert(sv.index - 1 == last);
        assert(m.submap_of(share_map(datas))) by {
            assert forall|key: u8| m.dom().contains(key) implies share_map(datas).dom().contains(
                key,
            ) && m[key] == share_map(datas)[key] by {
                if key != sv.index {
                    assert(pre.dom().contains(key));
                }
            }
        }
        assert forall|key: u8| m.dom().contains(key) implies exists|i: int|
            0 <= i < picks.len() && key == picks[i] + 1 by {
            if key == sv.index {
                assert(0 <= picks.len() - 1 < picks.len() && key == picks[picks.len() - 1] + 1);
            } else {
                assert(pre.dom().contains(key));
                let i = choose|i: int|
                    0 <= i < picks.drop_last().len() && key == picks.drop_last()[i] + 1;
                assert(0 <= i < picks.len() && key == picks[i] + 1);
            }
        }
    }
}

/// Round trip of the scheme: any selection of at least `threshold` distinct
/// shares of one split, printed as share strings, combines back to exactly
/// the original payload.
pub proof fn lemma_split_combine_round_trip(
    datas: Seq<Seq<u8>>,
    threshold: u8,
    payload: Seq<u8>,
    picks: Seq<int>,
    kind: SharedSecretType,
)
    requires
        is_sharing(datas, threshold, payload),
        payload.len() > 0,
        datas.len() <= 255,
        picks.len() >= threshold,
        picks.len() >= 1,
        forall|k: int| 0 <= k < picks.len() ==> 0 <= #[trigger] picks[k] < datas.len(),
        forall|k1: int, k2: int| 0 <= k1 < k2 < picks.len() ==> picks[k1] != picks[k2],
    ensures
        unlock_spec(pick_strings(datas, picks, kind)) == Some(payload),
{
    lemma_picks_decoded_map(datas, picks, kind);
    let m = decoded_map(pick_strings(datas, picks, kind));
    assert(m != Map::<u8, Seq<u8>>::empty()) by {
        if m == Map::<u8, Seq<u8>>::empty() {
            assert(m.dom() =~= Set::<u8>::empty());
            assert(m.len() == 0);
        }
    }
    assert forall|key: u8| m.dom().contains(key) implies (#[trigger] m[key]).len()
        == payload.len() by {
        assert(m.dom().contains(key));
        assert(1 <= key <= datas.len());
        assert(m[key] == datas[key - 1]);
        assert(datas[key - 1].len() == payload.len());
    }
    assert(interpolate_of(m) == payload);
}

/// Split a payload into share strings.
///
/// Relies on `ssss::gen_shares`: it fails exactly on an empty or oversized
/// payload, a zero share count, a zero threshold, or a threshold above the
/// share count; on success it returns one share string per requested share,
/// the string at position `i` parsing to index `i + 1`, and any `threshold`
/// or more of the produced shares interpolate back to the payload — the
/// defining guarantee of the scheme, which this library treats as given.
#[verifier::external_body]
pub fn ssss_split(num_shares: u8, threshold: u8, secret: &[u8]) -> (r: Option<Vec<String>>)
    ensures
        r is Some <==> (num_shares >= 1 && 1 <= threshold <= num_shares && 0 < secret@.len()
            <= 65535),
        match r {
            Some(shares) => {
                &&& shares@.len() == num_shares as int
                &&& exists|datas: Seq<Seq<u8>>|
                    #[trigger] split_result_ok(
                        strviews(shares@),
                        datas,
                        num_shares as int,
                        threshold,
                        secret@,
                    )
            },
            None => true,
        },
{
    let config = ssss::SsssConfig::builder().num_shares(num_shares).threshold(threshold).build();
    ssss::gen_shares(&config, secret).ok()
}

/// Combine share strings back into a payload.
///
/// Relies on `ssss::unlock`: it decodes each share string, keeps the ones
/// that parse in a map by index, fails exactly when that map is empty or
/// its share lengths are zero or unequal, and otherwise interpolates — a
/// deterministic function of the decoded map, named `interpolate_of` here.
#[verifier::external_body]
pub fn ssss_unlock(shares: &Vec<String>) -> (r: Option<Vec<u8>>)
    ensures
        match r {
            Some(b) => unlock_spec(shares@.map_values(|s: String| s@)) == Some(b@),
            None => unlock_spec(shares@.map_values(|s: String| s@)) is None,
        },
        r matches Some(b) ==> b@ == interpolate_of(
            decoded_map(shares@.map_values(|s: String| s@)),
        ),
{
    ssss::unlock(shares.as_slice()).ok()
}

} // verus!
