use vstd::prelude::*;
use crate::base62;
use crate::base62::{b62_encode, b62_decode, lemma_b62_round_trip, lemma_encode_no_colon};

verus! {

/// Tag carried by every share: does the wrapped payload hold the secret
/// itself, or another serialized share wrapper to be peeled recursively?
#[derive(Debug, Copy, Clone, PartialEq, Eq, Structural)]
pub enum SharedSecretType {
    /// The contained payload is the secret.
    Secret,
    /// The contained payload is another ShareWrapper, serialized.
    SubShareWrapper,
}

/// Mathematical view of a [`Share`].
pub ghost struct ShareV {
    pub index: u8,
    pub data: Seq<u8>,
    pub shared_secret_type: SharedSecretType,
}

/// One share produced by a threshold split: a position index, opaque share
/// bytes, and the payload-kind tag.
#[derive(Debug, Clone, PartialEq, Eq)]
pub struct Share {
    pub index: u8,
    pub data: Vec<u8>,
    pub shared_secret_type: SharedSecretType,
}

impl View for Share {
    type V = ShareV;

    open spec fn view(&self) -> ShareV {
        ShareV { index: self.index, data: self.data@, shared_secret_type: self.shared_secret_type }
    }
}

/// The printed form of a share: base-62 of its one index byte, a colon,
/// base-62 of its data.
pub open spec fn share_string(s: ShareV) -> Seq<char> {
    b62_encode(seq![s.index]) + seq![':'] + b62_encode(s.data)
}

/// `j` is the position of the one and only colon of `s`.
pub open spec fn is_only_colon(s: Seq<char>, j: int) -> bool {
    &&& 0 <= j < s.len()
    &&& s[j] == ':'
    &&& forall|k: int| 0 <= k < s.len() && k != j ==> s[k] != ':'
}

/// Parse of a share string with its colon at `j`: the left field must
/// decode to exactly one byte, the index; the right field is the data.
pub open spec fn share_decode_at(s: Seq<char>, j: int) -> Option<(u8, Seq<u8>)> {
    match b62_decode(s.take(j)) {
        None => None,
        Some(ib) => if ib.len() != 1 {
            None
        } else {
            match b62_decode(s.skip(j + 1)) {
                None => None,
                Some(d) => Some((ib[0], d)),
            }
        },
    }
}

/// Parse of a share string: index byte and data bytes, or nothing when the
/// string does not hold exactly one colon with two decodable fields.
pub open spec fn share_decode(s: Seq<char>) -> Option<(u8, Seq<u8>)> {
    if exists|j: int| is_only_colon(s, j) {
        share_decode_at(s, choose|j: int| is_only_colon(s, j))
    } else {
        None
    }
}

impl Share {
    /// Parse one share from its printed form, attaching the given tag.
    pub fn from_string(share: &str, shared_secret_type: SharedSecretType) -> (r: Result<
        Share,
        (),
    >)
        ensures
            match r {
                Ok(sh) => {
                    &&& share_decode(share@) matches Some(p)
                    &&& sh@.index == share_decode(share@).unwrap().0
                    &&& sh@.data == share_decode(share@).unwrap().1
                    &&& sh@.shared_secret_type == shared_secret_type
                },
                Err(()) => share_decode(share@) is None,
            },
    {
        let len: usize = share.unicode_len();
        let mut colon_at: usize = 0;
        let mut found: bool = false;
        let mut i: usize = 0;
        while i < len
            invariant
                i <= len,
                len == share@.len(),
                found ==> colon_at < i && share@[colon_at as int] == ':' && (forall|k: int|
                    0 <= k < i && k != colon_at ==> share@[k] != ':'),
                !found ==> (forall|k: int| 0 <= k < i ==> share@[k] != ':'),
            decreases len - i,
        {
            let c: char = share.get_char(i);
            if c == ':' {
                if found {
                    proof {
                        assert forall|j: int| !is_only_colon(share@, j) by {
                            if 0 <= j < share@.len() && share@[j] == ':' {
                                if j == colon_at {
                                    assert(share@[i as int] == ':');
                                } else {
                                    assert(share@[colon_at as int] == ':');
                                }
                            }
                        }
                    }
                    return Err(());
                }
                colon_at = i;
                found = true;
            }
            i = i + 1;
        }
        if !found {
            proof {
                assert forall|j: int| !is_only_colon(share@, j) by {}
            }
            return Err(());
        }
        proof {
            assert(is_only_colon(share@, colon_at as int));
            let jj = choose|j: int| is_only_colon(share@, j);
            assert(is_only_colon(share@, jj));
            if jj != colon_at {
                assert(share@[jj] == ':');
                assert(false);
            }
        }
        let left: &str = share.substring_char(0, colon_at);
        let right: &str = share.substring_char(colon_at + 1, len);
        proof {
            assert(left@ =~= share@.take(colon_at as int));
            assert(right@ =~= share@.skip(colon_at + 1));
        }
        let ib: Vec<u8> = match base62::decode(left) {
            Ok(v) => v,
            Err(()) => {
                return Err(());
            },
        };
        if ib.len() != 1 {
            return Err(());
        }
        let data: Vec<u8> = match base62::decode(right) {
            Ok(v) => v,
            Err(()) => {
                return Err(());
            },
        };
        Ok(Share { index: ib[0], data, shared_secret_type })
    }

    /// Print this share: base-62 index, colon, base-62 data.
    pub fn to_string(&self) -> (r: String)
        ensures
            r@ == share_string(self@),
    {
        let mut iv: Vec<u8> = Vec::new();
        iv.push(self.index);
        proof {
            assert(iv@ =~= seq![self@.index]);
        }
        let idx_enc: String = base62::encode(iv.as_slice());
        let data_enc: String = base62::encode(self.data.as_slice());
        let mut out: String = idx_enc;
        out.append(":");
        out.append(data_enc.as_str());
        proof {
            reveal_strlit(":");
            assert(":"@ =~= seq![':']);
            assert(out@ =~= share_string(self@));
        }
        out
    }
}

/// Printing a share and parsing the result restores its index and data:
/// the share string format is lossless.
pub proof fn lemma_share_string_round_trip(s: ShareV)
    ensures
        share_decode(share_string(s)) == Some((s.index, s.data)),
{
    let str = share_string(s);
    let li = b62_encode(seq![s.index]);
    let ld = b62_encode(s.data);
    let j = li.len() as int;
    lemma_encode_no_colon(seq![s.index]);
    lemma_encode_no_colon(s.data);
    assert(str.len() == li.len() + 1 + ld.len());
    assert(str[j] == ':');
    assert forall|k: int| 0 <= k < str.len() && k != j implies str[k] != ':' by {
        if k < j {
            assert(str[k] == li[k]);
        } else {
            assert(str[k] == ld[k - j - 1]);
        }
    }
    assert(is_only_colon(str, j));
    let jj = choose|jx: int| is_only_colon(str, jx);
    assert(is_only_colon(str, jj));
    if jj != j {
        assert(str[jj] == ':');
        assert(false);
    }
    assert(str.take(j) =~= li);
    assert(str.skip(j + 1) =~= ld);
    lemma_b62_round_trip(seq![s.index]);
    lemma_b62_round_trip(s.data);
    assert(b62_decode(str.take(j)) == Some(seq![s.index]));
    assert(seq![s.index].len() == 1);
    assert(seq![s.index][0] == s.index);
    assert(share_decode_at(str, j) == Some((s.index, s.data)));
}

} // verus!
