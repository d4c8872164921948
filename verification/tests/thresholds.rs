use qkd_kme_key_spread::share::{Share, SharedSecretType};
use ssss::{gen_shares, unlock, SsssConfig};

fn five_shares(secret: &[u8]) -> Vec<String> {
    let config = SsssConfig::builder().num_shares(5).threshold(3).build();
    let shares = gen_shares(&config, secret).unwrap();
    assert_eq!(shares.len(), 5);
    shares
}

/// Every subset of exactly the threshold many shares restores the payload,
/// and so does every larger subset.
#[test]
fn every_threshold_subset_recovers() {
    let secret = b"round trip payload".to_vec();
    let shares = five_shares(&secret);
    for a in 0..5 {
        for b in (a + 1)..5 {
            for c in (b + 1)..5 {
                let sub = vec![shares[a].clone(), shares[b].clone(), shares[c].clone()];
                assert_eq!(unlock(&sub).unwrap(), secret);
            }
        }
    }
    for a in 0..5 {
        let sub: Vec<String> = shares
            .iter()
            .enumerate()
            .filter(|(i, _)| *i != a)
            .map(|(_, s)| s.clone())
            .collect();
        assert_eq!(unlock(&sub).unwrap(), secret);
    }
    assert_eq!(unlock(&shares).unwrap(), secret);
}

/// No subset below the threshold restores the payload — every such subset,
/// not one sample.
#[test]
fn every_below_threshold_subset_fails() {
    let secret = b"opaque below threshold".to_vec();
    let shares = five_shares(&secret);
    for a in 0..5 {
        let sub = vec![shares[a].clone()];
        match unlock(&sub) {
            Ok(bytes) => assert_ne!(bytes, secret),
            Err(_) => {}
        }
    }
    for a in 0..5 {
        for b in (a + 1)..5 {
            let sub = vec![shares[a].clone(), shares[b].clone()];
            match unlock(&sub) {
                Ok(bytes) => assert_ne!(bytes, secret),
                Err(_) => {}
            }
        }
    }
}

/// Shares parsed into the library's share type and printed again are still
/// acceptable to the combiner: the printed form is interchangeable with
/// the splitter's own.
#[test]
fn reencoded_shares_still_unlock() {
    let secret = b"reencode and combine".to_vec();
    let shares = five_shares(&secret);
    let reencoded: Vec<String> = shares
        .iter()
        .map(|s| {
            Share::from_string(s, SharedSecretType::Secret)
                .unwrap()
                .to_string()
        })
        .collect();
    let sub = vec![
        reencoded[0].clone(),
        reencoded[2].clone(),
        reencoded[4].clone(),
    ];
    assert_eq!(unlock(&sub).unwrap(), secret);
    // Mixing original and re-printed shares works as well.
    let mixed = vec![
        shares[1].clone(),
        reencoded[3].clone(),
        reencoded[0].clone(),
    ];
    assert_eq!(unlock(&mixed).unwrap(), secret);
}
