use qkd_kme_key_spread::kme::{check_retrieve_secret_ok, Kme, SpreadError};

const SUPER_SECRET_STRING: &'static str = "This string is so secret";

/// The two-level scenario: a secret spread over three KMEs, re-spread over
/// three more with overlapping destination sets, finally converging — with
/// one link cut — on a last KME that must still recover it.
#[test]
fn two_level_spread_converges() {
    let secret = SUPER_SECRET_STRING.as_bytes();

    let mut kme1 = Kme::new(1);
    kme1.set_secret(secret);
    // The origin trivially retrieves its own secret.
    assert!(check_retrieve_secret_ok(&kme1, secret));

    // Level one: threshold 2 of 3.
    let mut d = vec![Kme::new(2), Kme::new(3), Kme::new(4)];
    kme1.spread_secrets(&mut d).unwrap();
    let mut kme4 = d.pop().unwrap();
    let mut kme3 = d.pop().unwrap();
    let mut kme2 = d.pop().unwrap();
    // One leaked KME alone is not enough.
    assert_eq!(check_retrieve_secret_ok(&kme4, secret), false);

    // Level two, with overlapping destination sets.
    let mut d2 = vec![Kme::new(5), Kme::new(6)];
    kme2.spread_secrets(&mut d2).unwrap();
    let kme6 = d2.pop().unwrap();
    let kme5 = d2.pop().unwrap();

    let mut d3 = vec![kme5, kme6, Kme::new(7)];
    kme3.spread_secrets(&mut d3).unwrap();
    let kme7 = d3.pop().unwrap();
    let kme6 = d3.pop().unwrap();
    let kme5 = d3.pop().unwrap();

    let mut d4 = vec![kme6, kme7];
    kme4.spread_secrets(&mut d4).unwrap();
    let _kme7 = d4.pop().unwrap();
    let kme6 = d4.pop().unwrap();

    // A KME holding shares from only some branches still cannot recover.
    assert_eq!(check_retrieve_secret_ok(&kme6, secret), false);

    // KMEs 5 and 6 forward everything to KME 8; the link from KME 7 is cut.
    let mut kme5 = kme5;
    let mut kme6 = kme6;
    let mut d5 = vec![Kme::new(8)];
    kme5.spread_secrets(&mut d5).unwrap();
    kme6.spread_secrets(&mut d5).unwrap();
    let kme8 = d5.pop().unwrap();

    // Enough branches converged: KME 8 recovers exactly the secret.
    assert!(check_retrieve_secret_ok(&kme8, secret));
    assert_eq!(kme8.try_retrieve_secret().unwrap(), secret);
}

/// Any two of three first-level KMEs can pool their shares and recover.
#[test]
fn any_two_of_three_recover() {
    let secret = b"another secret payload";
    for drop_out in 0..3usize {
        let mut kme1 = Kme::new(1);
        kme1.set_secret(secret);
        let mut d = vec![Kme::new(2), Kme::new(3), Kme::new(4)];
        kme1.spread_secrets(&mut d).unwrap();
        // The two colluding KMEs forward everything to a collector.
        let mut collector_vec = vec![Kme::new(9)];
        for (idx, mut kme) in d.drain(..).enumerate() {
            if idx != drop_out {
                kme.spread_secrets(&mut collector_vec).unwrap();
            }
        }
        let collector = collector_vec.pop().unwrap();
        assert!(check_retrieve_secret_ok(&collector, secret));
    }
}

/// A single first-level KME alone never recovers.
#[test]
fn one_of_three_fails() {
    let secret = b"yet another secret";
    let mut kme1 = Kme::new(1);
    kme1.set_secret(secret);
    let mut d = vec![Kme::new(2), Kme::new(3), Kme::new(4)];
    kme1.spread_secrets(&mut d).unwrap();
    for (i, kme) in d.iter().enumerate() {
        assert_eq!(check_retrieve_secret_ok(kme, secret), false);
        assert!(kme.try_retrieve_secret().is_none());
        // Each destination got exactly one share, stamped by the sender,
        // under the majority threshold 3 / 2 + 1 = 2, with share index
        // equal to its position plus one.
        assert_eq!(kme.share_wrappers.len(), 1);
        assert_eq!(kme.share_wrappers[0].generator_kme_id, 1);
        assert_eq!(kme.share_wrappers[0].threshold, 2);
        assert_eq!(kme.share_wrappers[0].share.index, (i + 1) as u8);
    }
}

/// Single-destination forwarding is lossless: the destination holds
/// bit-identical wrappers to what the sender held before forwarding.
#[test]
fn single_destination_forwarding_is_lossless() {
    let secret = b"forwarded intact";
    let mut kme1 = Kme::new(1);
    kme1.set_secret(secret);
    let mut d = vec![Kme::new(2), Kme::new(3)];
    kme1.spread_secrets(&mut d).unwrap();
    let kme3 = d.pop().unwrap();
    let mut kme2 = d.pop().unwrap();

    let held_before = kme2.share_wrappers.clone();
    let mut d2 = vec![Kme::new(4)];
    kme2.spread_secrets(&mut d2).unwrap();
    let mut kme4 = d2.pop().unwrap();
    assert_eq!(kme4.share_wrappers, held_before);
    assert!(kme2.share_wrappers.is_empty());

    // And the forwarded shares still work: kme3 contributes its sibling.
    let mut kme3 = kme3;
    let mut d3 = vec![Kme::new(5)];
    kme3.spread_secrets(&mut d3).unwrap();
    kme4.spread_secrets(&mut d3).unwrap();
    let kme5 = d3.pop().unwrap();
    assert!(check_retrieve_secret_ok(&kme5, secret));
}

/// Spreading twice with the secret set only the first time never deals the
/// secret a second time.
#[test]
fn spread_clears_secret_idempotently() {
    let secret = b"spread exactly once";
    let mut kme1 = Kme::new(1);
    kme1.set_secret(secret);
    let mut d = vec![Kme::new(2), Kme::new(3)];
    kme1.spread_secrets(&mut d).unwrap();
    assert!(kme1.secret.is_none());
    assert!(kme1.try_retrieve_secret().is_none());

    // A second spread from the drained origin delivers nothing at all.
    let mut d2 = vec![Kme::new(4), Kme::new(5)];
    kme1.spread_secrets(&mut d2).unwrap();
    for kme in d2.iter() {
        assert!(kme.share_wrappers.is_empty());
        assert!(kme.try_retrieve_secret().is_none());
    }
}

#[test]
fn spread_error_cases() {
    let mut kme1 = Kme::new(1);
    kme1.set_secret(b"x");
    let mut empty: Vec<Kme> = Vec::new();
    assert_eq!(
        kme1.spread_secrets(&mut empty),
        Err(SpreadError::NoDestinations)
    );

    let mut too_many: Vec<Kme> = (0..256).map(|i| Kme::new(i as i64)).collect();
    assert_eq!(
        kme1.spread_secrets(&mut too_many),
        Err(SpreadError::TooManyDestinations)
    );

    // An empty held secret is rejected by the splitting primitive.
    let mut kme2 = Kme::new(2);
    kme2.set_secret(b"");
    let mut d = vec![Kme::new(3)];
    assert_eq!(kme2.spread_secrets(&mut d), Err(SpreadError::SplitRefused));
    // Nothing was delivered or cleared by the aborted call.
    assert!(kme2.secret.is_some());
    assert!(d[0].share_wrappers.is_empty());
}

#[test]
fn receive_ignores_garbage() {
    let mut kme = Kme::new(1);
    kme.receive_qkd_encrypted_share_wrapper(&[1, 2, 3]);
    assert!(kme.share_wrappers.is_empty());
    assert!(kme.try_retrieve_secret().is_none());
}
