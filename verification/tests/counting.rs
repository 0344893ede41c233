use pfr::counting::{
    is_active, record_batch_inv, record_fft, record_field_inv, record_g2_scalarmul, record_ifft,
    record_msm_g1, record_pairing, reset, take,
};
use pfr::{commit_statement, prove, OpCounts, PfrPublicKey};

#[test]
fn counting_inactive_by_default_records_nothing() {
    let mut counter: Option<OpCounts> = None;
    assert!(!is_active(&counter));
    record_fft(&mut counter, 8);
    record_pairing(&mut counter);
    assert!(take(&mut counter).is_none());
}

#[test]
fn counting_reset_then_take_gives_empty_counts() {
    let mut counter: Option<OpCounts> = None;
    reset(&mut counter);
    assert!(is_active(&counter));
    let counts = take(&mut counter).unwrap();
    assert!(!is_active(&counter));
    assert!(counts.ffts.is_empty());
    assert!(counts.iffts.is_empty());
    assert!(counts.msm_g1.is_empty());
    assert!(counts.batch_inv.is_empty());
    assert_eq!(counts.pairings, 0);
    assert_eq!(counts.g2_scalarmul, 0);
    assert_eq!(counts.field_inv, 0);
    assert_eq!(counts.total_ffts(), 0);
    assert_eq!(counts.total_msm_g1(), 0);
}

#[test]
fn counting_same_sizes_merge_in_order() {
    let mut counter: Option<OpCounts> = None;
    reset(&mut counter);
    record_fft(&mut counter, 8);
    record_fft(&mut counter, 8);
    record_fft(&mut counter, 4);
    record_fft(&mut counter, 8);
    record_ifft(&mut counter, 4);
    record_msm_g1(&mut counter, 6);
    record_msm_g1(&mut counter, 6);
    record_batch_inv(&mut counter, 20);
    record_field_inv(&mut counter);
    record_field_inv(&mut counter);
    record_pairing(&mut counter);
    record_g2_scalarmul(&mut counter);
    let counts = take(&mut counter).unwrap();
    assert_eq!(counts.ffts, vec![(8, 2), (4, 1), (8, 1)]);
    assert_eq!(counts.iffts, vec![(4, 1)]);
    assert_eq!(counts.msm_g1, vec![(6, 2)]);
    assert_eq!(counts.batch_inv, vec![(20, 1)]);
    assert_eq!(counts.field_inv, 2);
    assert_eq!(counts.pairings, 1);
    assert_eq!(counts.g2_scalarmul, 1);
    assert_eq!(counts.total_ffts(), 5);
    assert_eq!(counts.total_msm_g1(), 2);
}

#[test]
fn counting_statement_commitment_costs() {
    let pk = PfrPublicKey::setup(4, 4, 1, &mut ark_std::test_rng());
    let mut counter: Option<OpCounts> = None;
    reset(&mut counter);
    let _stmt = commit_statement(&pk, &[0, 1, 2, 0], &[1, 2, 3, 3], &mut ark_std::test_rng(), &mut counter);
    let counts = take(&mut counter).unwrap();
    assert_eq!(counts.iffts, vec![(4, 3)]);
    assert_eq!(counts.msm_g1, vec![(4, 3)]);
    assert!(counts.ffts.is_empty());
    assert_eq!(counts.total_ffts(), 3);
    assert_eq!(counts.total_msm_g1(), 3);
}

#[test]
fn counting_prover_costs_n4_m4() {
    let rng = &mut ark_std::test_rng();
    let pk = PfrPublicKey::setup(4, 4, 1, rng);
    let stmt = commit_statement(&pk, &[0, 1, 2, 0], &[1, 2, 3, 3], rng, &mut None);
    let mut counter: Option<OpCounts> = None;
    reset(&mut counter);
    let _ = prove(&pk, &[0, 1, 2, 0], &[1, 2, 3, 3], &stmt, rng, &mut counter);
    let counts = take(&mut counter).unwrap();
    // 8 coset FFTs in round 1, 5 in round 2, 3 in round 3, all of size 2m = 8.
    assert_eq!(counts.ffts, vec![(8, 16)]);
    // 4 + 5 inverse FFTs over K (= H here), one coset IFFT of size 8.
    assert_eq!(counts.iffts, vec![(4, 9), (8, 1)]);
    // 5 + 5 + 1 commitments of degree m + 1, then q (2m + 4) and Q (2m + 3).
    assert_eq!(counts.msm_g1, vec![(6, 11), (12, 1), (11, 1)]);
    assert_eq!(counts.batch_inv, vec![(4, 1), (20, 1)]);
    assert_eq!(counts.field_inv, 8);
    assert_eq!(counts.pairings, 0);
    assert_eq!(counts.total_ffts(), 26);
    assert_eq!(counts.total_msm_g1(), 13);
}

#[test]
fn counting_verifier_costs() {
    let rng = &mut ark_std::test_rng();
    let pk = PfrPublicKey::setup(4, 4, 1, rng);
    let row = [0, 1, 2, 0];
    let col = [1, 2, 3, 3];
    let stmt = commit_statement(&pk, &row, &col, rng, &mut None);
    let (proof, pi) = prove(&pk, &row, &col, &stmt, rng, &mut None);
    let mut counter: Option<OpCounts> = None;
    reset(&mut counter);
    assert!(pfr::verify(&pk, &proof, &pi.row_comm, &pi.col_comm, &pi.rowcol_comm, &mut counter));
    let counts = take(&mut counter).unwrap();
    assert_eq!(counts.msm_g1, vec![(34, 1)]);
    assert_eq!(counts.pairings, 2);
    assert_eq!(counts.g2_scalarmul, 1);
    assert!(counts.ffts.is_empty() && counts.iffts.is_empty() && counts.batch_inv.is_empty());
}

#[test]
fn counting_checked_total_overflow() {
    assert_eq!(pfr::counting::checked_total(&vec![(4, 2), (8, 3)]), Some(5));
    assert_eq!(pfr::counting::checked_total(&vec![(4, usize::MAX), (8, 1)]), None);
}

#[test]
fn counting_active_exactly_after_an_untaken_reset() {
    let mut counter: Option<OpCounts> = None;
    record_fft(&mut counter, 4);
    assert!(!is_active(&counter));
    reset(&mut counter);
    record_pairing(&mut counter);
    assert!(is_active(&counter));
    take(&mut counter);
    record_fft(&mut counter, 4);
    assert!(!is_active(&counter));
    reset(&mut counter);
    take(&mut counter);
    reset(&mut counter);
    assert!(is_active(&counter));
}
