use faucet::ops::FaucetError;
use faucet::state::FaucetState;
use faucet::state::Identity;

fn ident(n: u8) -> Identity {
    Identity::new(vec![n])
}

fn pairs_match(got: &[(Identity, u64)], want: &[(u8, u64)]) -> bool {
    got.len() == want.len()
        && got.iter().zip(want.iter()).all(|(g, w)| g.0.bytes == vec![w.0] && g.1 == w.1)
}

fn states_agree(a: &FaucetState, b: &FaucetState) -> bool {
    a.admins.len() == b.admins.len()
        && a.admins.iter().zip(b.admins.iter()).all(|(x, y)| x.bytes == y.bytes)
        && a.enabled == b.enabled
        && a.code == b.code
        && a.amount == b.amount
        && a.claimed.len() == b.claimed.len()
        && a.claimed.iter().zip(b.claimed.iter()).all(|(x, y)| x.bytes == y.bytes)
        && a.recent.len() == b.recent.len()
        && a.recent.iter().zip(b.recent.iter()).all(|(x, y)| x.0.bytes == y.0.bytes && x.1 == y.1)
        && a.total.len() == b.total.len()
        && a.total.iter().zip(b.total.iter()).all(|(x, y)| x.0.bytes == y.0.bytes && x.1 == y.1)
}

fn enabled_faucet(admin: &Identity, code: &[u8], amount: u64) -> FaucetState {
    let mut s = FaucetState::init(admin.clone());
    s.set_claim_code(admin, code.to_vec()).unwrap();
    s.set_claim_amount(admin, amount).unwrap();
    s.toggle_faucet(admin, true).unwrap();
    s
}

#[test]
fn init_seeds_one_admin_and_disables_faucet() {
    let a = ident(1);
    let s = FaucetState::init(a.clone());
    assert_eq!(s.admins.len(), 1);
    assert_eq!(s.admins[0].bytes, vec![1]);
    assert!(!s.enabled);
    assert_eq!(s.code, Vec::<u8>::new());
    assert_eq!(s.amount, 0);
    assert!(s.claimed.is_empty());
    assert!(s.get_recent_claims().is_empty());
    assert!(s.get_total_claims().is_empty());
    assert!(s.is_well_formed());
}

#[test]
fn scenario_admin_configures_and_user_claims_once() {
    let a = ident(1);
    let u1 = ident(2);
    let mut s = enabled_faucet(&a, b"ABC123", 5);
    assert_eq!(s.claim(&u1, &b"ABC123".to_vec()), Ok(()));
    let rec = s.get_recent_claims();
    assert!(pairs_match(&rec, &[(2, 5)]));
    assert_eq!(s.claim(&u1, &b"ABC123".to_vec()), Err(FaucetError::AlreadyClaimed));
    assert_eq!(s.toggle_faucet(&u1, false), Err(FaucetError::Unauthorized));
    assert!(s.enabled);
}

#[test]
fn claim_requires_enabled_faucet() {
    let a = ident(1);
    let u = ident(2);
    let mut s = FaucetState::init(a.clone());
    s.set_claim_code(&a, b"code".to_vec()).unwrap();
    assert_eq!(s.claim(&u, &b"code".to_vec()), Err(FaucetError::FaucetDisabled));
    assert_eq!(s.claim(&u, &b"wrong".to_vec()), Err(FaucetError::FaucetDisabled));
    assert!(s.get_total_claims().is_empty());
}

#[test]
fn claim_requires_exact_code() {
    let a = ident(1);
    let u = ident(2);
    let mut s = enabled_faucet(&a, b"Secret", 3);
    assert_eq!(s.claim(&u, &b"secret".to_vec()), Err(FaucetError::InvalidCode));
    assert_eq!(s.claim(&u, &b"Secret ".to_vec()), Err(FaucetError::InvalidCode));
    assert_eq!(s.claim(&u, &Vec::new()), Err(FaucetError::InvalidCode));
    assert!(s.get_total_claims().is_empty());
    assert_eq!(s.claim(&u, &b"Secret".to_vec()), Ok(()));
}

#[test]
fn empty_code_is_a_valid_code() {
    let a = ident(1);
    let u = ident(2);
    let mut s = FaucetState::init(a.clone());
    s.toggle_faucet(&a, true).unwrap();
    assert_eq!(s.claim(&u, &Vec::new()), Ok(()));
}

#[test]
fn claimed_identity_is_recorded_once() {
    let a = ident(1);
    let u = ident(2);
    let mut s = enabled_faucet(&a, b"c", 1);
    assert_eq!(s.claim(&u, &b"c".to_vec()), Ok(()));
    assert_eq!(s.claim(&u, &b"c".to_vec()), Err(FaucetError::AlreadyClaimed));
    assert_eq!(s.claimed.iter().filter(|x| x.bytes == vec![2]).count(), 1);
    assert!(pairs_match(&s.get_total_claims(), &[(2, 1)]));
}

#[test]
fn recent_claims_keep_only_the_newest_ten() {
    let a = ident(0);
    let mut s = enabled_faucet(&a, b"k", 7);
    for n in 1..=12u8 {
        assert_eq!(s.claim(&ident(n), &b"k".to_vec()), Ok(()));
    }
    let rec = s.get_recent_claims();
    let want: Vec<(u8, u64)> = (3..=12u8).map(|n| (n, 7)).collect();
    assert!(pairs_match(&rec, &want));
    let tot = s.get_total_claims();
    let want_all: Vec<(u8, u64)> = (1..=12u8).map(|n| (n, 7)).collect();
    assert!(pairs_match(&tot, &want_all));
    assert!(s.is_well_formed());
}

#[test]
fn amount_is_recorded_at_claim_time() {
    let a = ident(1);
    let mut s = enabled_faucet(&a, b"k", 5);
    assert_eq!(s.claim(&ident(2), &b"k".to_vec()), Ok(()));
    s.set_claim_amount(&a, 11).unwrap();
    assert_eq!(s.claim(&ident(3), &b"k".to_vec()), Ok(()));
    assert!(pairs_match(&s.get_total_claims(), &[(2, 5), (3, 11)]));
}

#[test]
fn reset_lets_an_identity_claim_again_and_keeps_history() {
    let a = ident(1);
    let u = ident(2);
    let mut s = enabled_faucet(&a, b"k", 4);
    assert_eq!(s.claim(&u, &b"k".to_vec()), Ok(()));
    assert_eq!(s.reset_claimed_identities(&a), Ok(()));
    assert!(s.claimed.is_empty());
    assert_eq!(s.claim(&u, &b"k".to_vec()), Ok(()));
    assert!(pairs_match(&s.get_total_claims(), &[(2, 4), (2, 4)]));
    assert!(pairs_match(&s.get_recent_claims(), &[(2, 4), (2, 4)]));
}

#[test]
fn non_admin_operations_fail_and_change_nothing() {
    let a = ident(1);
    let y = ident(9);
    let mut s = enabled_faucet(&a, b"k", 2);
    assert_eq!(s.claim(&ident(2), &b"k".to_vec()), Ok(()));
    let snapshot = s.suspend();
    assert_eq!(s.add_admin(&y, ident(9)), Err(FaucetError::Unauthorized));
    assert_eq!(s.remove_admin(&y, &a), Err(FaucetError::Unauthorized));
    assert_eq!(s.toggle_faucet(&y, false), Err(FaucetError::Unauthorized));
    assert_eq!(s.set_claim_code(&y, b"mine".to_vec()), Err(FaucetError::Unauthorized));
    assert_eq!(s.set_claim_amount(&y, 999), Err(FaucetError::Unauthorized));
    assert_eq!(s.reset_claimed_identities(&y), Err(FaucetError::Unauthorized));
    assert_eq!(s.suspend(), snapshot);
}

#[test]
fn added_admin_gains_authority() {
    let a = ident(1);
    let b = ident(2);
    let mut s = FaucetState::init(a.clone());
    assert!(!s.is_authorized(&b));
    assert_eq!(s.add_admin(&a, b.clone()), Ok(()));
    assert!(s.is_authorized(&b));
    assert_eq!(s.toggle_faucet(&b, true), Ok(()));
    assert!(s.enabled);
}

#[test]
fn adding_an_admin_twice_keeps_one_entry() {
    let a = ident(1);
    let b = ident(2);
    let mut s = FaucetState::init(a.clone());
    assert_eq!(s.add_admin(&a, b.clone()), Ok(()));
    assert_eq!(s.add_admin(&a, b.clone()), Ok(()));
    assert_eq!(s.admins.len(), 2);
}

#[test]
fn removed_admin_loses_authority() {
    let a = ident(1);
    let b = ident(2);
    let mut s = FaucetState::init(a.clone());
    assert_eq!(s.add_admin(&a, b.clone()), Ok(()));
    assert_eq!(s.remove_admin(&a, &b), Ok(()));
    assert_eq!(s.admins.len(), 1);
    assert_eq!(s.toggle_faucet(&b, true), Err(FaucetError::Unauthorized));
}

#[test]
fn removing_the_last_admin_is_rejected() {
    let a = ident(1);
    let mut s = FaucetState::init(a.clone());
    assert_eq!(s.remove_admin(&a, &a), Err(FaucetError::LastAdmin));
    assert_eq!(s.admins.len(), 1);
    assert!(s.is_authorized(&a));
}

#[test]
fn removing_a_non_member_is_a_no_op() {
    let a = ident(1);
    let mut s = FaucetState::init(a.clone());
    assert_eq!(s.remove_admin(&a, &ident(5)), Ok(()));
    assert_eq!(s.admins.len(), 1);
}

#[test]
fn snapshot_round_trip_preserves_every_field() {
    let a = ident(1);
    let mut s = enabled_faucet(&a, b"C0DE", 42);
    s.add_admin(&a, ident(7)).unwrap();
    for n in 10..=22u8 {
        assert_eq!(s.claim(&ident(n), &b"C0DE".to_vec()), Ok(()));
    }
    s.toggle_faucet(&a, false).unwrap();
    let snap = s.suspend();
    let r = FaucetState::resume(&snap).unwrap();
    assert!(states_agree(&s, &r));
    assert!(r.is_well_formed());
}

#[test]
fn round_trip_of_a_fresh_state() {
    let s = FaucetState::init(ident(3));
    let r = FaucetState::resume(&s.suspend()).unwrap();
    assert!(states_agree(&s, &r));
}

#[test]
fn resume_rejects_bytes_no_suspend_produced() {
    assert!(FaucetState::resume(&Vec::new()).is_none());
    assert!(FaucetState::resume(&vec![1, 2, 3]).is_none());
    let s = FaucetState::init(ident(1));
    let mut snap = s.suspend();
    snap.pop();
    assert!(FaucetState::resume(&snap).is_none());
    let mut snap2 = s.suspend();
    snap2.push(0);
    assert!(FaucetState::resume(&snap2).is_none());
}

#[test]
fn identities_compare_by_bytes() {
    let a = Identity::new(vec![1, 2, 3]);
    let b = a.clone();
    assert_eq!(a.bytes, b.bytes);
    let mut s = enabled_faucet(&Identity::new(vec![9]), b"k", 1);
    assert_eq!(s.claim(&a, &b"k".to_vec()), Ok(()));
    assert_eq!(s.claim(&b, &b"k".to_vec()), Err(FaucetError::AlreadyClaimed));
    assert_eq!(s.claim(&Identity::new(vec![1, 2]), &b"k".to_vec()), Ok(()));
}
