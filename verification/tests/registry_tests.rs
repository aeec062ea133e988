//! Registry: unique subdomains, exclusive takes, the reap window, and
//! the port-claim protocol.

use sshx::claim::{resolve_claim, ClaimError, PortClaim};
use sshx::registry::{PendingSlot, Registry};
use sshx::{CLAIM_ATTEMPTS, REAP_MS};

#[test]
fn subdomain_registered_once() {
    let mut reg = Registry::new();
    assert!(!reg.contains_sub(&b"demo".to_vec()));
    assert!(reg.insert_sub(&b"demo".to_vec(), 4000));
    assert!(reg.contains_sub(&b"demo".to_vec()));
    // a second registration of the same name is refused
    assert!(!reg.insert_sub(&b"demo".to_vec(), 4001));
    // another name is independent
    assert!(reg.insert_sub(&b"other".to_vec(), 4001));
    reg.remove_sub(&b"demo".to_vec());
    assert!(!reg.contains_sub(&b"demo".to_vec()));
    assert!(reg.contains_sub(&b"other".to_vec()));
}

#[test]
fn take_is_exclusive() {
    let mut reg = Registry::new();
    let id = 7u128;
    reg.insert_pending(id, PendingSlot { token: 42, deadline: 10_000 });
    let first = reg.take_pending(id);
    assert_eq!(first, Some(PendingSlot { token: 42, deadline: 10_000 }));
    // at most one take ever succeeds
    assert_eq!(reg.take_pending(id), None);
    assert_eq!(reg.take_pending(id), None);
}

#[test]
fn reap_window() {
    // accepted just before the deadline: the take still succeeds
    let mut reg = Registry::new();
    let id = 1u128;
    reg.insert_pending(id, PendingSlot { token: 1, deadline: REAP_MS });
    assert_eq!(reg.reap_pending(id, REAP_MS - 1), None);
    assert!(reg.take_pending(id).is_some());

    // the reaper ran just after the deadline: the entry is gone
    let mut reg = Registry::new();
    let id = 2u128;
    reg.insert_pending(id, PendingSlot { token: 2, deadline: REAP_MS });
    assert!(reg.reap_pending(id, REAP_MS + 1).is_some());
    assert_eq!(reg.take_pending(id), None);
}

#[test]
fn reap_after_take_is_noop() {
    let mut reg = Registry::new();
    let id = 3u128;
    reg.insert_pending(id, PendingSlot { token: 3, deadline: 100 });
    assert!(reg.take_pending(id).is_some());
    assert_eq!(reg.reap_pending(id, 1_000_000), None);
}

#[test]
fn claim_taken_subdomain_fails_with_message() {
    let mut reg = Registry::new();
    assert!(reg.insert_sub(&b"demo".to_vec(), 5000));
    let err = PortClaim::start(&reg, &b"demo".to_vec()).err().unwrap();
    assert_eq!(err, ClaimError::SubdomainTaken);
    assert_eq!(err.message(&b"demo".to_vec()), b"subdomain 'demo' is already taken".to_vec());
}

#[test]
fn hundred_fifty_bind_failures_exhaust_the_claim() {
    let reg = Registry::new();
    let mut claim = PortClaim::start(&reg, &b"demo".to_vec()).ok().unwrap();
    let mut outcome = None;
    for _ in 0..CLAIM_ATTEMPTS {
        assert!(outcome.is_none());
        outcome = claim.bind_failed();
    }
    let err = outcome.expect("150th failure must exhaust the claim");
    assert_eq!(err, ClaimError::NoFreePorts);
    assert_eq!(err.message(&b"demo".to_vec()), b"no free ports available".to_vec());
}

#[test]
fn claim_commit_race_has_one_winner() {
    let mut reg = Registry::new();
    // both claims pass the membership check before either binds
    let c1 = PortClaim::start(&reg, &b"demo".to_vec()).ok().unwrap();
    let c2 = PortClaim::start(&reg, &b"demo".to_vec()).ok().unwrap();
    assert_eq!(c1.commit(&mut reg, 6001), Ok(6001));
    assert_eq!(c2.commit(&mut reg, 6002), Err(ClaimError::SubdomainTaken));
    assert!(reg.contains_sub(&b"demo".to_vec()));
}

#[test]
fn candidate_ports_stay_in_range() {
    let reg = Registry::new();
    let claim = PortClaim::start(&reg, &b"demo".to_vec()).ok().unwrap();
    for _ in 0..100 {
        let p = claim.next_candidate(2000, 65000);
        assert!((2000..=65000).contains(&p));
    }
    assert_eq!(claim.next_candidate(4242, 4242), 4242);
}

#[test]
fn resolve_claim_all_failures_exhausts_the_pool() {
    let mut reg = Registry::new();
    let binds: Vec<Option<u16>> = vec![None; CLAIM_ATTEMPTS as usize];
    assert_eq!(resolve_claim(&mut reg, &b"demo".to_vec(), &binds), Err(ClaimError::NoFreePorts));
    assert!(!reg.contains_sub(&b"demo".to_vec()));
}

#[test]
fn resolve_claim_first_success_wins() {
    let mut reg = Registry::new();
    let mut binds: Vec<Option<u16>> = vec![None; CLAIM_ATTEMPTS as usize];
    binds[3] = Some(4100);
    binds[7] = Some(4200); // later successes are never reached
    assert_eq!(resolve_claim(&mut reg, &b"demo".to_vec(), &binds), Ok(4100));
    assert!(reg.contains_sub(&b"demo".to_vec()));
}

#[test]
fn resolve_claim_refuses_taken_subdomain() {
    let mut reg = Registry::new();
    assert!(reg.insert_sub(&b"demo".to_vec(), 5000));
    let binds: Vec<Option<u16>> = vec![Some(4100); CLAIM_ATTEMPTS as usize];
    assert_eq!(
        resolve_claim(&mut reg, &b"demo".to_vec(), &binds),
        Err(ClaimError::SubdomainTaken)
    );
}
