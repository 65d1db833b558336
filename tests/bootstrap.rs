use gossip_core::bootstrap::{Bootstrap, BootstrapState, EntrypointStatus};
use gossip_core::record::SocketAddress;

fn addr() -> SocketAddress {
    SocketAddress { ip: 0x2233_4455, port: 8001 }
}

#[test]
fn only_second_entrypoint_resolves_and_converges() {
    let mut b = Bootstrap::new(3, 5);
    assert_eq!(b.state(), BootstrapState::Unseeded);
    b.begin();
    assert_eq!(b.state(), BootstrapState::Resolving);
    b.on_resolution_failed(0);
    assert_eq!(b.state(), BootstrapState::Resolving);
    assert!(b.on_resolved(1, addr()));
    assert_eq!(b.state(), BootstrapState::Seeded);
    b.on_resolution_failed(2);
    assert_eq!(b.next_to_contact(), Some(1));
    assert!(b.on_response(1));
    b.on_record_learned();
    assert_eq!(b.state(), BootstrapState::Converged);
    assert_eq!(b.entrypoint(0), EntrypointStatus::Unresolvable);
    assert_eq!(b.entrypoint(1), EntrypointStatus::Responded { addr: addr() });
    assert_eq!(b.entrypoint(2), EntrypointStatus::Unresolvable);
    assert!(!b.on_response(0));
    assert!(!b.on_response(2));
    assert_eq!(b.next_to_contact(), None);
}

#[test]
fn no_resolvable_entrypoint_fails() {
    let mut b = Bootstrap::new(2, 5);
    b.begin();
    b.on_resolution_failed(0);
    assert_eq!(b.state(), BootstrapState::Resolving);
    b.on_resolution_failed(1);
    assert_eq!(b.state(), BootstrapState::Failed);
    assert!(!b.on_resolved(0, addr()));
}

#[test]
fn no_entrypoints_fails_at_start() {
    let mut b = Bootstrap::new(0, 5);
    b.begin();
    assert_eq!(b.state(), BootstrapState::Failed);
}

#[test]
fn retry_budget_exhaustion_fails() {
    let mut b = Bootstrap::new(1, 3);
    b.begin();
    assert!(b.on_resolved(0, addr()));
    b.on_round_end(false);
    b.on_round_end(false);
    b.on_round_end(true);
    b.on_round_end(false);
    b.on_round_end(false);
    assert_eq!(b.state(), BootstrapState::Seeded);
    b.on_round_end(false);
    assert_eq!(b.state(), BootstrapState::Failed);
    b.on_record_learned();
    assert_eq!(b.state(), BootstrapState::Failed);
}

#[test]
fn second_resolution_is_not_reseeded() {
    let mut b = Bootstrap::new(1, 3);
    b.begin();
    assert!(b.on_resolved(0, addr()));
    assert!(!b.on_resolved(0, addr()));
    assert_eq!(b.entrypoint_count(), 1);
}
