use ic_kit::call::{CallReply, RejectionCode, RequestId};
use ic_kit::canister::{Env, Message};
use ic_kit::replica::{canister_principal, ReplicaState};

#[test]
fn canister_principals_are_numbered() {
    assert_eq!(canister_principal(0), vec![0, 0, 0, 0, 0, 0, 0, 0, 1, 1]);
    assert_eq!(canister_principal(258), vec![0, 0, 0, 0, 0, 0, 1, 2, 1, 1]);
}

#[test]
fn created_canisters_skip_installed_ones() {
    let mut r = ReplicaState::new();
    let a = r.create_canister();
    assert_eq!(a, canister_principal(0));
    r.install_code(a.clone());
    let b = r.create_canister();
    assert_eq!(b, canister_principal(1));
    r.install_code(canister_principal(2));
    // Two principals were created, and the canister numbered 2 is installed.
    assert_eq!(r.create_canister(), canister_principal(3));
}

#[test]
fn request_to_unknown_canister_is_rejected() {
    let mut r = ReplicaState::new();
    let mut counter = 0u64;
    r.install_code(canister_principal(0));
    let env = Env::update("m".to_string(), 0).with_cycles_available(5).with_cycles_refunded(3);
    let message = Message::Request { request_id: RequestId::new(&mut counter), env };
    assert!(r.canister_request(&canister_principal(0), &message).is_none());
    match r.canister_request(&canister_principal(0x0100), &message) {
        Some(CallReply::Reject { rejection_code, rejection_message, cycles_refunded }) => {
            assert_eq!(rejection_code, RejectionCode::DestinationInvalid);
            let text = ic_types::Principal::from_slice(&canister_principal(0x0100)).to_text();
            assert_eq!(rejection_message, format!("Canister '{}' does not exists", text));
            assert_eq!(cycles_refunded, 3);
        }
        _ => panic!("no canister is installed there"),
    }
    match r.canister_request(&canister_principal(0), &message) {
        None => {}
        Some(_) => panic!("the canister is installed"),
    }
}

#[test]
fn principal_text_of_the_first_canister() {
    let r = ReplicaState::new();
    let env = Env::new(0);
    let message = Message::CustomTask { request_id: RequestId::new(&mut 0), env };
    match r.canister_request(&canister_principal(0), &message) {
        Some(CallReply::Reject { rejection_message, cycles_refunded, .. }) => {
            assert_eq!(rejection_message, "Canister 'rwlgt-iiaaa-aaaaa-aaaaa-cai' does not exists");
            assert_eq!(cycles_refunded, 0);
        }
        _ => panic!("no canister is installed"),
    }
}
