use ic_kit::call::{CallError, CallReply, CanisterId, EntryPoint, RejectionCode, RequestId};

#[test]
fn rejection_code_from_numbers() {
    assert_eq!(RejectionCode::from(0i32), RejectionCode::NoError);
    assert_eq!(RejectionCode::from(4i32), RejectionCode::CanisterReject);
    assert_eq!(RejectionCode::from(9i32), RejectionCode::Unknown);
    assert_eq!(RejectionCode::from(-1i32), RejectionCode::Unknown);
    assert_eq!(RejectionCode::from(5u32), RejectionCode::CanisterError);
    assert_eq!(RejectionCode::from(u32::MAX), RejectionCode::Unknown);
    assert_eq!(RejectionCode::SysFatal.code(), 1);
}

#[test]
fn call_reply_accessors() {
    let ok = CallReply::Reply { data: vec![1, 2], cycles_refunded: 5 };
    assert!(ok.is_ok());
    assert!(!ok.is_error());
    assert_eq!(ok.bytes(), Ok(&[1u8, 2][..]));
    assert_eq!(ok.rejection_code(), RejectionCode::NoError);
    assert_eq!(ok.rejection_message(), None);
    assert_eq!(ok.cycles_refunded(), 5);
    ok.assert_ok();

    let err = CallReply::Reject {
        rejection_code: RejectionCode::CanisterError,
        rejection_message: "boom".into(),
        cycles_refunded: 7,
    };
    assert!(err.is_error());
    assert_eq!(err.bytes(), Err(CallError::Rejected(RejectionCode::CanisterError, "boom".into())));
    assert_eq!(err.rejection_code(), RejectionCode::CanisterError);
    assert_eq!(err.rejection_message(), Some("boom"));
    assert_eq!(err.cycles_refunded(), 7);
    err.assert_error();
}

#[test]
fn call_error_messages() {
    assert_eq!(CallError::CouldNotSend.to_string(), "Could not send message");
    assert_eq!(
        CallError::Rejected(RejectionCode::SysTransient, "busy".into()).to_string(),
        "Call rejected (code=SysTransient): 'busy'"
    );
    assert_eq!(CallError::ResponseDeserializationError(vec![1]).to_string(), "Could not deserialize the response.");
}

#[test]
fn request_ids_count_up() {
    let mut counter = 0u64;
    let a = RequestId::new(&mut counter);
    let b = RequestId::new(&mut counter);
    assert_eq!(a.value(), 0);
    assert_eq!(b.value(), 1);
    assert_eq!(counter, 2);
    assert!(a < b);
}

#[test]
fn canister_id_principal() {
    assert_eq!(CanisterId(5).principal_bytes(), vec![0, 0, 0, 0, 0, 0, 0, 5, 1]);
}

#[test]
fn entry_points() {
    assert!(EntryPoint::Init.is_lifecycle());
    assert!(!EntryPoint::Update.is_lifecycle());
    assert!(!EntryPoint::Query.is_lifecycle());
    assert!(EntryPoint::InspectMessage.is_inspect_message());
    assert!(!EntryPoint::Heartbeat.is_inspect_message());
    assert_eq!(EntryPoint::PreUpgrade.name(), "pre_upgrade");
}
