use ic_kit::call::{CallReply, CanisterReply, EntryMode, RejectionCode, RequestId};
use ic_kit::canister::{CallBuilder, Canister, Env, Message, Start, Task};

fn canister() -> Canister {
    Canister::new(vec![7, 1], 0).with_method("canister_update hello".to_string())
}

#[test]
fn env_entry_point_names() {
    assert_eq!(Env::update("hello".to_string(), 5).get_entry_point_name(), "canister_update hello");
    assert_eq!(Env::query("q".to_string(), 5).get_entry_point_name(), "canister_query q");
    assert_eq!(Env::query("q".to_string(), 5).get_possible_entry_point_name(), "canister_update q");
    assert_eq!(Env::init(0).get_entry_point_name(), "canister_init");
    assert_eq!(Env::new(0).get_entry_point_name(), "ic-kit: custom");
    assert_eq!(
        Env::new(0).with_entry_mode(EntryMode::Update).get_entry_point_name(),
        "canister_update "
    );
    let e = Env::new(3);
    assert_eq!(e.args, vec![68, 73, 68, 76, 0, 0]);
    assert_eq!(e.sender, vec![4]);
    assert_eq!(e.time, 3);
}

#[test]
fn request_reply_and_refund() {
    let mut counter = 0u64;
    let mut c = canister();
    let id = RequestId::new(&mut counter);
    let env = Env::update("hello".to_string(), 0).with_cycles_available(100);
    match c.begin_message(Message::Request { request_id: id, env }, true) {
        Start::Run(Task::Method(name)) => assert_eq!(name, "canister_update hello"),
        _ => panic!("the method is exported"),
    }
    assert_eq!(c.msg_cycles_available(), Ok(100));
    assert_eq!(c.msg_cycles_accept(30), Ok(30));
    assert_eq!(c.msg_cycles_available128(), Ok(70));
    assert_eq!(c.canister_cycle_balance128(), 100_000_000_000_030);
    assert_eq!(c.msg_reply_data_append(b"hi"), Ok(()));
    assert_eq!(c.msg_reply(), Ok(()));
    assert_eq!(c.msg_reply(), Err("Current call is already replied to.".to_string()));
    let (answers, calls) = c.finish_message(None, &mut counter);
    assert!(calls.is_empty());
    assert_eq!(answers.len(), 1);
    assert_eq!(answers[0].0, id.value());
    match &answers[0].1 {
        CanisterReply::Reply { data, cycles_refunded } => {
            assert_eq!(data, &b"hi".to_vec());
            assert_eq!(*cycles_refunded, 70);
        }
        _ => panic!("the call was replied to"),
    }
}

#[test]
fn unknown_method_is_rejected_at_once() {
    let mut counter = 0u64;
    let mut c = canister();
    let env = Env::update("nope".to_string(), 0).with_cycles_available(9);
    match c.begin_message(Message::Request { request_id: RequestId::new(&mut counter), env }, true) {
        Start::Answer(CanisterReply::Reject { rejection_code, rejection_message, cycles_refunded }) => {
            assert_eq!(rejection_code, RejectionCode::DestinationInvalid);
            assert_eq!(rejection_message, "Canister does not have a 'nope' method.");
            assert_eq!(cycles_refunded, 9);
        }
        _ => panic!("the method is not exported"),
    }
}

#[test]
fn system_api_refused_outside_its_entry_points() {
    let mut counter = 0u64;
    let mut c = Canister::new(vec![1], 0).with_method("canister_init".to_string());
    let start = c.begin_message(Message::Request { request_id: RequestId::new(&mut counter), env: Env::init(0) }, true);
    assert!(matches!(start, Start::Run(Task::Method(_))));
    assert_eq!(c.msg_reply(), Err("msg_reply can not be called from 'canister_init'".to_string()));
    assert_eq!(
        c.msg_cycles_accept(1),
        Err("msg_cycles_accept can not be called from 'canister_init'".to_string())
    );
    assert_eq!(c.msg_arg_data_size(), Ok(6));
    assert_eq!(c.msg_arg_data_copy(0, 4), Ok(b"DIDL".to_vec()));
    assert_eq!(c.msg_arg_data_copy(4, 3), Err("Out of bound read.".to_string()));
    assert_eq!(c.msg_caller_copy(0, 1), Ok(vec![4]));
    // An init method that does not reply gets the last answer from the replica.
    let (answers, _) = c.finish_message(None, &mut counter);
    assert_eq!(answers.len(), 1);
    match &answers[0].1 {
        CanisterReply::Reject { rejection_code, rejection_message, .. } => {
            assert_eq!(*rejection_code, RejectionCode::CanisterError);
            assert_eq!(rejection_message, "Canister did not reply to the call");
        }
        _ => panic!("nothing replied"),
    }
}

#[test]
fn trap_returns_accepted_cycles() {
    let mut counter = 0u64;
    let mut c = canister();
    let env = Env::new(0).with_cycles_available(100);
    let start = c.begin_message(Message::CustomTask { request_id: RequestId::new(&mut counter), env }, true);
    assert!(matches!(start, Start::Run(Task::Custom)));
    assert_eq!(c.msg_cycles_accept(40), Ok(40));
    assert_eq!(c.call_new(vec![9], "ping".to_string(), 1, 2, 3, 4), Ok(()));
    assert_eq!(c.call_perform(), Ok(0));
    let (answers, calls) = c.finish_message(Some("boom".to_string()), &mut counter);
    // The trap drops the queued call and gives its cycles back.
    assert_eq!(c.canister_cycle_balance128(), 100_000_000_000_000);
    assert!(calls.is_empty());
    match &answers[0].1 {
        CanisterReply::Reject { rejection_code, rejection_message, cycles_refunded } => {
            assert_eq!(*rejection_code, RejectionCode::CanisterError);
            assert_eq!(rejection_message, "boom");
            assert_eq!(*cycles_refunded, 100);
        }
        _ => panic!("the message trapped"),
    }
}

#[test]
fn calls_are_made_and_their_replies_run_the_callbacks() {
    let mut counter = 10u64;
    let mut c = canister().with_balance(1000);
    let env = Env::update("hello".to_string(), 0);
    let request = RequestId::new(&mut counter);
    c.begin_message(Message::Request { request_id: request, env }, true);
    assert_eq!(c.call_perform(), Err("call_cycles_add128 cannot be called when there is no pending call.".to_string()));
    assert_eq!(c.call_new(vec![9], "ping".to_string(), 1, 2, 3, 4), Ok(()));
    assert_eq!(c.call_cycles_add(50), Ok(()));
    assert_eq!(c.call_cycles_add(5000), Err("Insufficient cycles balance.".to_string()));
    assert_eq!(c.call_data_append(b"arg"), Ok(()));
    assert_eq!(c.call_on_cleanup(5, 6), Ok(()));
    assert_eq!(c.call_on_cleanup(5, 6), Err("call_on_cleanup cannot be invoked more than once.".to_string()));
    assert_eq!(c.call_perform(), Ok(0));
    assert_eq!(c.canister_cycle_balance(), Ok(1000 - 12 - 50));
    let (answers, calls) = c.finish_message(None, &mut counter);
    // The request waits for the call: no answer yet.
    assert!(answers.is_empty());
    assert_eq!(calls.len(), 1);
    assert_eq!(calls[0].request_id.value(), 11);
    assert_eq!(calls[0].sender, vec![7, 1]);
    assert_eq!(calls[0].callee, vec![9]);
    assert_eq!(calls[0].method, "ping");
    assert_eq!(calls[0].payment, 50);
    assert_eq!(calls[0].arg, b"arg".to_vec());
    assert_eq!(counter, 12);

    let reply_env = Env::new(0).with_entry_mode(EntryMode::ReplyCallback).with_cycles_refunded(20);
    let start = c.begin_message(Message::Reply { reply_to: calls[0].request_id, env: reply_env }, false);
    assert!(matches!(start, Start::Run(Task::Callback(1, 2))));
    assert_eq!(c.msg_cycles_refunded(), Ok(20));
    assert_eq!(c.msg_reply(), Ok(()));
    let (answers, _) = c.finish_message(None, &mut counter);
    assert_eq!(answers.len(), 1);
    assert_eq!(answers[0].0, request.value());
}

#[test]
fn cycles_accept128_takes_high_and_low_halves() {
    let mut counter = 0u64;
    let mut c = canister();
    let env = Env::new(0).with_cycles_available(u128::MAX);
    c.begin_message(Message::CustomTask { request_id: RequestId::new(&mut counter), env }, true);
    assert_eq!(c.msg_cycles_accept128(1, 2), Ok((1u128 << 64) + 2));
    assert_eq!(c.msg_cycles_available(), Err("available cycles does not fit in u64".to_string()));
    assert_eq!(c.trap(&"x".to_string()), Err("Canister trapped: 'x'".to_string()));
}

#[test]
fn call_builder_makes_the_request() {
    let mut counter = 4u64;
    let b = CallBuilder::new(vec![9], "ping".to_string()).with_payment(7).with_caller(vec![2, 2]);
    let call = b.to_call(&mut counter);
    assert_eq!(counter, 5);
    assert_eq!(call.request_id.value(), 4);
    assert_eq!(call.callee, vec![9]);
    assert_eq!(call.sender, vec![2, 2]);
    assert_eq!(call.arg, vec![68, 73, 68, 76, 0, 0]);
    let call = b.with_arg_raw(vec![1, 2, 3]).to_call(&mut counter);
    assert_eq!(call.arg, vec![1, 2, 3]);
    match call.to_message(11) {
        Message::Request { request_id, env } => {
            assert_eq!(request_id.value(), 5);
            assert_eq!(env.entry_mode, EntryMode::Update);
            assert_eq!(env.method_name, Some("ping".to_string()));
            assert_eq!(env.cycles_available, 7);
            assert_eq!(env.sender, vec![2, 2]);
            assert_eq!(env.args, vec![1, 2, 3]);
            assert_eq!(env.time, 11);
        }
        _ => panic!("a call is delivered as a request"),
    }
}

#[test]
fn replies_are_delivered_as_callbacks() {
    let mut counter = 0u64;
    let id = RequestId::new(&mut counter);
    let reply = CallReply::Reply { data: vec![5], cycles_refunded: 3 };
    match reply.to_message(id, 0) {
        Message::Reply { reply_to, env } => {
            assert_eq!(reply_to, id);
            assert_eq!(env.entry_mode, EntryMode::ReplyCallback);
            assert_eq!(env.args, vec![5]);
            assert_eq!(env.cycles_refunded, 3);
        }
        _ => panic!("a reply is delivered as a reply"),
    }
    let reject = CallReply::Reject {
        rejection_code: RejectionCode::CanisterReject,
        rejection_message: "no".to_string(),
        cycles_refunded: 1,
    };
    match reject.to_message(id, 0) {
        Message::Reply { env, .. } => {
            assert_eq!(env.entry_mode, EntryMode::RejectCallback);
            assert_eq!(env.rejection_code, RejectionCode::CanisterReject);
            assert_eq!(env.rejection_message, "no");
            assert_eq!(env.cycles_refunded, 1);
        }
        _ => panic!("a rejection is delivered as a reply"),
    }
}
