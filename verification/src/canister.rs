//! The state of a canister run by the local replica: the environment of the
//! message being processed, the system API calls the canister makes while it
//! runs, and what becomes of a message once its task has run: its reply, and
//! the calls it makes to other canisters.
//!
//! Running a task happens outside this module; each system API call the task
//! makes is answered by a method here, which checks that the call is allowed
//! in the current entry point and updates the state.
use vstd::prelude::*;
use std::collections::{HashMap, HashSet};
use crate::call::{CallReply, CanisterReply, EntryMode, RejectionCode, RequestId, code_number};
use crate::hashtree::{copy_bytes, push_bytes};

verus! {

broadcast use vstd::std_specs::hash::group_hash_axioms;

/// The cycles a canister sets aside for the response to each call it makes.
pub const MAX_CYCLES_PER_RESPONSE: u128 = 12;

/// The cycle balance a canister starts with.
pub const DEFAULT_PROVISIONAL_CYCLES_BALANCE: u128 = 100_000_000_000_000;

/// The candid encoding of an empty argument list.
pub open spec fn candid_empty_arg() -> Seq<u8> {
    seq![68u8, 73u8, 68u8, 76u8, 0u8, 0u8]
}

/// The bytes of the anonymous principal.
pub open spec fn anonymous_principal() -> Seq<u8> {
    seq![4u8]
}

/// The canister's environment during a message.
pub struct Env {
    /// The canister's balance.
    pub balance: u128,
    /// The kind of entry point that is run; system API calls that it may not
    /// make fail.
    pub entry_mode: EntryMode,
    /// The principal of the sender, as bytes.
    pub sender: Vec<u8>,
    /// The method to call; only for update and query calls.
    pub method_name: Option<String>,
    /// The cycles provided with the call.
    pub cycles_available: u128,
    /// The cycles refunded.
    pub cycles_refunded: u128,
    /// The arguments of the call; in a reply, the data returned.
    pub args: Vec<u8>,
    /// The rejection code of a reply.
    pub rejection_code: RejectionCode,
    /// The rejection message; only where the rejection code is not `NoError`.
    pub rejection_message: String,
    /// The current time in nanoseconds.
    pub time: u64,
}

/// The name of the method, or the empty name where there is none.
pub open spec fn method_or_empty(m: Option<String>) -> Seq<char> {
    match m {
        Some(s) => s@,
        None => Seq::empty(),
    }
}

/// The name by which the entry point of an environment is exported.
pub open spec fn entry_point_name(e: Env) -> Seq<char> {
    match e.entry_mode {
        EntryMode::Init => "canister_init"@,
        EntryMode::PreUpgrade => "canister_pre_upgrade"@,
        EntryMode::PostUpgrade => "canister_post_upgrade"@,
        EntryMode::Heartbeat => "canister_heartbeat"@,
        EntryMode::InspectMessage => "canister_inspect_message"@,
        EntryMode::Update => "canister_update "@ + method_or_empty(e.method_name),
        EntryMode::Query => "canister_query "@ + method_or_empty(e.method_name),
        EntryMode::ReplyCallback => "reply callback"@,
        EntryMode::RejectCallback => "reject callback"@,
        EntryMode::CleanupCallback => "cleanup callback"@,
        EntryMode::CustomTask => "ic-kit: custom"@,
    }
}

/// The other name an entry point may be exported by: an update method may be
/// exported as a query and the other way round.
pub open spec fn possible_entry_point_name(e: Env) -> Seq<char> {
    match e.entry_mode {
        EntryMode::Update => "canister_query "@ + method_or_empty(e.method_name),
        EntryMode::Query => "canister_update "@ + method_or_empty(e.method_name),
        _ => entry_point_name(e),
    }
}

/// The method name joined to a prefix.
fn prefixed_method(prefix: &str, method_name: &Option<String>) -> (r: String)
    ensures
        r@ == prefix@ + method_or_empty(*method_name),
{
    let mut s = String::from_str(prefix);
    match method_name {
        Some(m) => {
            s.append(m.as_str());
        },
        None => {
            proof {
                assert(prefix@ + Seq::<char>::empty() =~= prefix@);
            }
        },
    }
    s
}

impl Env {
    /// The default environment at the given time: a custom task from the
    /// anonymous principal, with no cycles and an empty argument list.
    pub fn new(time: u64) -> (r: Self)
        ensures
            r.balance == DEFAULT_PROVISIONAL_CYCLES_BALANCE,
            r.entry_mode == EntryMode::CustomTask,
            r.sender@ == anonymous_principal(),
            r.method_name is None,
            r.cycles_available == 0,
            r.cycles_refunded == 0,
            r.args@ == candid_empty_arg(),
            r.rejection_code == RejectionCode::NoError,
            r.rejection_message@ == Seq::<char>::empty(),
            r.time == time,
    {
        let args: Vec<u8> = vec![68u8, 73u8, 68u8, 76u8, 0u8, 0u8];
        let sender: Vec<u8> = vec![4u8];
        proof {
            assert(args@ =~= candid_empty_arg());
            assert(sender@ =~= anonymous_principal());
        }
        Env {
            balance: DEFAULT_PROVISIONAL_CYCLES_BALANCE,
            entry_mode: EntryMode::CustomTask,
            sender,
            method_name: None,
            cycles_available: 0,
            cycles_refunded: 0,
            args,
            rejection_code: RejectionCode::NoError,
            rejection_message: String::new(),
            time,
        }
    }

    /// The environment of an update call to `method_name`.
    pub fn update(method_name: String, time: u64) -> (r: Self)
        ensures
            r.entry_mode == EntryMode::Update,
            r.method_name == Some(method_name),
            r.time == time,
            r.cycles_available == 0,
            r.args@ == candid_empty_arg(),
    {
        Self::new(time).with_entry_mode(EntryMode::Update).with_method_name(method_name)
    }

    /// The environment of a query call to `method_name`.
    pub fn query(method_name: String, time: u64) -> (r: Self)
        ensures
            r.entry_mode == EntryMode::Query,
            r.method_name == Some(method_name),
            r.time == time,
            r.cycles_available == 0,
            r.args@ == candid_empty_arg(),
    {
        Self::new(time).with_entry_mode(EntryMode::Query).with_method_name(method_name)
    }

    /// The environment of a call to the canister's init function.
    pub fn init(time: u64) -> (r: Self)
        ensures
            r.entry_mode == EntryMode::Init,
            r.method_name is None,
            r.time == time,
    {
        Self::new(time).with_entry_mode(EntryMode::Init)
    }

    /// The environment of a call to the canister's pre-upgrade function.
    pub fn pre_upgrade(time: u64) -> (r: Self)
        ensures
            r.entry_mode == EntryMode::PreUpgrade,
            r.method_name is None,
            r.time == time,
    {
        Self::new(time).with_entry_mode(EntryMode::PreUpgrade)
    }

    /// The environment of a call to the canister's post-upgrade function.
    pub fn post_upgrade(time: u64) -> (r: Self)
        ensures
            r.entry_mode == EntryMode::PostUpgrade,
            r.method_name is None,
            r.time == time,
    {
        Self::new(time).with_entry_mode(EntryMode::PostUpgrade)
    }

    /// The environment of a call to the canister's heartbeat function.
    pub fn heartbeat(time: u64) -> (r: Self)
        ensures
            r.entry_mode == EntryMode::Heartbeat,
            r.method_name is None,
            r.time == time,
    {
        Self::new(time).with_entry_mode(EntryMode::Heartbeat)
    }

    /// This environment with the given balance.
    pub fn with_balance(self, balance: u128) -> (r: Self)
        ensures
            r == (Env { balance, ..self }),
    {
        Env { balance, ..self }
    }

    /// This environment at the given time.
    pub fn with_time(self, time: u64) -> (r: Self)
        ensures
            r == (Env { time, ..self }),
    {
        Env { time, ..self }
    }

    /// This environment with the given entry mode.
    pub fn with_entry_mode(self, mode: EntryMode) -> (r: Self)
        ensures
            r == (Env { entry_mode: mode, ..self }),
    {
        Env { entry_mode: mode, ..self }
    }

    /// This environment with the given principal as the caller.
    pub fn with_sender(self, sender: Vec<u8>) -> (r: Self)
        ensures
            r == (Env { sender, ..self }),
    {
        Env { sender, ..self }
    }

    /// This environment calling the given method.
    pub fn with_method_name(self, method_name: String) -> (r: Self)
        ensures
            r == (Env { method_name: Some(method_name), ..self }),
    {
        Env { method_name: Some(method_name), ..self }
    }

    /// This environment with the given cycles provided.
    pub fn with_cycles_available(self, cycles: u128) -> (r: Self)
        ensures
            r == (Env { cycles_available: cycles, ..self }),
    {
        Env { cycles_available: cycles, ..self }
    }

    /// This environment with the given cycles refunded; only for reply and
    /// reject callbacks.
    pub fn with_cycles_refunded(self, cycles: u128) -> (r: Self)
        ensures
            r == (Env { cycles_refunded: cycles, ..self }),
    {
        Env { cycles_refunded: cycles, ..self }
    }

    /// This environment with the given raw arguments; in a reply, the data
    /// returned to the canister.
    pub fn with_raw_args(self, argument: Vec<u8>) -> (r: Self)
        ensures
            r == (Env { args: argument, ..self }),
    {
        Env { args: argument, ..self }
    }

    /// This environment with the given rejection code; a rejection message
    /// goes with any code but `NoError`.
    pub fn with_rejection_code(self, rejection_code: RejectionCode) -> (r: Self)
        ensures
            r == (Env { rejection_code, ..self }),
    {
        Env { rejection_code, ..self }
    }

    /// This environment with the given rejection message.
    pub fn with_rejection_message(self, rejection_message: String) -> (r: Self)
        ensures
            r == (Env { rejection_message, ..self }),
    {
        Env { rejection_message, ..self }
    }

    /// The name by which the method to run is looked up.
    pub fn get_entry_point_name(&self) -> (r: String)
        ensures
            r@ == entry_point_name(*self),
    {
        match self.entry_mode {
            EntryMode::Init => String::from_str("canister_init"),
            EntryMode::PreUpgrade => String::from_str("canister_pre_upgrade"),
            EntryMode::PostUpgrade => String::from_str("canister_post_upgrade"),
            EntryMode::Heartbeat => String::from_str("canister_heartbeat"),
            EntryMode::InspectMessage => String::from_str("canister_inspect_message"),
            EntryMode::Update => prefixed_method("canister_update ", &self.method_name),
            EntryMode::Query => prefixed_method("canister_query ", &self.method_name),
            EntryMode::ReplyCallback => String::from_str("reply callback"),
            EntryMode::RejectCallback => String::from_str("reject callback"),
            EntryMode::CleanupCallback => String::from_str("cleanup callback"),
            EntryMode::CustomTask => String::from_str("ic-kit: custom"),
        }
    }

    /// The other name the method may be exported by.
    pub fn get_possible_entry_point_name(&self) -> (r: String)
        ensures
            r@ == possible_entry_point_name(*self),
    {
        match self.entry_mode {
            EntryMode::Update => prefixed_method("canister_query ", &self.method_name),
            EntryMode::Query => prefixed_method("canister_update ", &self.method_name),
            _ => self.get_entry_point_name(),
        }
    }
}

/// The callbacks of a call the canister made: the incoming message it was
/// made for, and the reply, reject and cleanup callbacks, each a function and
/// its environment.
pub struct RequestCallbacks {
    pub message_id: u64,
    pub reply: (isize, isize),
    pub reject: (isize, isize),
    pub cleanup: Option<(isize, isize)>,
}

/// A call to another canister, under construction or queued until the
/// message that makes it has run.
pub struct PendingCall {
    pub callee: Vec<u8>,
    pub method: String,
    pub callbacks: RequestCallbacks,
    pub payment: u128,
    pub arg: Vec<u8>,
}

/// A call that was made to another canister.
pub struct CanisterCall {
    pub sender: Vec<u8>,
    pub request_id: RequestId,
    pub callee: Vec<u8>,
    pub method: String,
    pub payment: u128,
    pub arg: Vec<u8>,
}

/// A canister as the replica runs it.
pub struct Canister {
    canister_id: Vec<u8>,
    balance: u128,
    symbol_table: Vec<String>,
    msg_reply_data: Vec<u8>,
    open_requests: HashSet<u64>,
    msg_reply: Option<CanisterReply>,
    cycles_available_store: HashMap<u64, u128>,
    cycles_accepted: u128,
    pending_outgoing_requests: HashMap<u64, HashSet<u64>>,
    outgoing_calls: HashMap<u64, RequestCallbacks>,
    env: Env,
    request_id: Option<u64>,
    call_queue: Vec<PendingCall>,
    pending_call: Option<PendingCall>,
}

/// What the state of a canister is.
pub struct CanisterView {
    /// The canister's principal, as bytes.
    pub id: Seq<u8>,
    /// The cycle balance, without the cycles accepted in this message.
    pub balance: u128,
    /// The names of the exported methods.
    pub methods: Seq<String>,
    /// The reply data built so far for the current message.
    pub reply_data: Seq<u8>,
    /// The incoming requests not answered yet.
    pub open: Set<u64>,
    /// The reply of the current message, to be sent once it has run without
    /// trapping.
    pub reply: Option<CanisterReply>,
    /// The cycles still available to each incoming request.
    pub store: Map<u64, u128>,
    /// The cycles accepted while processing this message.
    pub accepted: u128,
    /// For each incoming request, the calls made for it that are unanswered.
    pub pending_out: Map<u64, Set<u64>>,
    /// The callbacks of each call made and not answered.
    pub outgoing: Map<u64, RequestCallbacks>,
    /// The environment of the current message.
    pub env: Env,
    /// The incoming request being processed.
    pub request_id: Option<u64>,
    /// The calls made by this message, to be sent once it has run without
    /// trapping.
    pub queue: Seq<PendingCall>,
    /// The call under construction.
    pub pending: Option<PendingCall>,
}

impl View for Canister {
    type V = CanisterView;

    closed spec fn view(&self) -> CanisterView {
        CanisterView {
            id: self.canister_id@,
            balance: self.balance,
            methods: self.symbol_table@,
            reply_data: self.msg_reply_data@,
            open: self.open_requests@,
            reply: self.msg_reply,
            store: self.cycles_available_store@,
            accepted: self.cycles_accepted,
            pending_out: self.pending_outgoing_requests@.map_values(|s: HashSet<u64>| s@),
            outgoing: self.outgoing_calls@,
            env: self.env,
            request_id: self.request_id,
            queue: self.call_queue@,
            pending: self.pending_call,
        }
    }
}

/// The cycles set aside for a call: those for its response and its payment.
pub open spec fn call_reserve(c: PendingCall) -> int {
    MAX_CYCLES_PER_RESPONSE + c.payment
}

/// The cycles set aside for the queued calls.
pub open spec fn queue_reserve(q: Seq<PendingCall>) -> int
    decreases q.len(),
{
    if q.len() == 0 {
        0
    } else {
        queue_reserve(q.drop_last()) + call_reserve(q.last())
    }
}

/// The cycles the canister holds: its balance and what it set aside for
/// the calls it is making.
pub open spec fn held_cycles(v: CanisterView) -> int {
    v.balance + (match v.pending {
        Some(c) => call_reserve(c),
        None => 0,
    }) + queue_reserve(v.queue)
}

/// The message by which a system API call that the entry point may not make
/// fails.
pub open spec fn denied_message(api: Seq<char>, e: Env) -> Seq<char> {
    api + " can not be called from '"@ + entry_point_name(e) + "'"@
}

/// Entry points that may read the size of their arguments.
pub open spec fn reads_arg_size(m: EntryMode) -> bool {
    m is CustomTask || m is Init || m is Update || m is Query || m is ReplyCallback || m is InspectMessage
}

/// Entry points that may copy their arguments.
pub open spec fn reads_args(m: EntryMode) -> bool {
    reads_arg_size(m) || m is PostUpgrade
}

/// Entry points that may read their caller.
pub open spec fn reads_caller(m: EntryMode) -> bool {
    m is CustomTask || m is Init || m is PostUpgrade || m is PreUpgrade || m is Update || m is Query || m is InspectMessage
}

/// The caller of a message can be read by every entry point that runs on
/// behalf of a caller (the initialisation and upgrade hooks, update and
/// query methods, message inspection and custom tasks), and by none that
/// runs on the canister's own account (the heartbeat and the callbacks of
/// the calls it made).
pub proof fn lemma_caller_readable(m: EntryMode)
    ensures
        (m is Init || m is PreUpgrade || m is PostUpgrade || m is Update || m is Query || m is InspectMessage
            || m is CustomTask) ==> reads_caller(m),
        (m is Heartbeat || m is ReplyCallback || m is RejectCallback || m is CleanupCallback) ==> !reads_caller(m),
{
}

/// Entry points that may read the rejection code.
pub open spec fn reads_reject_code(m: EntryMode) -> bool {
    m is CustomTask || m is ReplyCallback || m is RejectCallback
}

/// Entry points that may read the rejection message.
pub open spec fn reads_reject_message(m: EntryMode) -> bool {
    m is CustomTask || m is RejectCallback
}

/// Entry points that may reply or reject.
pub open spec fn may_reply(m: EntryMode) -> bool {
    m is CustomTask || m is Update || m is Query || m is ReplyCallback || m is RejectCallback
}

/// Entry points that may read and accept the cycles sent with the call.
pub open spec fn reads_cycles(m: EntryMode) -> bool {
    m is CustomTask || m is Update || m is ReplyCallback || m is RejectCallback
}

/// Entry points that may read the refunded cycles.
pub open spec fn reads_refund(m: EntryMode) -> bool {
    m is CustomTask || m is ReplyCallback || m is RejectCallback
}

/// Entry points that may read the method name.
pub open spec fn reads_method_name(m: EntryMode) -> bool {
    m is CustomTask || m is InspectMessage
}

/// Entry points that may make calls.
pub open spec fn makes_calls(m: EntryMode) -> bool {
    m is CustomTask || m is Update || m is ReplyCallback || m is RejectCallback || m is Heartbeat
}

/// The bytes `offset..offset + size` of `data`, or the out-of-bounds error.
pub open spec fn copy_result(data: Seq<u8>, offset: usize, size: usize, r: Result<Vec<u8>, String>) -> bool {
    if offset + size <= data.len() {
        r matches Ok(v) && v@ == data.subrange(offset as int, offset + size)
    } else {
        fails_with(r, "Out of bound read."@)
    }
}

/// Some method of `methods` is exported by the name `name`.
pub open spec fn exports(methods: Seq<String>, name: Seq<char>) -> bool {
    exists|j: int| 0 <= j < methods.len() && (#[trigger] methods[j])@ == name
}

/// `r` is the failure with the message `msg`.
pub open spec fn fails_with<T>(r: Result<T, String>, msg: Seq<char>) -> bool {
    r matches Err(e) && e@ == msg
}

/// The failure of a system API call the entry point may not make.
fn denied(api: &str, env: &Env) -> (r: String)
    ensures
        r@ == denied_message(api@, *env),
{
    let mut s = String::from_str(api);
    s.append(" can not be called from '");
    let name = env.get_entry_point_name();
    s.append(name.as_str());
    s.append("'");
    s
}

/// A copy of `size` bytes of `data` from `offset`.
fn copy_slice(data: &[u8], offset: usize, size: usize) -> (r: Result<Vec<u8>, String>)
    ensures
        copy_result(data@, offset, size, r),
{
    if offset > data.len() || size > data.len() - offset {
        return Err(String::from_str("Out of bound read."));
    }
    let n = data.len();
    let mut v: Vec<u8> = Vec::new();
    let mut i: usize = 0;
    while i < size
        invariant
            i <= size,
            n == data@.len(),
            offset + size <= n,
            v@ == data@.subrange(offset as int, offset + i),
        decreases size - i,
    {
        v.push(data[offset + i]);
        i = i + 1;
        proof {
            assert(v@ =~= data@.subrange(offset as int, offset + i));
        }
    }
    Ok(v)
}

/// The 128-bit number made of a high and a low 64-bit half.
pub open spec fn u128_of_halves(high: i64, low: i64) -> u128 {
    ((high as u64) as int * 0x1_0000_0000_0000_0000 + (low as u64) as int) as u128
}

fn join_halves(high: i64, low: i64) -> (r: u128)
    ensures
        r == u128_of_halves(high, low),
{
    let h = (high as u64) as u128;
    let l = (low as u64) as u128;
    assert(h * 0x1_0000_0000_0000_0000 + l <= u128::MAX) by (nonlinear_arith)
        requires
            h <= u64::MAX,
            l <= u64::MAX,
    ;
    h * 0x1_0000_0000_0000_0000 + l
}

proof fn lemma_queue_push(q: Seq<PendingCall>, c: PendingCall)
    ensures
        queue_reserve(q.push(c)) == queue_reserve(q) + call_reserve(c),
{
    assert(q.push(c).drop_last() =~= q);
}

proof fn lemma_queue_nonneg(q: Seq<PendingCall>)
    ensures
        queue_reserve(q) >= 0,
    decreases q.len(),
{
    if q.len() > 0 {
        lemma_queue_nonneg(q.drop_last());
    }
}

/// The cycles set aside for the first `i` queued calls are no more than
/// those for the whole queue.
proof fn lemma_queue_prefix_le(q: Seq<PendingCall>, i: int)
    requires
        0 <= i <= q.len(),
    ensures
        0 <= queue_reserve(q.subrange(0, i)) <= queue_reserve(q),
    decreases q.len(),
{
    lemma_queue_nonneg(q.subrange(0, i));
    if i < q.len() {
        assert(q.drop_last().subrange(0, i) =~= q.subrange(0, i));
        lemma_queue_prefix_le(q.drop_last(), i);
    } else {
        assert(q.subrange(0, i) =~= q);
    }
}

impl Canister {
    /// The canister's state is consistent: the cycles it holds and the cycles
    /// of the current message fit in 128 bits, a reply waits only for an
    /// open request, and each call made is listed under the request it was
    /// made for.
    pub closed spec fn wf(&self) -> bool {
        &&& held_cycles(self@) <= u128::MAX
        &&& self.env.cycles_available + self.cycles_accepted <= u128::MAX
        &&& self.msg_reply is Some ==> self.request_id is Some && self.open_requests@.contains(self.request_id->Some_0)
        &&& forall|o: u64| #[trigger] self.outgoing_calls@.contains_key(o) ==> {
            let m = self.outgoing_calls@[o].message_id;
            self.pending_outgoing_requests@.contains_key(m) && self.pending_outgoing_requests@[m]@.contains(o)
        }
        &&& forall|i: int| 0 <= i < self.call_queue@.len() ==> (#[trigger] self.call_queue@[i]).callbacks.message_id
            == self.request_id->Some_0
        &&& self.pending_call matches Some(c) ==> c.callbacks.message_id == self.request_id->Some_0
    }

    /// The cycles the canister holds: its balance and what it set aside for
    /// the calls it is making.
    fn held(&self) -> (r: u128)
        requires
            self.wf(),
        ensures
            r == held_cycles(self@),
    {
        proof {
            lemma_queue_nonneg(self.call_queue@);
        }
        let mut total: u128 = self.balance;
        match &self.pending_call {
            Some(c) => {
                total = total + MAX_CYCLES_PER_RESPONSE + c.payment;
            },
            None => {},
        }
        let ghost base = total;
        let mut i: usize = 0;
        while i < self.call_queue.len()
            invariant
                self.wf(),
                i <= self.call_queue@.len(),
                base + queue_reserve(self.call_queue@) == held_cycles(self@),
                total == base + queue_reserve(self.call_queue@.subrange(0, i as int)),
            decreases self.call_queue@.len() - i,
        {
            let ghost q = self.call_queue@;
            proof {
                assert(q.subrange(0, i + 1).drop_last() =~= q.subrange(0, i as int));
                lemma_queue_prefix_le(q, i + 1);
            }
            total = total + MAX_CYCLES_PER_RESPONSE + self.call_queue[i].payment;
            i = i + 1;
        }
        proof {
            assert(self.call_queue@.subrange(0, i as int) =~= self.call_queue@);
        }
        total
    }

    /// Whether `begin_message` may be given the message: it is one the
    /// canister can process (see `message_ok`), and the cycles it refunds
    /// fit with those the canister holds.
    pub fn accepts_message(&self, message: &Message, has_reply_channel: bool) -> (r: bool)
        requires
            self.wf(),
        ensures
            r == (message_ok(self@, *message, has_reply_channel) && held_cycles(self@) + message_env(
                *message,
            ).cycles_refunded <= u128::MAX),
    {
        let ok = match message {
            Message::CustomTask { env, .. } => has_reply_channel && !matches!(env.entry_mode, EntryMode::ReplyCallback)
                && !matches!(env.entry_mode, EntryMode::RejectCallback),
            Message::Request { env, .. } => has_reply_channel && !matches!(env.entry_mode, EntryMode::ReplyCallback)
                && !matches!(env.entry_mode, EntryMode::RejectCallback) && !matches!(
                env.entry_mode,
                EntryMode::CleanupCallback
            ) && !matches!(env.entry_mode, EntryMode::CustomTask),
            Message::Reply { reply_to, env } => {
                let id = reply_to.value();
                self.outgoing_calls.contains_key(&id) && (matches!(env.entry_mode, EntryMode::ReplyCallback)
                    || matches!(env.entry_mode, EntryMode::RejectCallback))
            },
        };
        if !ok {
            return false;
        }
        let refunded = match message {
            Message::CustomTask { env, .. } => env.cycles_refunded,
            Message::Request { env, .. } => env.cycles_refunded,
            Message::Reply { env, .. } => env.cycles_refunded,
        };
        let held = self.held();
        held <= u128::MAX - refunded
    }

    /// A canister with the given principal, no methods, and the default
    /// balance.
    pub fn new(canister_id: Vec<u8>, time: u64) -> (r: Self)
        ensures
            r.wf(),
            r@.id == canister_id@,
            r@.balance == DEFAULT_PROVISIONAL_CYCLES_BALANCE,
            r@.methods == Seq::<String>::empty(),
            r@.reply_data == Seq::<u8>::empty(),
            r@.open == Set::<u64>::empty(),
            r@.reply is None,
            r@.store == Map::<u64, u128>::empty(),
            r@.accepted == 0,
            r@.pending_out == Map::<u64, Set<u64>>::empty(),
            r@.outgoing == Map::<u64, RequestCallbacks>::empty(),
            r@.request_id is None,
            r@.queue == Seq::<PendingCall>::empty(),
            r@.pending is None,
            r@.env.time == time,
            r@.env.balance == DEFAULT_PROVISIONAL_CYCLES_BALANCE,
            r@.env.entry_mode == EntryMode::CustomTask,
            r@.env.sender@ == anonymous_principal(),
            r@.env.method_name is None,
            r@.env.cycles_available == 0,
            r@.env.cycles_refunded == 0,
            r@.env.args@ == candid_empty_arg(),
            r@.env.rejection_code == RejectionCode::NoError,
            r@.env.rejection_message@ == Seq::<char>::empty(),
    {
        let r = Canister {
            canister_id,
            balance: DEFAULT_PROVISIONAL_CYCLES_BALANCE,
            symbol_table: Vec::new(),
            msg_reply_data: Vec::new(),
            open_requests: HashSet::new(),
            msg_reply: None,
            cycles_available_store: HashMap::new(),
            cycles_accepted: 0,
            pending_outgoing_requests: HashMap::new(),
            outgoing_calls: HashMap::new(),
            env: Env::new(time),
            request_id: None,
            call_queue: Vec::new(),
            pending_call: None,
        };
        proof {
            assert(r@.pending_out =~= Map::<u64, Set<u64>>::empty());
        }
        r
    }

    /// The canister's principal, as bytes.
    pub fn id(&self) -> (r: &Vec<u8>)
        ensures
            r@ == self@.id,
    {
        &self.canister_id
    }

    /// Whether the canister exports a method by this name.
    pub fn has_method(&self, export_name: &String) -> (r: bool)
        ensures
            r == exports(self@.methods, export_name@),
    {
        let mut i: usize = 0;
        while i < self.symbol_table.len()
            invariant
                i <= self.symbol_table@.len(),
                forall|j: int| 0 <= j < i ==> (#[trigger] self.symbol_table@[j])@ != export_name@,
            decreases self.symbol_table@.len() - i,
        {
            if self.symbol_table[i] == *export_name {
                proof {
                    assert(self.symbol_table@[i as int]@ == export_name@);
                }
                return true;
            }
            i = i + 1;
        }
        false
    }
}

/// Whether the entry point may read the size of its arguments.
fn mode_reads_arg_size(m: EntryMode) -> (r: bool)
    ensures
        r == reads_arg_size(m),
{
    match m {
        EntryMode::CustomTask | EntryMode::Init | EntryMode::Update | EntryMode::Query | EntryMode::ReplyCallback
        | EntryMode::InspectMessage => true,
        _ => false,
    }
}

/// Whether the entry point may copy its arguments.
fn mode_reads_args(m: EntryMode) -> (r: bool)
    ensures
        r == reads_args(m),
{
    match m {
        EntryMode::PostUpgrade => true,
        _ => mode_reads_arg_size(m),
    }
}

/// Whether the entry point may read its caller.
fn mode_reads_caller(m: EntryMode) -> (r: bool)
    ensures
        r == reads_caller(m),
{
    match m {
        EntryMode::CustomTask | EntryMode::Init | EntryMode::PostUpgrade | EntryMode::PreUpgrade | EntryMode::Update
        | EntryMode::Query | EntryMode::InspectMessage => true,
        _ => false,
    }
}

/// Whether the entry point may read the rejection code.
fn mode_reads_reject_code(m: EntryMode) -> (r: bool)
    ensures
        r == reads_reject_code(m),
{
    match m {
        EntryMode::CustomTask | EntryMode::ReplyCallback | EntryMode::RejectCallback => true,
        _ => false,
    }
}

/// Whether the entry point may read the rejection message.
fn mode_reads_reject_message(m: EntryMode) -> (r: bool)
    ensures
        r == reads_reject_message(m),
{
    match m {
        EntryMode::CustomTask | EntryMode::RejectCallback => true,
        _ => false,
    }
}

/// Whether the entry point may reply or reject.
fn mode_may_reply(m: EntryMode) -> (r: bool)
    ensures
        r == may_reply(m),
{
    match m {
        EntryMode::CustomTask | EntryMode::Update | EntryMode::Query | EntryMode::ReplyCallback
        | EntryMode::RejectCallback => true,
        _ => false,
    }
}

/// Whether the entry point may read and accept cycles.
fn mode_reads_cycles(m: EntryMode) -> (r: bool)
    ensures
        r == reads_cycles(m),
{
    match m {
        EntryMode::CustomTask | EntryMode::Update | EntryMode::ReplyCallback | EntryMode::RejectCallback => true,
        _ => false,
    }
}

/// Whether the entry point may read the refunded cycles.
fn mode_reads_refund(m: EntryMode) -> (r: bool)
    ensures
        r == reads_refund(m),
{
    match m {
        EntryMode::CustomTask | EntryMode::ReplyCallback | EntryMode::RejectCallback => true,
        _ => false,
    }
}

/// Whether the entry point may read the method name.
fn mode_reads_method_name(m: EntryMode) -> (r: bool)
    ensures
        r == reads_method_name(m),
{
    match m {
        EntryMode::CustomTask | EntryMode::InspectMessage => true,
        _ => false,
    }
}

/// Whether the entry point may make calls.
fn mode_makes_calls(m: EntryMode) -> (r: bool)
    ensures
        r == makes_calls(m),
{
    match m {
        EntryMode::CustomTask | EntryMode::Update | EntryMode::ReplyCallback | EntryMode::RejectCallback
        | EntryMode::Heartbeat => true,
        _ => false,
    }
}

/// The bytes of a string.
fn string_bytes(s: &String) -> (r: &[u8])
    ensures
        r@ == vstd::utf8::encode_utf8(s@),
{
    s.as_str().as_bytes()
}

impl Canister {
    /// The size of the arguments of the message.
    pub fn msg_arg_data_size(&self) -> (r: Result<isize, String>)
        ensures
            reads_arg_size(self@.env.entry_mode) ==> r == Ok::<isize, String>(self@.env.args.len() as isize),
            !reads_arg_size(self@.env.entry_mode) ==> fails_with(r, denied_message(
                "msg_arg_data_size"@,
                self@.env,
            )),
    {
        if mode_reads_arg_size(self.env.entry_mode) {
            Ok(self.env.args.len() as isize)
        } else {
            Err(denied("msg_arg_data_size", &self.env))
        }
    }

    /// `size` bytes of the arguments of the message from `offset`.
    pub fn msg_arg_data_copy(&self, offset: usize, size: usize) -> (r: Result<Vec<u8>, String>)
        ensures
            reads_args(self@.env.entry_mode) ==> copy_result(self@.env.args@, offset, size, r),
            !reads_args(self@.env.entry_mode) ==> fails_with(r, denied_message(
                "msg_arg_data_copy"@,
                self@.env,
            )),
    {
        if mode_reads_args(self.env.entry_mode) {
            copy_slice(self.env.args.as_slice(), offset, size)
        } else {
            Err(denied("msg_arg_data_copy", &self.env))
        }
    }

    /// The size of the caller's principal.
    pub fn msg_caller_size(&self) -> (r: Result<isize, String>)
        ensures
            reads_caller(self@.env.entry_mode) ==> r == Ok::<isize, String>(self@.env.sender.len() as isize),
            !reads_caller(self@.env.entry_mode) ==> fails_with(r, denied_message(
                "msg_caller_size"@,
                self@.env,
            )),
    {
        if mode_reads_caller(self.env.entry_mode) {
            Ok(self.env.sender.len() as isize)
        } else {
            Err(denied("msg_caller_size", &self.env))
        }
    }

    /// `size` bytes of the caller's principal from `offset`.
    pub fn msg_caller_copy(&self, offset: usize, size: usize) -> (r: Result<Vec<u8>, String>)
        ensures
            reads_caller(self@.env.entry_mode) ==> copy_result(self@.env.sender@, offset, size, r),
            !reads_caller(self@.env.entry_mode) ==> fails_with(r, denied_message(
                "msg_caller_copy"@,
                self@.env,
            )),
    {
        if mode_reads_caller(self.env.entry_mode) {
            copy_slice(self.env.sender.as_slice(), offset, size)
        } else {
            Err(denied("msg_caller_copy", &self.env))
        }
    }

    /// The rejection code of the message.
    pub fn msg_reject_code(&self) -> (r: Result<i32, String>)
        ensures
            reads_reject_code(self@.env.entry_mode) ==> r == Ok::<i32, String>(code_number(self@.env.rejection_code)),
            !reads_reject_code(self@.env.entry_mode) ==> fails_with(r, denied_message(
                "msg_reject_code"@,
                self@.env,
            )),
    {
        if mode_reads_reject_code(self.env.entry_mode) {
            Ok(self.env.rejection_code.code())
        } else {
            Err(denied("msg_reject_code", &self.env))
        }
    }

    /// The size in bytes of the rejection message.
    pub fn msg_reject_msg_size(&self) -> (r: Result<isize, String>)
        ensures
            reads_reject_message(self@.env.entry_mode) ==> r == Ok::<isize, String>(
                vstd::utf8::encode_utf8(self@.env.rejection_message@).len() as isize,
            ),
            !reads_reject_message(self@.env.entry_mode) ==> fails_with(r, denied_message(
                "msg_reject_msg_size"@,
                self@.env,
            )),
    {
        if mode_reads_reject_message(self.env.entry_mode) {
            Ok(string_bytes(&self.env.rejection_message).len() as isize)
        } else {
            Err(denied("msg_reject_msg_size", &self.env))
        }
    }

    /// `size` bytes of the rejection message from `offset`.
    pub fn msg_reject_msg_copy(&self, offset: usize, size: usize) -> (r: Result<Vec<u8>, String>)
        ensures
            reads_reject_message(self@.env.entry_mode) ==> copy_result(
                vstd::utf8::encode_utf8(self@.env.rejection_message@),
                offset,
                size,
                r,
            ),
            !reads_reject_message(self@.env.entry_mode) ==> fails_with(r, denied_message(
                "msg_reject_msg_copy"@,
                self@.env,
            )),
    {
        if mode_reads_reject_message(self.env.entry_mode) {
            copy_slice(string_bytes(&self.env.rejection_message), offset, size)
        } else {
            Err(denied("msg_reject_msg_copy", &self.env))
        }
    }

    /// The cycles available to the message, where they fit in 64 bits.
    pub fn msg_cycles_available(&self) -> (r: Result<i64, String>)
        ensures
            reads_cycles(self@.env.entry_mode) && self@.env.cycles_available <= u64::MAX ==> r == Ok::<i64, String>(
                self@.env.cycles_available as u64 as i64,
            ),
            reads_cycles(self@.env.entry_mode) && self@.env.cycles_available > u64::MAX ==> fails_with(r, "available cycles does not fit in u64"@),
            !reads_cycles(self@.env.entry_mode) ==> fails_with(r, denied_message(
                "msg_cycles_available"@,
                self@.env,
            )),
    {
        if mode_reads_cycles(self.env.entry_mode) {
            if self.env.cycles_available > u64::MAX as u128 {
                return Err(String::from_str("available cycles does not fit in u64"));
            }
            Ok(self.env.cycles_available as u64 as i64)
        } else {
            Err(denied("msg_cycles_available", &self.env))
        }
    }

    /// The cycles available to the message.
    pub fn msg_cycles_available128(&self) -> (r: Result<u128, String>)
        ensures
            reads_cycles(self@.env.entry_mode) ==> r == Ok::<u128, String>(self@.env.cycles_available),
            !reads_cycles(self@.env.entry_mode) ==> fails_with(r, denied_message(
                "msg_cycles_available128"@,
                self@.env,
            )),
    {
        if mode_reads_cycles(self.env.entry_mode) {
            Ok(self.env.cycles_available)
        } else {
            Err(denied("msg_cycles_available128", &self.env))
        }
    }

    /// The cycles refunded to the message, where they fit in 64 bits.
    pub fn msg_cycles_refunded(&self) -> (r: Result<i64, String>)
        ensures
            reads_refund(self@.env.entry_mode) && self@.env.cycles_refunded <= u64::MAX ==> r == Ok::<i64, String>(
                self@.env.cycles_refunded as u64 as i64,
            ),
            reads_refund(self@.env.entry_mode) && self@.env.cycles_refunded > u64::MAX ==> fails_with(r, "refunded cycles does not fit in u64"@),
            !reads_refund(self@.env.entry_mode) ==> fails_with(r, denied_message(
                "msg_cycles_refunded"@,
                self@.env,
            )),
    {
        if mode_reads_refund(self.env.entry_mode) {
            if self.env.cycles_refunded > u64::MAX as u128 {
                return Err(String::from_str("refunded cycles does not fit in u64"));
            }
            Ok(self.env.cycles_refunded as u64 as i64)
        } else {
            Err(denied("msg_cycles_refunded", &self.env))
        }
    }

    /// The cycles refunded to the message.
    pub fn msg_cycles_refunded128(&self) -> (r: Result<u128, String>)
        ensures
            reads_refund(self@.env.entry_mode) ==> r == Ok::<u128, String>(self@.env.cycles_refunded),
            !reads_refund(self@.env.entry_mode) ==> fails_with(r, denied_message(
                "msg_cycles_refunded128"@,
                self@.env,
            )),
    {
        if mode_reads_refund(self.env.entry_mode) {
            Ok(self.env.cycles_refunded)
        } else {
            Err(denied("msg_cycles_refunded128", &self.env))
        }
    }

    /// The size of the canister's own principal.
    pub fn canister_self_size(&self) -> (r: isize)
        ensures
            r == self@.id.len() as isize,
    {
        self.canister_id.len() as isize
    }

    /// `size` bytes of the canister's own principal from `offset`.
    pub fn canister_self_copy(&self, offset: usize, size: usize) -> (r: Result<Vec<u8>, String>)
        ensures
            copy_result(self@.id, offset, size, r),
    {
        copy_slice(self.canister_id.as_slice(), offset, size)
    }

    /// The canister's cycle balance, with the cycles accepted in this message,
    /// where it fits in 64 bits.
    pub fn canister_cycle_balance(&self) -> (r: Result<i64, String>)
        requires
            self@.balance + self@.accepted <= u128::MAX,
        ensures
            self@.balance + self@.accepted <= u64::MAX ==> r == Ok::<i64, String>(
                (self@.balance + self@.accepted) as u64 as i64,
            ),
            self@.balance + self@.accepted > u64::MAX ==> fails_with(r, "refunded cycles does not fit in u64"@),
    {
        let balance = self.balance + self.cycles_accepted;
        if balance > u64::MAX as u128 {
            return Err(String::from_str("refunded cycles does not fit in u64"));
        }
        Ok(balance as u64 as i64)
    }

    /// The canister's cycle balance, with the cycles accepted in this message.
    pub fn canister_cycle_balance128(&self) -> (r: u128)
        requires
            self@.balance + self@.accepted <= u128::MAX,
        ensures
            r == self@.balance + self@.accepted,
    {
        self.balance + self.cycles_accepted
    }

    /// The status of the canister: running.
    pub fn canister_status(&self) -> (r: i32)
        ensures
            r == 1,
    {
        1
    }

    /// The size in bytes of the name of the method called.
    pub fn msg_method_name_size(&self) -> (r: Result<isize, String>)
        requires
            reads_method_name(self@.env.entry_mode) ==> self@.env.method_name is Some,
        ensures
            reads_method_name(self@.env.entry_mode) ==> r == Ok::<isize, String>(
                vstd::utf8::encode_utf8(self@.env.method_name->Some_0@).len() as isize,
            ),
            !reads_method_name(self@.env.entry_mode) ==> fails_with(r, denied_message(
                "msg_method_name_size"@,
                self@.env,
            )),
    {
        if mode_reads_method_name(self.env.entry_mode) {
            match &self.env.method_name {
                Some(m) => Ok(string_bytes(m).len() as isize),
                None => Ok(0),
            }
        } else {
            Err(denied("msg_method_name_size", &self.env))
        }
    }

    /// `size` bytes of the name of the method called, from `offset`.
    pub fn msg_method_name_copy(&self, offset: usize, size: usize) -> (r: Result<Vec<u8>, String>)
        requires
            reads_method_name(self@.env.entry_mode) ==> self@.env.method_name is Some,
        ensures
            reads_method_name(self@.env.entry_mode) ==> copy_result(
                vstd::utf8::encode_utf8(self@.env.method_name->Some_0@),
                offset,
                size,
                r,
            ),
            !reads_method_name(self@.env.entry_mode) ==> fails_with(r, denied_message(
                "msg_method_name_copy"@,
                self@.env,
            )),
    {
        if mode_reads_method_name(self.env.entry_mode) {
            match &self.env.method_name {
                Some(m) => copy_slice(string_bytes(m), offset, size),
                None => Err(String::from_str("Out of bound read.")),
            }
        } else {
            Err(denied("msg_method_name_copy", &self.env))
        }
    }

    /// The current time, in nanoseconds.
    pub fn time(&self) -> (r: i64)
        ensures
            r == self@.env.time as i64,
    {
        self.env.time as i64
    }

    /// The canister traps with `message`: the call fails with it.
    pub fn trap(&self, message: &String) -> (r: Result<(), String>)
        ensures
            fails_with(r, "Canister trapped: '"@ + message@ + "'"@),
    {
        let mut s = String::from_str("Canister trapped: '");
        s.append(message.as_str());
        s.append("'");
        Err(s)
    }
}

/// The cycles `amount` a message accepts of those available: at most
/// `max`.
pub open spec fn accepted_amount(available: u128, max: u128) -> u128 {
    if available <= max {
        available
    } else {
        max
    }
}

/// A message accepts all the cycles it asks for when that many are
/// available, and all that are available otherwise: the smaller of the two,
/// never more than either.
pub proof fn lemma_accepted_amount(available: u128, max: u128)
    ensures
        accepted_amount(available, max) <= available,
        accepted_amount(available, max) <= max,
        accepted_amount(available, max) == available || accepted_amount(available, max) == max,
{
}

/// The state after the call under construction is dropped: what it set
/// aside goes back to the balance.
pub open spec fn without_pending(v: CanisterView) -> CanisterView {
    match v.pending {
        Some(c) => CanisterView { balance: (v.balance + call_reserve(c)) as u128, pending: None, ..v },
        None => v,
    }
}

impl Canister {
    /// Drop the call under construction, giving back what it set aside.
    fn discard_pending_call(&mut self)
        requires
            old(self).wf(),
        ensures
            final(self).wf(),
            final(self)@ == without_pending(old(self)@),
            held_cycles(final(self)@) == held_cycles(old(self)@),
    {
        proof {
            lemma_queue_nonneg(self.call_queue@);
        }
        match self.pending_call.take() {
            Some(c) => {
                self.balance = self.balance + MAX_CYCLES_PER_RESPONSE + c.payment;
            },
            None => {},
        }
    }

    /// Drop the queued calls, giving back what they set aside.
    fn discard_call_queue(&mut self)
        requires
            old(self).wf(),
        ensures
            final(self).wf(),
            final(self)@ == (CanisterView {
                balance: (old(self)@.balance + queue_reserve(old(self)@.queue)) as u128,
                queue: Seq::empty(),
                ..old(self)@
            }),
            held_cycles(final(self)@) == held_cycles(old(self)@),
    {
        let ghost start = self@;
        while self.call_queue.len() > 0
            invariant
                self.wf(),
                held_cycles(self@) == held_cycles(start),
                self@ == (CanisterView { balance: self@.balance, queue: self@.queue, ..start }),
                self@.balance + queue_reserve(self@.queue) == start.balance + queue_reserve(start.queue),
            decreases self.call_queue@.len(),
        {
            let ghost q = self.call_queue@;
            proof {
                lemma_queue_nonneg(q.drop_last());
                lemma_queue_nonneg(q);
            }
            let c = self.call_queue.pop().unwrap();
            proof {
                assert(self.call_queue@ =~= q.drop_last());
                assert(c == q.last());
            }
            self.balance = self.balance + MAX_CYCLES_PER_RESPONSE + c.payment;
        }
        proof {
            assert(self.call_queue@ =~= Seq::<PendingCall>::empty());
        }
    }

    /// Add `data` to the reply of the current message.
    pub fn msg_reply_data_append(&mut self, data: &[u8]) -> (r: Result<(), String>)
        requires
            old(self).wf(),
            may_reply(old(self)@.env.entry_mode) ==> old(self)@.request_id is Some,
        ensures
            final(self).wf(),
            !may_reply(old(self)@.env.entry_mode) ==> fails_with(r, denied_message("msg_reply_data_append"@, old(self)@.env))
                && final(self)@ == old(self)@,
            may_reply(old(self)@.env.entry_mode) && !old(self)@.open.contains(old(self)@.request_id->Some_0) ==> fails_with(
                r,
                "msg_reply_data_append may only be invoked before canister responses."@,
            ) && final(self)@ == old(self)@,
            may_reply(old(self)@.env.entry_mode) && old(self)@.open.contains(old(self)@.request_id->Some_0) ==> r is Ok
                && final(self)@ == (CanisterView { reply_data: old(self)@.reply_data + data@, ..old(self)@ }),
    {
        if !mode_may_reply(self.env.entry_mode) {
            return Err(denied("msg_reply_data_append", &self.env));
        }
        let message_id = match self.request_id {
            Some(id) => id,
            None => 0,
        };
        if !self.open_requests.contains(&message_id) {
            return Err(String::from_str("msg_reply_data_append may only be invoked before canister responses."));
        }
        push_bytes(&mut self.msg_reply_data, data);
        Ok(())
    }

    /// Reply to the current message with the reply data built so far,
    /// refunding the cycles it did not accept.
    pub fn msg_reply(&mut self) -> (r: Result<(), String>)
        requires
            old(self).wf(),
            may_reply(old(self)@.env.entry_mode) ==> old(self)@.request_id is Some,
        ensures
            final(self).wf(),
            !may_reply(old(self)@.env.entry_mode) ==> fails_with(r, denied_message("msg_reply"@, old(self)@.env))
                && final(self)@ == old(self)@,
            may_reply(old(self)@.env.entry_mode) && (old(self)@.reply is Some || !old(self)@.open.contains(
                old(self)@.request_id->Some_0,
            )) ==> fails_with(r, "Current call is already replied to."@) && final(self)@ == old(self)@,
            may_reply(old(self)@.env.entry_mode) && old(self)@.reply is None && old(self)@.open.contains(
                old(self)@.request_id->Some_0,
            ) ==> {
                &&& r is Ok
                &&& final(self)@.reply matches Some(CanisterReply::Reply { data, cycles_refunded }) && data@ == old(
                    self,
                )@.reply_data && cycles_refunded == old(self)@.env.cycles_available
                &&& final(self)@ == (CanisterView {
                    reply_data: Seq::empty(),
                    reply: final(self)@.reply,
                    env: Env { cycles_available: 0, ..old(self)@.env },
                    ..old(self)@
                })
            },
    {
        if !mode_may_reply(self.env.entry_mode) {
            return Err(denied("msg_reply", &self.env));
        }
        let message_id = match self.request_id {
            Some(id) => id,
            None => 0,
        };
        if self.msg_reply.is_some() || !self.open_requests.contains(&message_id) {
            return Err(String::from_str("Current call is already replied to."));
        }
        let mut data: Vec<u8> = Vec::new();
        std::mem::swap(&mut data, &mut self.msg_reply_data);
        let cycles_refunded = self.env.cycles_available;
        self.env.cycles_available = 0;
        self.msg_reply = Some(CanisterReply::Reply { data, cycles_refunded });
        Ok(())
    }

    /// Reject the current message with `message`, refunding the cycles it
    /// did not accept. The reply data built so far is dropped in any case.
    pub fn msg_reject(&mut self, message: String) -> (r: Result<(), String>)
        requires
            old(self).wf(),
            may_reply(old(self)@.env.entry_mode) ==> old(self)@.request_id is Some,
        ensures
            final(self).wf(),
            !may_reply(old(self)@.env.entry_mode) ==> fails_with(r, denied_message("msg_reject"@, old(self)@.env))
                && final(self)@ == old(self)@,
            may_reply(old(self)@.env.entry_mode) && (old(self)@.reply is Some || !old(self)@.open.contains(
                old(self)@.request_id->Some_0,
            )) ==> fails_with(r, "Current call is already replied to."@) && final(self)@ == (CanisterView {
                reply_data: Seq::empty(),
                ..old(self)@
            }),
            may_reply(old(self)@.env.entry_mode) && old(self)@.reply is None && old(self)@.open.contains(
                old(self)@.request_id->Some_0,
            ) ==> r is Ok && final(self)@ == (CanisterView {
                reply_data: Seq::empty(),
                reply: Some(
                    CanisterReply::Reject {
                        rejection_code: RejectionCode::CanisterReject,
                        rejection_message: message,
                        cycles_refunded: old(self)@.env.cycles_available,
                    },
                ),
                env: Env { cycles_available: 0, ..old(self)@.env },
                ..old(self)@
            }),
    {
        if !mode_may_reply(self.env.entry_mode) {
            return Err(denied("msg_reject", &self.env));
        }
        let message_id = match self.request_id {
            Some(id) => id,
            None => 0,
        };
        self.msg_reply_data.clear();
        if self.msg_reply.is_some() || !self.open_requests.contains(&message_id) {
            return Err(String::from_str("Current call is already replied to."));
        }
        let cycles_refunded = self.env.cycles_available;
        self.env.cycles_available = 0;
        self.msg_reply = Some(
            CanisterReply::Reject {
                rejection_code: RejectionCode::CanisterReject,
                rejection_message: message,
                cycles_refunded,
            },
        );
        Ok(())
    }

    /// Accept at most `max` of the cycles available to the message.
    fn accept_cycles(&mut self, max: u128) -> (amount: u128)
        requires
            old(self).wf(),
            old(self)@.request_id is Some,
        ensures
            final(self).wf(),
            amount == accepted_amount(old(self)@.env.cycles_available, max),
            final(self)@ == (CanisterView {
                env: Env { cycles_available: (old(self)@.env.cycles_available - amount) as u128, ..old(self)@.env },
                accepted: (old(self)@.accepted + amount) as u128,
                store: old(self)@.store.insert(
                    old(self)@.request_id->Some_0,
                    (old(self)@.env.cycles_available - amount) as u128,
                ),
                ..old(self)@
            }),
    {
        let message_id = match self.request_id {
            Some(id) => id,
            None => 0,
        };
        let amount = if self.env.cycles_available <= max { self.env.cycles_available } else { max };
        self.env.cycles_available = self.env.cycles_available - amount;
        self.cycles_accepted = self.cycles_accepted + amount;
        self.cycles_available_store.insert(message_id, self.env.cycles_available);
        amount
    }

    /// Accept at most `max_amount` of the cycles available to the message;
    /// returns the amount accepted.
    pub fn msg_cycles_accept(&mut self, max_amount: i64) -> (r: Result<i64, String>)
        requires
            old(self).wf(),
            reads_cycles(old(self)@.env.entry_mode) ==> old(self)@.request_id is Some,
        ensures
            final(self).wf(),
            !reads_cycles(old(self)@.env.entry_mode) ==> fails_with(r, denied_message("msg_cycles_accept"@, old(self)@.env))
                && final(self)@ == old(self)@,
            reads_cycles(old(self)@.env.entry_mode) ==> {
                let amount = accepted_amount(old(self)@.env.cycles_available, max_amount as u128);
                &&& r == Ok::<i64, String>(amount as i64)
                &&& final(self)@ == (CanisterView {
                    env: Env { cycles_available: (old(self)@.env.cycles_available - amount) as u128, ..old(self)@.env },
                    accepted: (old(self)@.accepted + amount) as u128,
                    store: old(self)@.store.insert(
                        old(self)@.request_id->Some_0,
                        (old(self)@.env.cycles_available - amount) as u128,
                    ),
                    ..old(self)@
                })
            },
    {
        if !mode_reads_cycles(self.env.entry_mode) {
            return Err(denied("msg_cycles_accept", &self.env));
        }
        let amount = self.accept_cycles(max_amount as u128);
        Ok(amount as i64)
    }

    /// Accept at most the 128-bit amount with the given high and low halves
    /// of the cycles available to the message; returns the amount accepted.
    pub fn msg_cycles_accept128(&mut self, max_amount_high: i64, max_amount_low: i64) -> (r: Result<u128, String>)
        requires
            old(self).wf(),
            reads_cycles(old(self)@.env.entry_mode) ==> old(self)@.request_id is Some,
        ensures
            final(self).wf(),
            !reads_cycles(old(self)@.env.entry_mode) ==> fails_with(
                r,
                denied_message("msg_cycles_accept128"@, old(self)@.env),
            ) && final(self)@ == old(self)@,
            reads_cycles(old(self)@.env.entry_mode) ==> {
                let amount = accepted_amount(
                    old(self)@.env.cycles_available,
                    u128_of_halves(max_amount_high, max_amount_low),
                );
                &&& r == Ok::<u128, String>(amount)
                &&& final(self)@ == (CanisterView {
                    env: Env { cycles_available: (old(self)@.env.cycles_available - amount) as u128, ..old(self)@.env },
                    accepted: (old(self)@.accepted + amount) as u128,
                    store: old(self)@.store.insert(
                        old(self)@.request_id->Some_0,
                        (old(self)@.env.cycles_available - amount) as u128,
                    ),
                    ..old(self)@
                })
            },
    {
        if !mode_reads_cycles(self.env.entry_mode) {
            return Err(denied("msg_cycles_accept128", &self.env));
        }
        let max = join_halves(max_amount_high, max_amount_low);
        let amount = self.accept_cycles(max);
        Ok(amount)
    }
}

impl Canister {
    /// Start a call to `method` of `callee`, with the given reply and reject
    /// callbacks; a call under construction is dropped first. The cycles for
    /// the response are set aside.
    pub fn call_new(
        &mut self,
        callee: Vec<u8>,
        method: String,
        reply_fun: isize,
        reply_env: isize,
        reject_fun: isize,
        reject_env: isize,
    ) -> (r: Result<(), String>)
        requires
            old(self).wf(),
            makes_calls(old(self)@.env.entry_mode) ==> old(self)@.request_id is Some,
        ensures
            final(self).wf(),
            held_cycles(final(self)@) == held_cycles(old(self)@),
            !makes_calls(old(self)@.env.entry_mode) ==> fails_with(r, denied_message("call_new"@, old(self)@.env))
                && final(self)@ == old(self)@,
            makes_calls(old(self)@.env.entry_mode) && without_pending(old(self)@).balance < MAX_CYCLES_PER_RESPONSE
                ==> fails_with(r, "Insufficient cycles balance to process canister response."@) && final(self)@
                == without_pending(old(self)@),
            makes_calls(old(self)@.env.entry_mode) && without_pending(old(self)@).balance >= MAX_CYCLES_PER_RESPONSE
                ==> r is Ok && final(self)@ == (CanisterView {
                balance: (without_pending(old(self)@).balance - MAX_CYCLES_PER_RESPONSE) as u128,
                pending: Some(
                    PendingCall {
                        callee,
                        method,
                        callbacks: RequestCallbacks {
                            message_id: old(self)@.request_id->Some_0,
                            reply: (reply_fun, reply_env),
                            reject: (reject_fun, reject_env),
                            cleanup: None,
                        },
                        payment: 0,
                        arg: final(self)@.pending->Some_0.arg,
                    },
                ),
                ..without_pending(old(self)@)
            }) && final(self)@.pending->Some_0.arg@ == Seq::<u8>::empty(),
    {
        if !mode_makes_calls(self.env.entry_mode) {
            return Err(denied("call_new", &self.env));
        }
        self.discard_pending_call();
        if self.balance < MAX_CYCLES_PER_RESPONSE {
            return Err(String::from_str("Insufficient cycles balance to process canister response."));
        }
        self.balance = self.balance - MAX_CYCLES_PER_RESPONSE;
        let message_id = match self.request_id {
            Some(id) => id,
            None => 0,
        };
        let callbacks = RequestCallbacks {
            message_id,
            reply: (reply_fun, reply_env),
            reject: (reject_fun, reject_env),
            cleanup: None,
        };
        self.pending_call = Some(PendingCall { callee, method, callbacks, payment: 0, arg: Vec::new() });
        Ok(())
    }

    /// Set the cleanup callback of the call under construction.
    pub fn call_on_cleanup(&mut self, fun: isize, env: isize) -> (r: Result<(), String>)
        requires
            old(self).wf(),
        ensures
            final(self).wf(),
            old(self)@.pending is None ==> fails_with(
                r,
                "call_on_cleanup cannot be called when there is no pending call."@,
            ) && final(self)@ == old(self)@,
            old(self)@.pending is Some && old(self)@.pending->Some_0.callbacks.cleanup is Some ==> fails_with(
                r,
                "call_on_cleanup cannot be invoked more than once."@,
            ) && final(self)@ == old(self)@,
            old(self)@.pending is Some && old(self)@.pending->Some_0.callbacks.cleanup is None ==> r is Ok
                && final(self)@ == (CanisterView {
                pending: Some(
                    PendingCall {
                        callbacks: RequestCallbacks {
                            cleanup: Some((fun, env)),
                            ..old(self)@.pending->Some_0.callbacks
                        },
                        ..old(self)@.pending->Some_0
                    },
                ),
                ..old(self)@
            }),
    {
        match self.pending_call.take() {
            None => Err(String::from_str("call_on_cleanup cannot be called when there is no pending call.")),
            Some(c) => {
                if c.callbacks.cleanup.is_some() {
                    self.pending_call = Some(c);
                    return Err(String::from_str("call_on_cleanup cannot be invoked more than once."));
                }
                let PendingCall { callee, method, callbacks, payment, arg } = c;
                let RequestCallbacks { message_id, reply, reject, cleanup: _ } = callbacks;
                let callbacks = RequestCallbacks { message_id, reply, reject, cleanup: Some((fun, env)) };
                self.pending_call = Some(PendingCall { callee, method, callbacks, payment, arg });
                Ok(())
            },
        }
    }

    /// Add `data` to the argument of the call under construction.
    pub fn call_data_append(&mut self, data: &[u8]) -> (r: Result<(), String>)
        requires
            old(self).wf(),
        ensures
            final(self).wf(),
            old(self)@.pending is None ==> fails_with(
                r,
                "call_data_append cannot be called when there is no pending call."@,
            ) && final(self)@ == old(self)@,
            old(self)@.pending is Some ==> r is Ok && final(self)@ == (CanisterView {
                pending: Some(PendingCall { arg: final(self)@.pending->Some_0.arg, ..old(self)@.pending->Some_0 }),
                ..old(self)@
            }) && final(self)@.pending->Some_0.arg@ == old(self)@.pending->Some_0.arg@ + data@,
    {
        match self.pending_call.take() {
            None => Err(String::from_str("call_data_append cannot be called when there is no pending call.")),
            Some(c) => {
                let PendingCall { callee, method, callbacks, payment, arg } = c;
                let mut arg = arg;
                push_bytes(&mut arg, data);
                self.pending_call = Some(PendingCall { callee, method, callbacks, payment, arg });
                Ok(())
            },
        }
    }

    /// Move `amount` cycles from the balance to the payment of the call under
    /// construction.
    fn add_payment(&mut self, amount: u128)
        requires
            old(self).wf(),
            old(self)@.pending is Some,
            amount <= old(self)@.balance,
        ensures
            final(self).wf(),
            held_cycles(final(self)@) == held_cycles(old(self)@),
            final(self)@ == (CanisterView {
                balance: (old(self)@.balance - amount) as u128,
                pending: Some(
                    PendingCall { payment: (old(self)@.pending->Some_0.payment + amount) as u128, ..old(self)@.pending->Some_0 },
                ),
                ..old(self)@
            }),
    {
        proof {
            lemma_queue_nonneg(self.call_queue@);
        }
        match self.pending_call.take() {
            None => {},
            Some(c) => {
                let PendingCall { callee, method, callbacks, payment, arg } = c;
                self.balance = self.balance - amount;
                self.pending_call = Some(PendingCall { callee, method, callbacks, payment: payment + amount, arg });
            },
        }
    }

    /// Pay `amount` cycles with the call under construction.
    pub fn call_cycles_add(&mut self, amount: i64) -> (r: Result<(), String>)
        requires
            old(self).wf(),
        ensures
            final(self).wf(),
            held_cycles(final(self)@) == held_cycles(old(self)@),
            old(self)@.pending is None ==> fails_with(
                r,
                "call_cycles_add cannot be called when there is no pending call."@,
            ) && final(self)@ == old(self)@,
            old(self)@.pending is Some && old(self)@.balance < amount as u128 ==> fails_with(
                r,
                "Insufficient cycles balance."@,
            ) && final(self)@ == old(self)@,
            old(self)@.pending is Some && old(self)@.balance >= amount as u128 ==> r is Ok && final(self)@ == (
            CanisterView {
                balance: (old(self)@.balance - amount as u128) as u128,
                pending: Some(
                    PendingCall {
                        payment: (old(self)@.pending->Some_0.payment + amount as u128) as u128,
                        ..old(self)@.pending->Some_0
                    },
                ),
                ..old(self)@
            }),
    {
        if self.pending_call.is_none() {
            return Err(String::from_str("call_cycles_add cannot be called when there is no pending call."));
        }
        let amount = amount as u128;
        if self.balance < amount {
            return Err(String::from_str("Insufficient cycles balance."));
        }
        self.add_payment(amount);
        Ok(())
    }

    /// Pay the 128-bit amount with the given high and low halves with the
    /// call under construction.
    pub fn call_cycles_add128(&mut self, amount_high: i64, amount_low: i64) -> (r: Result<(), String>)
        requires
            old(self).wf(),
        ensures
            final(self).wf(),
            held_cycles(final(self)@) == held_cycles(old(self)@),
            old(self)@.pending is None ==> fails_with(
                r,
                "call_cycles_add128 cannot be called when there is no pending call."@,
            ) && final(self)@ == old(self)@,
            old(self)@.pending is Some && old(self)@.balance < u128_of_halves(amount_high, amount_low) ==> fails_with(
                r,
                "Insufficient cycles balance."@,
            ) && final(self)@ == old(self)@,
            old(self)@.pending is Some && old(self)@.balance >= u128_of_halves(amount_high, amount_low) ==> r is Ok
                && final(self)@ == (CanisterView {
                balance: (old(self)@.balance - u128_of_halves(amount_high, amount_low)) as u128,
                pending: Some(
                    PendingCall {
                        payment: (old(self)@.pending->Some_0.payment + u128_of_halves(amount_high, amount_low)) as u128,
                        ..old(self)@.pending->Some_0
                    },
                ),
                ..old(self)@
            }),
    {
        if self.pending_call.is_none() {
            return Err(String::from_str("call_cycles_add128 cannot be called when there is no pending call."));
        }
        let amount = join_halves(amount_high, amount_low);
        if self.balance < amount {
            return Err(String::from_str("Insufficient cycles balance."));
        }
        self.add_payment(amount);
        Ok(())
    }

    /// Queue the call under construction, to be made once the message has
    /// run without trapping.
    pub fn call_perform(&mut self) -> (r: Result<i32, String>)
        requires
            old(self).wf(),
        ensures
            final(self).wf(),
            held_cycles(final(self)@) == held_cycles(old(self)@),
            old(self)@.pending is None ==> fails_with(
                r,
                "call_cycles_add128 cannot be called when there is no pending call."@,
            ) && final(self)@ == old(self)@,
            old(self)@.pending is Some ==> r == Ok::<i32, String>(0) && final(self)@ == (CanisterView {
                queue: old(self)@.queue.push(old(self)@.pending->Some_0),
                pending: None,
                ..old(self)@
            }),
    {
        match self.pending_call.take() {
            None => Err(String::from_str("call_cycles_add128 cannot be called when there is no pending call.")),
            Some(c) => {
                proof {
                    lemma_queue_push(self.call_queue@, c);
                }
                self.call_queue.push(c);
                Ok(0)
            },
        }
    }
}

/// A message to a canister.
pub enum Message {
    /// A custom task to run in the canister's context.
    CustomTask { request_id: RequestId, env: Env },
    /// A top-level request to the canister.
    Request { request_id: RequestId, env: Env },
    /// The reply or rejection of a call the canister made; the entry mode
    /// says which.
    Reply { reply_to: RequestId, env: Env },
}

/// What to run for a message.
pub enum Task {
    /// The custom task that came with the message.
    Custom,
    /// The method exported by this name.
    Method(String),
    /// The callback function, with its environment.
    Callback(isize, isize),
}

/// How a message starts: a task to run, or an answer given at once.
pub enum Start {
    Run(Task),
    Answer(CanisterReply),
}

/// The environment of a message.
pub open spec fn message_env(m: Message) -> Env {
    match m {
        Message::CustomTask { env, .. } => env,
        Message::Request { env, .. } => env,
        Message::Reply { env, .. } => env,
    }
}

/// A message that may be processed: requests come with a channel for their
/// answer, and their entry modes are those of their kind; a reply answers a
/// call the canister made.
pub open spec fn message_ok(v: CanisterView, m: Message, has_reply_channel: bool) -> bool {
    match m {
        Message::CustomTask { env, .. } => has_reply_channel && !(env.entry_mode is ReplyCallback)
            && !(env.entry_mode is RejectCallback),
        Message::Request { env, .. } => has_reply_channel && !(env.entry_mode is ReplyCallback)
            && !(env.entry_mode is RejectCallback) && !(env.entry_mode is CleanupCallback)
            && !(env.entry_mode is CustomTask),
        Message::Reply { reply_to, env } => v.outgoing.contains_key(reply_to.id()) && (env.entry_mode is ReplyCallback
            || env.entry_mode is RejectCallback),
    }
}

/// The state at the start of every message: the calls under way are
/// dropped, and no request or accepted cycles are current.
pub open spec fn reset(v: CanisterView) -> CanisterView {
    CanisterView {
        balance: held_cycles(v) as u128,
        pending: None,
        queue: Seq::empty(),
        request_id: None,
        accepted: 0,
        ..v
    }
}

/// The calls still unanswered after the reply to `reply_to`, made for the
/// request `m`, has come.
pub open spec fn answered_out(pending_out: Map<u64, Set<u64>>, m: u64, reply_to: u64) -> Map<u64, Set<u64>> {
    if pending_out[m].remove(reply_to).is_empty() {
        pending_out.remove(m)
    } else {
        pending_out.insert(m, pending_out[m].remove(reply_to))
    }
}

/// The state in which the task of a message runs, from the reset state `v`:
/// the request and its environment become current, with the cycles still
/// available to the request, and the refunded cycles are added to the
/// balance.
pub open spec fn running(v: CanisterView, id: u64, env: Env, has_reply_channel: bool) -> CanisterView {
    CanisterView {
        request_id: Some(id),
        env: Env {
            cycles_available: if v.store.contains_key(id) { v.store[id] } else { env.cycles_available },
            ..env
        },
        store: if v.store.contains_key(id) { v.store } else { v.store.insert(id, env.cycles_available) },
        balance: (v.balance + env.cycles_refunded) as u128,
        open: if has_reply_channel { v.open.insert(id) } else { v.open },
        ..v
    }
}

impl Canister {
    /// Export a method by the given name.
    pub fn with_method(self, export_name: String) -> (r: Self)
        requires
            self.wf(),
            !exports(self@.methods, export_name@),
        ensures
            r.wf(),
            r@ == (CanisterView { methods: self@.methods.push(export_name), ..self@ }),
    {
        let mut this = self;
        this.symbol_table.push(export_name);
        this
    }

    /// Set the canister's cycle balance.
    pub fn with_balance(self, balance: u128) -> (r: Self)
        requires
            self.wf(),
            balance + held_cycles(self@) - self@.balance <= u128::MAX,
        ensures
            r.wf(),
            r@ == (CanisterView { balance, ..self@ }),
    {
        let mut this = self;
        this.balance = balance;
        this
    }

    /// Start processing a message: drop what the previous message left under
    /// way, and find the task to run. A request for a method the canister
    /// does not export is rejected at once.
    pub fn begin_message(&mut self, message: Message, has_reply_channel: bool) -> (r: Start)
        requires
            old(self).wf(),
            old(self)@.reply is None,
            message_ok(old(self)@, message, has_reply_channel),
            held_cycles(old(self)@) + message_env(message).cycles_refunded <= u128::MAX,
        ensures
            final(self).wf(),
            final(self)@.reply is None,
            (match message {
                Message::CustomTask { request_id, env } => r == Start::Run(Task::Custom) && final(self)@ == running(
                    reset(old(self)@),
                    request_id.id(),
                    env,
                    has_reply_channel,
                ),
                Message::Request { request_id, env } => if exports(old(self)@.methods, entry_point_name(env)) {
                    &&& r matches Start::Run(Task::Method(name)) && name@ == entry_point_name(env)
                    &&& final(self)@ == running(reset(old(self)@), request_id.id(), env, has_reply_channel)
                } else {
                    &&& r matches Start::Answer(
                        CanisterReply::Reject { rejection_code, rejection_message, cycles_refunded },
                    ) && rejection_code == RejectionCode::DestinationInvalid && rejection_message@
                        == "Canister does not have a '"@ + method_or_empty(env.method_name) + "' method."@
                        && cycles_refunded == env.cycles_available
                    &&& final(self)@ == reset(old(self)@)
                },
                Message::Reply { reply_to, env } => {
                    let cb = old(self)@.outgoing[reply_to.id()];
                    &&& r == Start::Run(
                        if env.entry_mode is ReplyCallback {
                            Task::Callback(cb.reply.0, cb.reply.1)
                        } else {
                            Task::Callback(cb.reject.0, cb.reject.1)
                        },
                    )
                    &&& final(self)@ == running(
                        CanisterView {
                            outgoing: old(self)@.outgoing.remove(reply_to.id()),
                            pending_out: answered_out(old(self)@.pending_out, cb.message_id, reply_to.id()),
                            ..reset(old(self)@)
                        },
                        cb.message_id,
                        env,
                        has_reply_channel,
                    )
                },
            }),
    {
        self.discard_pending_call();
        self.discard_call_queue();
        self.request_id = None;
        self.cycles_accepted = 0;
        proof {
            assert(self@.queue =~= Seq::<PendingCall>::empty());
            assert(self@ == reset(old(self)@));
        }
        let ghost start = self@;
        let (id, env, task) = match message {
            Message::CustomTask { request_id, env } => (request_id.value(), env, Task::Custom),
            Message::Request { request_id, env } => {
                let name = env.get_entry_point_name();
                if !self.has_method(&name) {
                    let mut m = String::from_str("Canister does not have a '");
                    match &env.method_name {
                        Some(n) => {
                            m.append(n.as_str());
                        },
                        None => {},
                    }
                    m.append("' method.");
                    proof {
                        if env.method_name is None {
                            assert("Canister does not have a '"@ + Seq::<char>::empty() =~= "Canister does not have a '"@);
                        }
                    }
                    return Start::Answer(
                        CanisterReply::Reject {
                            rejection_code: RejectionCode::DestinationInvalid,
                            rejection_message: m,
                            cycles_refunded: env.cycles_available,
                        },
                    );
                }
                (request_id.value(), env, Task::Method(name))
            },
            Message::Reply { reply_to, env } => {
                let key = reply_to.value();
                let callbacks = self.outgoing_calls.remove(&key).unwrap();
                let id = callbacks.message_id;
                let mut set = self.pending_outgoing_requests.remove(&id).unwrap();
                set.remove(&key);
                if !set.is_empty() {
                    self.pending_outgoing_requests.insert(id, set);
                }
                let task = match env.entry_mode {
                    EntryMode::ReplyCallback => Task::Callback(callbacks.reply.0, callbacks.reply.1),
                    _ => Task::Callback(callbacks.reject.0, callbacks.reject.1),
                };
                proof {
                    assert(self@.outgoing =~= start.outgoing.remove(key));
                    assert(self@.pending_out =~= answered_out(start.pending_out, id, key));
                }
                (id, env, task)
            },
        };
        let ghost base = self@;
        self.request_id = Some(id);
        self.env = env;
        let stored = match self.cycles_available_store.get(&id) {
            Some(c) => *c,
            None => {
                let c = self.env.cycles_available;
                self.cycles_available_store.insert(id, c);
                c
            },
        };
        self.env.cycles_available = stored;
        self.balance = self.balance + self.env.cycles_refunded;
        if has_reply_channel {
            self.open_requests.insert(id);
        }
        proof {
            assert(self@.store =~= running(base, id, env, has_reply_channel).store);
            assert(self@.open =~= running(base, id, env, has_reply_channel).open);
            assert(self@.pending_out =~= base.pending_out);
            assert(self@ == running(base, id, env, has_reply_channel));
        }
        Start::Run(task)
    }
}

/// A last answer is owed to the request `id`: it is still open, and it
/// waits for no call.
pub open spec fn final_reply_due(v: CanisterView, id: u64) -> bool {
    &&& !v.pending_out.contains_key(id)
    &&& v.queue.len() == 0
    &&& v.open.contains(id)
}

/// The state after the last answer to `id`, if one is owed, was given.
pub open spec fn after_final_reply(v: CanisterView, id: u64) -> CanisterView {
    if final_reply_due(v, id) {
        CanisterView { open: v.open.remove(id), store: v.store.remove(id), ..v }
    } else {
        v
    }
}

/// The last answer, if one is owed: the request is rejected as a canister
/// error with `message`, refunding `cycles`.
pub open spec fn is_final_reply(v: CanisterView, id: u64, message: Seq<char>, cycles: u128, r: Option<(u64, CanisterReply)>) -> bool {
    if final_reply_due(v, id) {
        r matches Some((i, CanisterReply::Reject { rejection_code, rejection_message, cycles_refunded }))
            && i == id && rejection_code == RejectionCode::CanisterError && rejection_message@ == message
            && cycles_refunded == cycles
    } else {
        r is None
    }
}

/// The state after a message trapped: the calls it queued are dropped, the
/// cycles it accepted go back to the request, and its reply is dropped.
pub open spec fn after_trap(v: CanisterView) -> CanisterView {
    let id = v.request_id->Some_0;
    let available = (v.env.cycles_available + v.accepted) as u128;
    CanisterView {
        balance: (v.balance + queue_reserve(v.queue)) as u128,
        queue: Seq::empty(),
        env: Env { cycles_available: available, ..v.env },
        accepted: 0,
        store: v.store.insert(id, available),
        reply: None,
        ..v
    }
}

/// The state after the reply of a message that ran to its end was sent.
pub open spec fn after_reply(v: CanisterView) -> CanisterView {
    CanisterView {
        reply: None,
        open: if v.reply is Some { v.open.remove(v.request_id->Some_0) } else { v.open },
        ..v
    }
}

/// The `k`-th request id handed out from the counter value `c`, wrapping
/// around after the last one.
pub open spec fn nth_id(c: u64, k: int) -> u64 {
    ((c + k) % 0x1_0000_0000_0000_0000) as u64
}

/// `o` is one of the first `n` request ids handed out from `c`.
pub open spec fn new_id(c: u64, n: int, o: u64) -> bool {
    exists|k: int| 0 <= k < n && nth_id(c, k) == o
}

/// The calls queued in `before`, made for the request `id`, are recorded in
/// `after` under the request ids handed out from `c`: each with its
/// callbacks, and each listed as unanswered for `id`.
pub open spec fn calls_recorded(before: CanisterView, after: CanisterView, id: u64, c: u64) -> bool {
    let q = before.queue;
    &&& forall|k: int| 0 <= k < q.len() ==> after.outgoing.contains_key(#[trigger] nth_id(c, k)) && after.outgoing[nth_id(c, k)]
        == q[k].callbacks
    &&& forall|o: u64| !new_id(c, q.len() as int, o) ==> (#[trigger] after.outgoing.contains_key(o)
        == before.outgoing.contains_key(o) && (before.outgoing.contains_key(o) ==> after.outgoing[o] == before.outgoing[o]))
    &&& q.len() > 0 ==> after.pending_out.contains_key(id) && after.pending_out[id] == (if before.pending_out.contains_key(id) {
        before.pending_out[id]
    } else {
        Set::empty()
    }).union(Set::new(|o: u64| new_id(c, q.len() as int, o)))
    &&& forall|m: u64| m != id ==> (#[trigger] after.pending_out.contains_key(m) == before.pending_out.contains_key(m)
        && (before.pending_out.contains_key(m) ==> after.pending_out[m] == before.pending_out[m]))
    &&& q.len() == 0 ==> after.pending_out == before.pending_out
    &&& after == (CanisterView { outgoing: after.outgoing, pending_out: after.pending_out, queue: Seq::empty(), ..before })
}

/// `calls` are the calls queued in `q`, in order, sent by `sender` under the
/// request ids handed out from `c`.
pub open spec fn calls_made(calls: Seq<CanisterCall>, q: Seq<PendingCall>, sender: Seq<u8>, c: u64) -> bool {
    &&& calls.len() == q.len()
    &&& forall|k: int| 0 <= k < q.len() ==> {
        &&& (#[trigger] calls[k]).sender@ == sender
        &&& calls[k].request_id.id() == nth_id(c, k)
        &&& calls[k].callee == q[k].callee
        &&& calls[k].method == q[k].method
        &&& calls[k].payment == q[k].payment
        &&& calls[k].arg == q[k].arg
    }
}

impl Canister {
    /// Give the last answer to the current request, if one is owed: the
    /// request is rejected with the trap message, or because the canister
    /// did not reply.
    fn maybe_final_reply(&mut self, trap_message: Option<String>, cycles: u128) -> (r: Option<(u64, CanisterReply)>)
        requires
            old(self).wf(),
            old(self)@.request_id is Some,
            old(self)@.reply is None,
        ensures
            final(self).wf(),
            final(self)@ == after_final_reply(old(self)@, old(self)@.request_id->Some_0),
            is_final_reply(
                old(self)@,
                old(self)@.request_id->Some_0,
                match trap_message {
                    Some(m) => m@,
                    None => "Canister did not reply to the call"@,
                },
                cycles,
                r,
            ),
    {
        let id = match self.request_id {
            Some(id) => id,
            None => 0,
        };
        if self.pending_outgoing_requests.contains_key(&id) || self.call_queue.len() > 0 {
            return None;
        }
        if !self.open_requests.contains(&id) {
            return None;
        }
        self.open_requests.remove(&id);
        self.cycles_available_store.remove(&id);
        let message = match trap_message {
            Some(m) => m,
            None => String::from_str("Canister did not reply to the call"),
        };
        proof {
            assert(self@.open =~= old(self)@.open.remove(id));
            assert(self@.store =~= old(self)@.store.remove(id));
        }
        Some((id, CanisterReply::Reject { rejection_code: RejectionCode::CanisterError, rejection_message: message, cycles_refunded: cycles }))
    }

    /// Record the queued calls as made under fresh request ids, and hand
    /// them out.
    #[verifier::spinoff_prover]
    fn send_calls(&mut self, counter: &mut u64) -> (calls: Vec<CanisterCall>)
        requires
            old(self).wf(),
            old(self)@.request_id is Some,
        ensures
            final(self).wf(),
            calls_recorded(old(self)@, final(self)@, old(self)@.request_id->Some_0, *old(counter)),
            calls_made(calls@, old(self)@.queue, old(self)@.id, *old(counter)),
            *final(counter) == nth_id(*old(counter), old(self)@.queue.len() as int),
    {
        let ghost start = self@;
        let ghost c0 = *counter;
        let ghost q = self.call_queue@;
        let id = match self.request_id {
            Some(id) => id,
            None => 0,
        };
        let mut queue: Vec<PendingCall> = Vec::new();
        std::mem::swap(&mut queue, &mut self.call_queue);
        let mut calls: Vec<CanisterCall> = Vec::new();
        let mut k: usize = 0;
        let n = queue.len();
        proof {
            assert(q.subrange(0, n as int) =~= q);
        }
        while k < n
            invariant
                n == q.len(),
                k <= n,
                queue@ == q.subrange(k as int, n as int),
                self.request_id == Some(id),
                *counter == nth_id(c0, k as int),
                self@ == (CanisterView { outgoing: self@.outgoing, pending_out: self@.pending_out, queue: Seq::empty(), ..start }),
                calls_made(calls@, q.subrange(0, k as int), start.id, c0),
                calls_recorded(
                    CanisterView { queue: q.subrange(0, k as int), ..start },
                    self@,
                    id,
                    c0,
                ),
                forall|o: u64| #[trigger] self.outgoing_calls@.contains_key(o) ==> {
                    let m = self.outgoing_calls@[o].message_id;
                    self.pending_outgoing_requests@.contains_key(m) && self.pending_outgoing_requests@[m]@.contains(o)
                },
                forall|i: int| 0 <= i < q.len() ==> (#[trigger] q[i]).callbacks.message_id == id,
            decreases n - k,
        {
            let ghost before = self@;
            let c = queue.remove(0);
            proof {
                assert(c == q[k as int]);
                assert(queue@ =~= q.subrange(k + 1, n as int));
            }
            let rid = RequestId::new(counter);
            let key = rid.value();
            let mut set = match self.pending_outgoing_requests.remove(&id) {
                Some(s) => s,
                None => HashSet::new(),
            };
            set.insert(key);
            self.pending_outgoing_requests.insert(id, set);
            let PendingCall { callee, method, callbacks, payment, arg } = c;
            self.outgoing_calls.insert(key, callbacks);
            let sender = copy_bytes(self.canister_id.as_slice());
            calls.push(CanisterCall { sender, request_id: rid, callee, method, payment, arg });
            proof {
                assert(key == nth_id(c0, k as int));
                assert(*counter == nth_id(c0, k + 1)) by {
                    assert(nth_id(c0, k as int) == u64::MAX ==> nth_id(c0, k + 1) == 0);
                }
                let pk = q.subrange(0, k + 1);
                assert(pk =~= q.subrange(0, k as int).push(q[k as int]));
                assert forall|o: u64| new_id(c0, k + 1, o) <==> (new_id(c0, k as int, o) || o == key) by {
                    if new_id(c0, k + 1, o) {
                        let j = choose|j: int| 0 <= j < k + 1 && nth_id(c0, j) == o;
                        if j < k {
                            assert(new_id(c0, k as int, o));
                        }
                    }
                    if o == key {
                        assert(nth_id(c0, k as int) == o);
                    }
                    if new_id(c0, k as int, o) {
                        let j = choose|j: int| 0 <= j < k && nth_id(c0, j) == o;
                        assert(0 <= j < k + 1 && nth_id(c0, j) == o);
                    }
                }
                assert forall|j: int| 0 <= j < k implies nth_id(c0, j) != key by {
                    assert(0 <= c0 + j < c0 + k < c0 + n);
                    assert(n <= usize::MAX);
                }
                assert(calls_made(calls@, pk, start.id, c0)) by {
                    assert forall|j: int| 0 <= j < pk.len() implies {
                        &&& (#[trigger] calls@[j]).sender@ == start.id
                        &&& calls@[j].request_id.id() == nth_id(c0, j)
                        &&& calls@[j].callee == pk[j].callee
                        &&& calls@[j].method == pk[j].method
                        &&& calls@[j].payment == pk[j].payment
                        &&& calls@[j].arg == pk[j].arg
                    } by {
                        if j < k {
                            assert(pk[j] == q.subrange(0, k as int)[j]);
                        }
                    }
                }
                let prev_set = if before.pending_out.contains_key(id) { before.pending_out[id] } else { Set::<u64>::empty() };
                assert(self@.pending_out[id] =~= prev_set.insert(key));
                let base = CanisterView { queue: q.subrange(0, k as int), ..start };
                let base2 = CanisterView { queue: pk, ..start };
                let init_set = if start.pending_out.contains_key(id) { start.pending_out[id] } else { Set::<u64>::empty() };
                if k == 0 {
                    assert(before.pending_out == start.pending_out);
                    assert(prev_set == init_set);
                } else {
                    assert(prev_set == init_set.union(Set::new(|o: u64| new_id(c0, k as int, o))));
                }
                assert(self@.pending_out[id] =~= init_set.union(Set::new(|o: u64| new_id(c0, k + 1, o))));
                assert forall|m: u64| m != id implies (#[trigger] self@.pending_out.contains_key(m) == start.pending_out.contains_key(m)
                    && (start.pending_out.contains_key(m) ==> self@.pending_out[m] == start.pending_out[m])) by {
                    assert(self@.pending_out.contains_key(m) == before.pending_out.contains_key(m));
                    if before.pending_out.contains_key(m) {
                        assert(self@.pending_out[m] == before.pending_out[m]);
                    }
                }
                assert forall|o: u64| !new_id(c0, k + 1, o) implies (#[trigger] self@.outgoing.contains_key(o)
                    == start.outgoing.contains_key(o) && (start.outgoing.contains_key(o) ==> self@.outgoing[o] == start.outgoing[o])) by {
                    assert(!new_id(c0, k as int, o) && o != key);
                }
                assert forall|j: int| 0 <= j < pk.len() implies self@.outgoing.contains_key(#[trigger] nth_id(c0, j))
                    && self@.outgoing[nth_id(c0, j)] == pk[j].callbacks by {
                    if j < k {
                        assert(nth_id(c0, j) != key);
                        assert(pk[j] == base.queue[j]);
                    }
                }
                assert(calls_recorded(base2, self@, id, c0));
                assert forall|o: u64| #[trigger] self.outgoing_calls@.contains_key(o) implies {
                    let m = self.outgoing_calls@[o].message_id;
                    self.pending_outgoing_requests@.contains_key(m) && self.pending_outgoing_requests@[m]@.contains(o)
                } by {
                    if o != key {
                        let m = before.outgoing[o].message_id;
                        if m != id {
                            assert(self@.pending_out[m] == before.pending_out[m]);
                        }
                    }
                }
            }
            k = k + 1;
        }
        proof {
            assert(q.subrange(0, n as int) =~= q);
            lemma_queue_nonneg(q);
        }
        calls
    }
}

impl Canister {
    /// Finish processing the current message once its task has run, trapping
    /// with `trap_message` or not: the call under construction is dropped.
    /// After a trap, the calls the message queued and its reply are dropped,
    /// and the cycles it accepted go back to the request. Otherwise its reply
    /// is sent, and its queued calls are made under fresh request ids from
    /// `counter`. In both cases a request that is owed a last answer, with
    /// no reply and no calls under way, is rejected. Returns the answers to
    /// send, each with its request, and the calls made.
    pub fn finish_message(&mut self, trap_message: Option<String>, counter: &mut u64) -> (r: (
        Vec<(u64, CanisterReply)>,
        Vec<CanisterCall>,
    ))
        requires
            old(self).wf(),
            old(self)@.request_id is Some,
        ensures
            final(self).wf(),
            final(self)@.reply is None,
            r.0@.len() <= 1,
            forall|i: int| 0 <= i < r.0@.len() ==> (#[trigger] r.0@[i]).0 == old(self)@.request_id->Some_0
                && old(self)@.open.contains(r.0@[i].0) && !final(self)@.open.contains(r.0@[i].0),
            (match trap_message {
                Some(m) => {
                    let v = after_trap(without_pending(old(self)@));
                    let id = v.request_id->Some_0;
                    &&& final(self)@ == after_final_reply(v, id)
                    &&& r.0@.len() == (if final_reply_due(v, id) { 1int } else { 0int })
                    &&& final_reply_due(v, id) ==> is_final_reply(v, id, m@, v.env.cycles_available, Some(r.0@[0]))
                    &&& r.1@.len() == 0
                    &&& *final(counter) == *old(counter)
                },
                None => {
                    let v0 = without_pending(old(self)@);
                    let v = after_reply(v0);
                    let id = v.request_id->Some_0;
                    let k = if v0.reply is Some { 1int } else { 0int };
                    &&& r.0@.len() == k + (if final_reply_due(v, id) { 1int } else { 0int })
                    &&& v0.reply is Some ==> r.0@[0] == (id, v0.reply->Some_0)
                    &&& final_reply_due(v, id) ==> is_final_reply(
                        v,
                        id,
                        "Canister did not reply to the call"@,
                        v.env.cycles_available,
                        Some(r.0@[k]),
                    )
                    &&& calls_recorded(after_final_reply(v, id), final(self)@, id, *old(counter))
                    &&& calls_made(r.1@, v.queue, v.id, *old(counter))
                    &&& *final(counter) == nth_id(*old(counter), v.queue.len() as int)
                },
            }),
    {
        self.discard_pending_call();
        let id = match self.request_id {
            Some(id) => id,
            None => 0,
        };
        let mut answers: Vec<(u64, CanisterReply)> = Vec::new();
        match trap_message {
            Some(m) => {
                self.discard_call_queue();
                self.env.cycles_available = self.env.cycles_available + self.cycles_accepted;
                self.cycles_accepted = 0;
                self.cycles_available_store.insert(id, self.env.cycles_available);
                self.msg_reply = None;
                proof {
                    assert(self@ == after_trap(without_pending(old(self)@)));
                }
                let ghost v = self@;
                let cycles = self.env.cycles_available;
                let last = self.maybe_final_reply(Some(m), cycles);
                match last {
                    Some(a) => {
                        answers.push(a);
                    },
                    None => {},
                }
                proof {
                    assert(final_reply_due(v, id) ==> answers@[0] == last->Some_0);
                }
                (answers, Vec::new())
            },
            None => {
                let ghost v0 = self@;
                match self.msg_reply.take() {
                    Some(reply) => {
                        self.open_requests.remove(&id);
                        answers.push((id, reply));
                    },
                    None => {},
                }
                proof {
                    assert(self@.open =~= after_reply(v0).open);
                    assert(self@ == after_reply(v0));
                }
                let ghost v = self@;
                let cycles = self.env.cycles_available;
                let last = self.maybe_final_reply(None, cycles);
                let ghost k = answers@.len();
                match last {
                    Some(a) => {
                        answers.push(a);
                    },
                    None => {},
                }
                proof {
                    assert(final_reply_due(v, id) ==> answers@[k as int] == last->Some_0);
                }
                let calls = self.send_calls(counter);
                (answers, calls)
            },
        }
    }
}

impl CallReply {
    /// The message that delivers this reply, to the call `reply_to`, to the
    /// canister that made the call: a reply callback with the data as its
    /// argument, or a reject callback with the rejection; the refunded cycles
    /// go with either.
    pub fn to_message(self, reply_to: RequestId, time: u64) -> (r: Message)
        ensures
            (match self {
                CallReply::Reply { data, cycles_refunded } => r == Message::Reply {
                    reply_to,
                    env: Env {
                        entry_mode: EntryMode::ReplyCallback,
                        args: data,
                        cycles_refunded,
                        ..message_env(r)
                    },
                },
                CallReply::Reject { rejection_code, rejection_message, cycles_refunded } => r == Message::Reply {
                    reply_to,
                    env: Env {
                        entry_mode: EntryMode::RejectCallback,
                        cycles_refunded,
                        rejection_code,
                        rejection_message,
                        ..message_env(r)
                    },
                },
            }),
            message_env(r).time == time,
            message_env(r).cycles_available == 0,
            message_env(r).balance == DEFAULT_PROVISIONAL_CYCLES_BALANCE,
            message_env(r).sender@ == anonymous_principal(),
            message_env(r).method_name is None,
            self is Reject ==> message_env(r).args@ == candid_empty_arg(),
            self is Reply ==> message_env(r).rejection_code == RejectionCode::NoError
                && message_env(r).rejection_message@ == Seq::<char>::empty(),
    {
        match self {
            CallReply::Reply { data, cycles_refunded } => Message::Reply {
                reply_to,
                env: Env::new(time).with_entry_mode(EntryMode::ReplyCallback).with_raw_args(data).with_cycles_refunded(
                    cycles_refunded,
                ),
            },
            CallReply::Reject { rejection_code, rejection_message, cycles_refunded } => Message::Reply {
                reply_to,
                env: Env::new(time).with_entry_mode(EntryMode::RejectCallback).with_cycles_refunded(
                    cycles_refunded,
                ).with_rejection_code(rejection_code).with_rejection_message(rejection_message),
            },
        }
    }
}

impl CanisterCall {
    /// The request that delivers this call to the callee: an update call to
    /// the method, from the sender, with the payment as the cycles available
    /// and the argument as is.
    pub fn to_message(self, time: u64) -> (r: Message)
        ensures
            r == (Message::Request {
                request_id: self.request_id,
                env: Env {
                    entry_mode: EntryMode::Update,
                    sender: self.sender,
                    method_name: Some(self.method),
                    cycles_available: self.payment,
                    args: self.arg,
                    ..message_env(r)
                },
            }),
            message_env(r).time == time,
            message_env(r).cycles_refunded == 0,
            message_env(r).balance == DEFAULT_PROVISIONAL_CYCLES_BALANCE,
            message_env(r).rejection_code == RejectionCode::NoError,
            message_env(r).rejection_message@ == Seq::<char>::empty(),
    {
        let CanisterCall { sender, request_id, callee: _, method, payment, arg } = self;
        Message::Request {
            request_id,
            env: Env::new(time).with_entry_mode(EntryMode::Update).with_sender(sender).with_method_name(
                method,
            ).with_cycles_available(payment).with_raw_args(arg),
        }
    }
}

/// A call to a canister, being put together by a test.
pub struct CallBuilder {
    canister_id: Vec<u8>,
    method_name: String,
    sender: Vec<u8>,
    payment: u128,
    arg: Option<Vec<u8>>,
}

impl CallBuilder {
    /// The callee.
    pub closed spec fn callee(&self) -> Seq<u8> {
        self.canister_id@
    }

    /// The method called.
    pub closed spec fn method(&self) -> String {
        self.method_name
    }

    /// The caller.
    pub closed spec fn caller(&self) -> Seq<u8> {
        self.sender@
    }

    /// The cycles sent with the call.
    pub closed spec fn payment(&self) -> u128 {
        self.payment
    }

    /// The argument of the call, if it was set.
    pub closed spec fn arg(&self) -> Option<Seq<u8>> {
        match self.arg {
            Some(a) => Some(a@),
            None => None,
        }
    }

    /// A call to `method_name` of `canister_id`, from the anonymous
    /// principal, with no cycles and no argument set yet.
    pub fn new(canister_id: Vec<u8>, method_name: String) -> (r: Self)
        ensures
            r.callee() == canister_id@,
            r.method() == method_name,
            r.caller() == anonymous_principal(),
            r.payment() == 0,
            r.arg() is None,
    {
        let sender: Vec<u8> = vec![4u8];
        proof {
            assert(sender@ =~= anonymous_principal());
        }
        CallBuilder { canister_id, method_name, sender, payment: 0, arg: None }
    }

    /// Use the given bytes as the argument of the call, as they are; the
    /// argument may only be set once.
    pub fn with_arg_raw(self, argument: Vec<u8>) -> (r: Self)
        requires
            self.arg() is None,
        ensures
            r.arg() == Some(argument@),
            r.callee() == self.callee() && r.method() == self.method() && r.caller() == self.caller()
                && r.payment() == self.payment(),
    {
        CallBuilder { arg: Some(argument), ..self }
    }

    /// Send the given cycles with the call.
    pub fn with_payment(self, cycles: u128) -> (r: Self)
        ensures
            r.payment() == cycles,
            r.callee() == self.callee() && r.method() == self.method() && r.caller() == self.caller()
                && r.arg() == self.arg(),
    {
        CallBuilder { payment: cycles, ..self }
    }

    /// Make the call from the given principal.
    pub fn with_caller(self, caller: Vec<u8>) -> (r: Self)
        ensures
            r.caller() == caller@,
            r.callee() == self.callee() && r.method() == self.method() && r.payment() == self.payment()
                && r.arg() == self.arg(),
    {
        CallBuilder { sender: caller, ..self }
    }

    /// The call to make, under a fresh request id from `counter`; without an
    /// argument set, the empty argument list is sent.
    pub fn to_call(&self, counter: &mut u64) -> (r: CanisterCall)
        ensures
            r.sender@ == self.caller(),
            r.request_id.id() == *old(counter),
            *final(counter) == nth_id(*old(counter), 1),
            r.callee@ == self.callee(),
            r.method@ == self.method()@,
            r.payment == self.payment(),
            r.arg@ == match self.arg() {
                Some(a) => a,
                None => candid_empty_arg(),
            },
    {
        let request_id = RequestId::new(counter);
        let arg = match &self.arg {
            Some(a) => copy_bytes(a.as_slice()),
            None => {
                let v: Vec<u8> = vec![68u8, 73u8, 68u8, 76u8, 0u8, 0u8];
                proof {
                    assert(v@ =~= candid_empty_arg());
                }
                v
            },
        };
        CanisterCall {
            sender: copy_bytes(self.sender.as_slice()),
            request_id,
            callee: copy_bytes(self.canister_id.as_slice()),
            method: self.method_name.clone(),
            payment: self.payment,
            arg,
        }
    }
}

} // verus!
