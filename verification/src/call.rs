//! The replies of inter-canister calls, their rejection codes and errors,
//! and the identifiers of requests, canisters and entry points.

use vstd::prelude::*;

verus! {

/// Rejection code from calling another canister.
#[derive(Debug, Clone, Copy, PartialEq, Eq, Structural)]
pub enum RejectionCode {
    NoError,
    SysFatal,
    SysTransient,
    DestinationInvalid,
    CanisterReject,
    CanisterError,
    Unknown,
}

/// The rejection code of a numeric code, as the system interface numbers
/// them; any other number is `Unknown`.
pub open spec fn rejection_code_of(code: i32) -> RejectionCode {
    if code == 0 {
        RejectionCode::NoError
    } else if code == 1 {
        RejectionCode::SysFatal
    } else if code == 2 {
        RejectionCode::SysTransient
    } else if code == 3 {
        RejectionCode::DestinationInvalid
    } else if code == 4 {
        RejectionCode::CanisterReject
    } else if code == 5 {
        RejectionCode::CanisterError
    } else {
        RejectionCode::Unknown
    }
}

impl From<i32> for RejectionCode {
    fn from(code: i32) -> (r: RejectionCode) {
        match code {
            0 => RejectionCode::NoError,
            1 => RejectionCode::SysFatal,
            2 => RejectionCode::SysTransient,
            3 => RejectionCode::DestinationInvalid,
            4 => RejectionCode::CanisterReject,
            5 => RejectionCode::CanisterError,
            _ => RejectionCode::Unknown,
        }
    }
}

impl vstd::std_specs::convert::FromSpecImpl<i32> for RejectionCode {
    open spec fn obeys_from_spec() -> bool {
        true
    }

    open spec fn from_spec(code: i32) -> RejectionCode {
        rejection_code_of(code)
    }
}

impl From<u32> for RejectionCode {
    /// The code read as an `i32` (so that codes past `i32::MAX` wrap to
    /// negative numbers, which are `Unknown`).
    fn from(code: u32) -> (r: RejectionCode) {
        if code <= 5 {
            RejectionCode::from(code as i32)
        } else {
            assert((code as i32) < 0 || (code as i32) > 5) by (bit_vector)
                requires
                    code > 5,
            ;
            RejectionCode::Unknown
        }
    }
}

impl vstd::std_specs::convert::FromSpecImpl<u32> for RejectionCode {
    open spec fn obeys_from_spec() -> bool {
        true
    }

    open spec fn from_spec(code: u32) -> RejectionCode {
        rejection_code_of(code as i32)
    }
}

impl RejectionCode {
    /// The numeric code of the rejection code (`Unknown` has none of its own;
    /// it is given 6, the next free one).
    pub fn code(&self) -> (r: i32)
        ensures
            r == code_number(*self),
            0 <= r <= 6,
            r < 6 ==> rejection_code_of(r) == *self,
            r == 6 <==> *self == RejectionCode::Unknown,
    {
        match self {
            RejectionCode::NoError => 0,
            RejectionCode::SysFatal => 1,
            RejectionCode::SysTransient => 2,
            RejectionCode::DestinationInvalid => 3,
            RejectionCode::CanisterReject => 4,
            RejectionCode::CanisterError => 5,
            RejectionCode::Unknown => 6,
        }
    }

    /// The name of the rejection code.
    pub fn name(&self) -> (r: &'static str)
        ensures
            r@ == rejection_code_name(*self),
    {
        let r = match self {
            RejectionCode::NoError => "NoError",
            RejectionCode::SysFatal => "SysFatal",
            RejectionCode::SysTransient => "SysTransient",
            RejectionCode::DestinationInvalid => "DestinationInvalid",
            RejectionCode::CanisterReject => "CanisterReject",
            RejectionCode::CanisterError => "CanisterError",
            RejectionCode::Unknown => "Unknown",
        };
        r
    }
}

/// The number of a rejection code, as the system interface numbers them;
/// `Unknown` is given 6, the next free one.
pub open spec fn code_number(c: RejectionCode) -> i32 {
    match c {
        RejectionCode::NoError => 0,
        RejectionCode::SysFatal => 1,
        RejectionCode::SysTransient => 2,
        RejectionCode::DestinationInvalid => 3,
        RejectionCode::CanisterReject => 4,
        RejectionCode::CanisterError => 5,
        RejectionCode::Unknown => 6,
    }
}

/// The name of a rejection code.
pub open spec fn rejection_code_name(c: RejectionCode) -> Seq<char> {
    match c {
        RejectionCode::NoError => "NoError"@,
        RejectionCode::SysFatal => "SysFatal"@,
        RejectionCode::SysTransient => "SysTransient"@,
        RejectionCode::DestinationInvalid => "DestinationInvalid"@,
        RejectionCode::CanisterReject => "CanisterReject"@,
        RejectionCode::CanisterError => "CanisterError"@,
        RejectionCode::Unknown => "Unknown"@,
    }
}

/// The error of a call to another canister.
#[derive(Debug, PartialEq, Eq)]
pub enum CallError {
    /// The call could not be sent, so it is not queued.
    CouldNotSend,
    /// The call was rejected, with the given rejection code and message.
    Rejected(RejectionCode, String),
    /// The call succeeded, but its response could not be deserialized; the
    /// raw response is kept here.
    ResponseDeserializationError(Vec<u8>),
}

impl CallError {
    /// The message that describes the error.
    pub fn to_string(&self) -> (r: String)
        ensures
            r@ == (match self {
                CallError::CouldNotSend => "Could not send message"@,
                CallError::Rejected(c, m) => "Call rejected (code="@ + rejection_code_name(*c) + "): '"@ + m@ + "'"@,
                CallError::ResponseDeserializationError(_) => "Could not deserialize the response."@,
            }),
    {
        match self {
            CallError::CouldNotSend => String::from_str("Could not send message"),
            CallError::Rejected(c, m) => {
                let mut s = String::from_str("Call rejected (code=");
                s.append(c.name());
                s.append("): '");
                s.append(m.as_str());
                s.append("'");
                s
            },
            CallError::ResponseDeserializationError(_) => String::from_str("Could not deserialize the response."),
        }
    }
}

/// The reply to a call: the data and the refunded cycles, or a rejection.
#[derive(Debug)]
pub enum CallReply {
    Reply { data: Vec<u8>, cycles_refunded: u128 },
    Reject { rejection_code: RejectionCode, rejection_message: String, cycles_refunded: u128 },
}

/// A reply by the canister.
#[derive(Debug)]
pub enum CanisterReply {
    Reply { data: Vec<u8>, cycles_refunded: u128 },
    Reject { rejection_code: RejectionCode, rejection_message: String, cycles_refunded: u128 },
}

impl CallReply {
    /// The raw response bytes of the reply, or the rejection as an error.
    pub fn bytes(&self) -> (r: Result<&[u8], CallError>)
        ensures
            (match self {
                CallReply::Reply { data, .. } => r matches Ok(b) && b@ == data@,
                CallReply::Reject { rejection_code, rejection_message, .. } => r matches Err(
                    CallError::Rejected(c, m),
                ) && c == *rejection_code && m@ == rejection_message@,
            }),
    {
        match self {
            CallReply::Reply { data, .. } => Ok(data.as_slice()),
            CallReply::Reject { rejection_code, rejection_message, .. } => Err(
                CallError::Rejected(*rejection_code, rejection_message.clone()),
            ),
        }
    }

    /// The rejection code of the reply; `NoError` where the call succeeded.
    pub fn rejection_code(&self) -> (r: RejectionCode)
        ensures
            r == (match self {
                CallReply::Reply { .. } => RejectionCode::NoError,
                CallReply::Reject { rejection_code, .. } => *rejection_code,
            }),
    {
        match self {
            CallReply::Reply { .. } => RejectionCode::NoError,
            CallReply::Reject { rejection_code, .. } => *rejection_code,
        }
    }

    /// The rejection message, where the call was rejected.
    pub fn rejection_message(&self) -> (r: Option<&str>)
        ensures
            (match self {
                CallReply::Reply { .. } => r is None,
                CallReply::Reject { rejection_message, .. } => r matches Some(m) && m@ == rejection_message@,
            }),
    {
        match self {
            CallReply::Reply { .. } => None,
            CallReply::Reject { rejection_message, .. } => Some(rejection_message.as_str()),
        }
    }

    /// The number of cycles refunded to the caller.
    pub fn cycles_refunded(&self) -> (r: u128)
        ensures
            r == (match self {
                CallReply::Reply { cycles_refunded, .. } => *cycles_refunded,
                CallReply::Reject { cycles_refunded, .. } => *cycles_refunded,
            }),
    {
        match self {
            CallReply::Reply { cycles_refunded, .. } => *cycles_refunded,
            CallReply::Reject { cycles_refunded, .. } => *cycles_refunded,
        }
    }

    /// Whether the call succeeded.
    pub fn is_ok(&self) -> (r: bool)
        ensures
            r == (self is Reply),
    {
        match self {
            CallReply::Reply { .. } => true,
            CallReply::Reject { .. } => false,
        }
    }

    /// Whether the call was rejected.
    pub fn is_error(&self) -> (r: bool)
        ensures
            r == (self is Reject),
    {
        match self {
            CallReply::Reply { .. } => false,
            CallReply::Reject { .. } => true,
        }
    }

    /// Assert the call succeeded (the caller must know it did).
    pub fn assert_ok(&self)
        requires
            self is Reply,
    {
        let ok = self.is_ok();
        assert(ok);
    }

    /// Assert the call was rejected (the caller must know it was).
    pub fn assert_error(&self)
        requires
            self is Reject,
    {
        let rejected = self.is_error();
        assert(rejected);
    }
}

/// An opaque request id.
#[derive(Debug, Clone, Copy, PartialEq, Eq, PartialOrd, Ord, Hash)]
pub struct RequestId(u64);

impl RequestId {
    /// The number of the id.
    pub closed spec fn id(&self) -> u64 {
        self.0
    }

    /// A new request id, taken from the counter of ids handed out so far,
    /// which moves on by one (wrapping around after the last one).
    pub fn new(counter: &mut u64) -> (r: Self)
        ensures
            r.id() == *old(counter),
            *final(counter) == (if *old(counter) == u64::MAX { 0 } else { (*old(counter) + 1) as u64 }),
    {
        let id = *counter;
        *counter = counter.wrapping_add(1);
        RequestId(id)
    }

    /// The number of the id.
    pub fn value(&self) -> (r: u64)
        ensures
            r == self.id(),
    {
        self.0
    }
}

/// A canister ID.
#[derive(Debug, Clone, Copy, PartialEq, Eq)]
pub struct CanisterId(pub u64);

impl CanisterId {
    /// The bytes of the principal of the canister: the id in big-endian
    /// bytes, then a 1.
    pub fn principal_bytes(&self) -> (r: Vec<u8>)
        ensures
            r@ == crate::label::u64_be(self.0).push(1u8),
    {
        let mut v = crate::label::u64_to_be(self.0);
        v.push(1u8);
        v
    }
}

/// The entry method for a request.
#[derive(Debug, PartialEq, Eq, Copy, Clone, Structural)]
pub enum EntryMode {
    Init,
    PreUpgrade,
    PostUpgrade,
    Heartbeat,
    InspectMessage,
    Update,
    Query,
    ReplyCallback,
    RejectCallback,
    CleanupCallback,
    CustomTask,
}

/// The kinds of entry points of a canister.
#[derive(Debug, Copy, Clone, PartialEq, Eq, Structural)]
pub enum EntryPoint {
    Init,
    PreUpgrade,
    PostUpgrade,
    InspectMessage,
    Heartbeat,
    Update,
    Query,
}

impl EntryPoint {
    /// Whether the entry point is a lifecycle hook rather than a method.
    pub fn is_lifecycle(&self) -> (r: bool)
        ensures
            r == !(*self == EntryPoint::Update || *self == EntryPoint::Query),
    {
        match self {
            EntryPoint::Update | EntryPoint::Query => false,
            _ => true,
        }
    }

    /// Whether the entry point is the inspect-message hook.
    pub fn is_inspect_message(&self) -> (r: bool)
        ensures
            r == (*self == EntryPoint::InspectMessage),
    {
        match self {
            EntryPoint::InspectMessage => true,
            _ => false,
        }
    }

    /// The name of the entry point.
    pub fn name(&self) -> (r: &'static str)
        ensures
            r@ == (match self {
                EntryPoint::Init => "init"@,
                EntryPoint::PreUpgrade => "pre_upgrade"@,
                EntryPoint::PostUpgrade => "post_upgrade"@,
                EntryPoint::InspectMessage => "inspect_message"@,
                EntryPoint::Heartbeat => "heartbeat"@,
                EntryPoint::Update => "update"@,
                EntryPoint::Query => "query"@,
            }),
    {
        match self {
            EntryPoint::Init => "init",
            EntryPoint::PreUpgrade => "pre_upgrade",
            EntryPoint::PostUpgrade => "post_upgrade",
            EntryPoint::InspectMessage => "inspect_message",
            EntryPoint::Heartbeat => "heartbeat",
            EntryPoint::Update => "update",
            EntryPoint::Query => "query",
        }
    }
}

/// A method exported by a canister.
pub trait CanisterMethod {
    /// The name the method is exported by in the WASM binary, such as
    /// `canister_init` or `canister_update increment`.
    fn export_name() -> &'static str;

    /// The exported method, of type `() -> ()`, which deserializes the
    /// arguments and serializes the response around the canister method.
    fn exported_method();
}

/// A marker for any type whose content can be copied to stable storage as
/// it is.
pub trait StableCopy {}

impl<T: Copy> StableCopy for T {}

} // verus!
