//! The bookkeeping of a local replica: the canisters it created and
//! installed, the principal each new canister gets, and where a request to a
//! canister goes. Delivering messages to the canisters happens outside this
//! module.
use vstd::prelude::*;
use crate::call::{CallReply, RejectionCode};
use crate::canister::{message_env, Message};
use crate::label::{compare_bytes, u64_be, u64_to_be, Cmp};

verus! {

/// The textual form of the principal with the given bytes.
pub uninterp spec fn principal_text_spec(bytes: Seq<u8>) -> Seq<char>;

/// The textual form of the principal with the given bytes, as
/// `ic_types::Principal::to_text` gives it (the CRC-32 of the bytes and the
/// bytes, in lower-case base 32 without padding, in groups of five joined by
/// dashes); a principal has at most 29 bytes. Only that the text is a
/// function of the bytes is stated here.
#[verifier::external_body]
fn principal_text(bytes: &[u8]) -> (r: String)
    requires
        bytes@.len() <= 29,
    ensures
        r@ == principal_text_spec(bytes@),
{
    ic_types::Principal::from_slice(bytes).to_text()
}

/// The principal of the canister with the given number: the number in
/// big-endian bytes, a 1 for the class of canister ids, and the tag 1 of
/// opaque ids.
pub open spec fn canister_principal_spec(id: u64) -> Seq<u8> {
    u64_be(id) + seq![1u8, 1u8]
}

/// The principal of the canister with the given number.
pub fn canister_principal(id: u64) -> (r: Vec<u8>)
    ensures
        r@ == canister_principal_spec(id),
{
    let mut v = u64_to_be(id);
    v.push(1u8);
    v.push(1u8);
    proof {
        assert(v@ =~= canister_principal_spec(id));
    }
    v
}

/// Different numbers give different principals.
proof fn lemma_canister_principal_injective(a: u64, b: u64)
    requires
        canister_principal_spec(a) == canister_principal_spec(b),
    ensures
        a == b,
{
    let sa = canister_principal_spec(a);
    let sb = canister_principal_spec(b);
    assert(sa[0] == sb[0] && sa[1] == sb[1] && sa[2] == sb[2] && sa[3] == sb[3]);
    assert(sa[4] == sb[4] && sa[5] == sb[5] && sa[6] == sb[6] && sa[7] == sb[7]);
    assert(
        ((a >> 56u64) as u8 == (b >> 56u64) as u8 && ((a >> 48u64) & 0xff) as u8 == ((b >> 48u64) & 0xff) as u8
            && ((a >> 40u64) & 0xff) as u8 == ((b >> 40u64) & 0xff) as u8 && ((a >> 32u64) & 0xff) as u8 == ((b
            >> 32u64) & 0xff) as u8 && ((a >> 24u64) & 0xff) as u8 == ((b >> 24u64) & 0xff) as u8 && ((a >> 16u64)
            & 0xff) as u8 == ((b >> 16u64) & 0xff) as u8 && ((a >> 8u64) & 0xff) as u8 == ((b >> 8u64) & 0xff) as u8
            && (a & 0xff) as u8 == (b & 0xff) as u8) ==> a == b
    ) by (bit_vector);
}

/// The principals of a list of principals.
pub open spec fn principal_set(s: Seq<Vec<u8>>) -> Set<Seq<u8>> {
    Set::new(|p: Seq<u8>| exists|i: int| 0 <= i < s.len() && (#[trigger] s[i])@ == p)
}

/// Whether `p` is one of the principals `s`.
fn contains_principal(s: &Vec<Vec<u8>>, p: &[u8]) -> (r: bool)
    ensures
        r == principal_set(s@).contains(p@),
{
    let mut i: usize = 0;
    while i < s.len()
        invariant
            i <= s@.len(),
            forall|j: int| 0 <= j < i ==> (#[trigger] s@[j])@ != p@,
        decreases s@.len() - i,
    {
        match compare_bytes(s[i].as_slice(), p) {
            Cmp::Equal => {
                proof {
                    assert(s@[i as int]@ == p@);
                }
                return true;
            },
            _ => {},
        }
        i = i + 1;
    }
    false
}

/// The cycles refunded with a message that cannot be delivered: those
/// available to a custom task, those refunded to a request, none for a reply.
pub open spec fn unrouted_refund(m: Message) -> u128 {
    match m {
        Message::CustomTask { env, .. } => env.cycles_available,
        Message::Request { env, .. } => env.cycles_refunded,
        Message::Reply { .. } => 0,
    }
}

/// A message that cannot be delivered gives back the cycles it carried:
/// all the cycles available to a custom task, the cycles refunded with a
/// request, and none for a reply.
pub proof fn lemma_unrouted_refund(m: Message)
    ensures
        m is CustomTask ==> unrouted_refund(m) == message_env(m).cycles_available,
        m is Request ==> unrouted_refund(m) == message_env(m).cycles_refunded,
        m is Reply ==> unrouted_refund(m) == 0,
{
}

/// The state of a replica: the canisters installed in it and the canister
/// principals it created.
pub struct ReplicaState {
    canisters: Vec<Vec<u8>>,
    created: Vec<Vec<u8>>,
}

/// The canister with number `k` is the first from `start` on whose principal
/// is not installed.
pub open spec fn first_free_canister(installed: Set<Seq<u8>>, start: int, k: int) -> bool {
    &&& start <= k <= u64::MAX
    &&& !installed.contains(canister_principal_spec(k as u64))
    &&& forall|j: int| start <= j < k ==> installed.contains(#[trigger] canister_principal_spec(j as u64))
}

impl ReplicaState {
    /// The principals of the installed canisters.
    pub closed spec fn installed(&self) -> Set<Seq<u8>> {
        principal_set(self.canisters@)
    }

    /// The canister principals created.
    pub closed spec fn created(&self) -> Set<Seq<u8>> {
        principal_set(self.created@)
    }

    /// The number of principals created (each counted once).
    pub closed spec fn created_count(&self) -> nat {
        self.created@.len()
    }

    /// No principal is listed twice.
    pub closed spec fn wf(&self) -> bool {
        &&& forall|i: int, j: int| 0 <= i < j < self.canisters@.len() ==> (#[trigger] self.canisters@[i])@
            != (#[trigger] self.canisters@[j])@
        &&& forall|i: int, j: int| 0 <= i < j < self.created@.len() ==> (#[trigger] self.created@[i])@
            != (#[trigger] self.created@[j])@
    }

    /// A replica with no canisters.
    pub fn new() -> (r: Self)
        ensures
            r.wf(),
            r.installed() == Set::<Seq<u8>>::empty(),
            r.created() == Set::<Seq<u8>>::empty(),
            r.created_count() == 0,
    {
        let r = ReplicaState { canisters: Vec::new(), created: Vec::new() };
        proof {
            assert(r.installed() =~= Set::<Seq<u8>>::empty());
            assert(r.created() =~= Set::<Seq<u8>>::empty());
        }
        r
    }

    /// The principal for the next canister: that of the first number, from
    /// the number of principals created on, whose canister is not installed.
    pub fn get_next_canister_id(&self) -> (r: Vec<u8>)
        requires
            self.wf(),
            self.created_count() + self.installed().len() <= u64::MAX,
        ensures
            exists|k: int| first_free_canister(self.installed(), self.created_count() as int, k) && r@
                == canister_principal_spec(k as u64),
    {
        let start = self.created.len() as u64;
        let mut id = start;
        proof {
            lemma_principal_set_len(self.canisters@);
        }
        loop
            invariant
                self.wf(),
                start == self.created_count(),
                start + self.installed().len() <= u64::MAX,
                start <= id <= start + self.installed().len(),
                self.installed().finite(),
                self.installed().len() == self.canisters@.len(),
                forall|j: int| start <= j < id ==> self.installed().contains(#[trigger] canister_principal_spec(j as u64)),
            decreases start + self.installed().len() - id,
        {
            let p = canister_principal(id);
            if !contains_principal(&self.canisters, p.as_slice()) {
                proof {
                    assert(first_free_canister(self.installed(), start as int, id as int));
                }
                return p;
            }
            proof {
                let taken = Set::new(|q: Seq<u8>| exists|j: int| start <= j <= id && q == #[trigger] canister_principal_spec(j as u64));
                lemma_taken_len(start as int, id as int);
                assert(taken.subset_of(self.installed()));
                vstd::set_lib::lemma_len_subset(taken, self.installed());
            }
            id = id + 1;
        }
    }

    /// Reserve the principal of a new canister.
    pub fn create_canister(&mut self) -> (r: Vec<u8>)
        requires
            old(self).wf(),
            old(self).created_count() + old(self).installed().len() <= u64::MAX,
        ensures
            final(self).wf(),
            exists|k: int| first_free_canister(old(self).installed(), old(self).created_count() as int, k) && r@
                == canister_principal_spec(k as u64),
            final(self).installed() == old(self).installed(),
            final(self).created() == old(self).created().insert(r@),
            final(self).created_count() == old(self).created_count() + (if old(self).created().contains(r@) { 0int } else { 1int }),
    {
        let id = self.get_next_canister_id();
        if !contains_principal(&self.created, id.as_slice()) {
            let copy = crate::hashtree::copy_bytes(id.as_slice());
            self.created.push(copy);
            proof {
                assert forall|i: int, j: int| 0 <= i < j < self.created@.len() implies (#[trigger] self.created@[i])@
                    != (#[trigger] self.created@[j])@ by {
                    if j == self.created@.len() - 1 {
                        assert(old(self).created@[i] == self.created@[i]);
                        if self.created@[i]@ == id@ {
                            assert(old(self).created().contains(id@));
                        }
                    } else {
                        assert(old(self).created@[i] == self.created@[i] && old(self).created@[j] == self.created@[j]);
                    }
                }
                assert forall|q: Seq<u8>| self.created().contains(q) == old(self).created().insert(id@).contains(q) by {
                    if old(self).created().contains(q) {
                        let i = choose|i: int| 0 <= i < old(self).created@.len() && (#[trigger] old(self).created@[i])@ == q;
                        assert(self.created@[i] == old(self).created@[i]);
                    }
                    if q == id@ {
                        assert(self.created@[self.created@.len() - 1]@ == q);
                    }
                    if self.created().contains(q) {
                        let i = choose|i: int| 0 <= i < self.created@.len() && (#[trigger] self.created@[i])@ == q;
                        if i < old(self).created@.len() {
                            assert(self.created@[i] == old(self).created@[i]);
                        }
                    }
                }
                assert(self.created() =~= old(self).created().insert(id@));
            }
        } else {
            proof {
                assert(old(self).created() =~= old(self).created().insert(id@));
            }
        }
        id
    }

    /// Install a canister with the given principal.
    pub fn install_code(&mut self, canister_id: Vec<u8>)
        requires
            old(self).wf(),
            !old(self).installed().contains(canister_id@),
        ensures
            final(self).wf(),
            final(self).installed() == old(self).installed().insert(canister_id@),
            final(self).created() == old(self).created(),
            final(self).created_count() == old(self).created_count(),
    {
        let ghost p = canister_id@;
        self.canisters.push(canister_id);
        proof {
            assert forall|i: int, j: int| 0 <= i < j < self.canisters@.len() implies (#[trigger] self.canisters@[i])@
                != (#[trigger] self.canisters@[j])@ by {
                if j == self.canisters@.len() - 1 {
                    assert(old(self).canisters@[i] == self.canisters@[i]);
                    if self.canisters@[i]@ == p {
                        assert(old(self).installed().contains(p));
                    }
                } else {
                    assert(old(self).canisters@[i] == self.canisters@[i] && old(self).canisters@[j] == self.canisters@[j]);
                }
            }
            assert forall|q: Seq<u8>| self.installed().contains(q) == old(self).installed().insert(p).contains(q) by {
                if old(self).installed().contains(q) {
                    let i = choose|i: int| 0 <= i < old(self).canisters@.len() && (#[trigger] old(self).canisters@[i])@ == q;
                    assert(self.canisters@[i] == old(self).canisters@[i]);
                }
                if q == p {
                    assert(self.canisters@[self.canisters@.len() - 1]@ == q);
                }
                if self.installed().contains(q) {
                    let i = choose|i: int| 0 <= i < self.canisters@.len() && (#[trigger] self.canisters@[i])@ == q;
                    if i < old(self).canisters@.len() {
                        assert(self.canisters@[i] == old(self).canisters@[i]);
                    }
                }
            }
            assert(self.installed() =~= old(self).installed().insert(p));
        }
    }

    /// Where a request to `canister_id` goes: to the canister where it is
    /// installed (`None`), or else back to the sender as a rejection, with
    /// the cycles of the message refunded.
    pub fn canister_request(&self, canister_id: &Vec<u8>, message: &Message) -> (r: Option<CallReply>)
        requires
            canister_id@.len() <= 29,
        ensures
            self.installed().contains(canister_id@) ==> r is None,
            !self.installed().contains(canister_id@) ==> (r matches Some(
                CallReply::Reject { rejection_code, rejection_message, cycles_refunded },
            ) && rejection_code == RejectionCode::DestinationInvalid && rejection_message@ == "Canister '"@
                + principal_text_spec(canister_id@) + "' does not exists"@ && cycles_refunded == unrouted_refund(*message)),
    {
        if contains_principal(&self.canisters, canister_id.as_slice()) {
            return None;
        }
        let cycles_refunded = match message {
            Message::CustomTask { env, .. } => env.cycles_available,
            Message::Request { env, .. } => env.cycles_refunded,
            Message::Reply { .. } => 0,
        };
        let mut m = String::from_str("Canister '");
        let text = principal_text(canister_id.as_slice());
        m.append(text.as_str());
        m.append("' does not exists");
        Some(CallReply::Reject { rejection_code: RejectionCode::DestinationInvalid, rejection_message: m, cycles_refunded })
    }
}

/// A list of distinct principals has as many principals as entries.
proof fn lemma_principal_set_len(s: Seq<Vec<u8>>)
    requires
        forall|i: int, j: int| 0 <= i < j < s.len() ==> (#[trigger] s[i])@ != (#[trigger] s[j])@,
    ensures
        principal_set(s).finite(),
        principal_set(s).len() == s.len(),
    decreases s.len(),
{
    if s.len() == 0 {
        assert(principal_set(s) =~= Set::<Seq<u8>>::empty());
    } else {
        let t = s.drop_last();
        assert forall|i: int, j: int| 0 <= i < j < t.len() implies (#[trigger] t[i])@ != (#[trigger] t[j])@ by {
            assert(t[i] == s[i] && t[j] == s[j]);
        }
        lemma_principal_set_len(t);
        let last = s[s.len() - 1]@;
        assert forall|q: Seq<u8>| principal_set(s).contains(q) == principal_set(t).insert(last).contains(q) by {
            if principal_set(t).contains(q) {
                let i = choose|i: int| 0 <= i < t.len() && (#[trigger] t[i])@ == q;
                assert(s[i] == t[i]);
            }
            if principal_set(s).contains(q) && q != last {
                let i = choose|i: int| 0 <= i < s.len() && (#[trigger] s[i])@ == q;
                assert(t[i] == s[i]);
            }
        }
        assert(principal_set(s) =~= principal_set(t).insert(last));
        if principal_set(t).contains(last) {
            let i = choose|i: int| 0 <= i < t.len() && (#[trigger] t[i])@ == last;
            assert(t[i] == s[i]);
        }
    }
}

/// The principals of the canisters numbered `start` to `end` are
/// `end - start + 1` distinct ones.
proof fn lemma_taken_len(start: int, end: int)
    requires
        0 <= start <= end <= u64::MAX,
    ensures
        ({
            let taken = Set::new(|q: Seq<u8>| exists|j: int| start <= j <= end && q == #[trigger] canister_principal_spec(j as u64));
            taken.finite() && taken.len() == end - start + 1
        }),
    decreases end - start,
{
    let taken = Set::new(|q: Seq<u8>| exists|j: int| start <= j <= end && q == #[trigger] canister_principal_spec(j as u64));
    if end == start {
        assert(taken =~= Set::<Seq<u8>>::empty().insert(canister_principal_spec(start as u64)));
    } else {
        lemma_taken_len(start, end - 1);
        let prev = Set::new(|q: Seq<u8>| exists|j: int| start <= j <= end - 1 && q == #[trigger] canister_principal_spec(j as u64));
        let last = canister_principal_spec(end as u64);
        assert forall|q: Seq<u8>| taken.contains(q) == prev.insert(last).contains(q) by {
            if taken.contains(q) && q != last {
                let j = choose|j: int| start <= j <= end && q == #[trigger] canister_principal_spec(j as u64);
                assert(j != end);
                assert(prev.contains(q));
            }
            if prev.contains(q) {
                let j = choose|j: int| start <= j <= end - 1 && q == #[trigger] canister_principal_spec(j as u64);
                assert(taken.contains(q));
            }
        }
        assert(taken =~= prev.insert(last));
        if prev.contains(last) {
            let j = choose|j: int| start <= j <= end - 1 && last == #[trigger] canister_principal_spec(j as u64);
            lemma_canister_principal_injective(j as u64, end as u64);
        }
    }
}

} // verus!
