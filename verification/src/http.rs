//! The data types of HTTP requests and responses served by a canister, and
//! the builders that shape a response.

use vstd::prelude::*;

verus! {

/// A key/value header pair.
pub type HeaderField = (String, String);

/// The lowercase form of a string, as `str::to_lowercase` gives it.
pub uninterp spec fn lowercase_spec(s: Seq<char>) -> Seq<char>;

/// Calls `str::to_lowercase`: the result is the lowercase mapping of each
/// char of the string, a function of the string alone (named
/// `lowercase_spec`).
#[verifier::external_body]
fn to_lowercase(s: &str) -> (r: String)
    ensures
        r@ == lowercase_spec(s@),
{
    s.to_lowercase()
}

/// The header at index `i` has the name `name`, compared case-insensitively.
pub open spec fn header_matches(headers: Seq<HeaderField>, i: int, name: Seq<char>) -> bool {
    lowercase_spec(headers[i].0@) == lowercase_spec(name)
}

/// The IC data type for a request: its method, URL, headers and raw body.
#[derive(Clone, Debug)]
pub struct HttpRequest {
    pub method: String,
    pub url: String,
    pub headers: Vec<HeaderField>,
    pub body: Vec<u8>,
}

impl HttpRequest {
    /// Returns the value of the first header with the given name, compared
    /// case-insensitively; `None` if there is no such header.
    pub fn header(&self, name: &str) -> (r: Option<&str>)
        ensures
            r is None <==> forall|i: int| 0 <= i < self.headers@.len() ==> !header_matches(self.headers@, i, name@),
            r matches Some(v) ==> exists|i: int| {
                &&& 0 <= i < self.headers@.len()
                &&& header_matches(self.headers@, i, name@)
                &&& v@ == self.headers@[i].1@
                &&& forall|j: int| 0 <= j < i ==> !header_matches(self.headers@, j, name@)
            },
    {
        let lname = to_lowercase(name);
        let mut i: usize = 0;
        while i < self.headers.len()
            invariant
                i <= self.headers@.len(),
                lname@ == lowercase_spec(name@),
                forall|j: int| 0 <= j < i ==> !header_matches(self.headers@, j, name@),
            decreases self.headers@.len() - i,
        {
            let lkey = to_lowercase(self.headers[i].0.as_str());
            if lkey == lname {
                let v = self.headers[i].1.as_str();
                proof {
                    assert(header_matches(self.headers@, i as int, name@));
                }
                return Some(v);
            }
            i = i + 1;
        }
        None
    }
}

/// The headers as a map from name to value: a later header with a name
/// replaces an earlier one.
pub open spec fn headers_map(s: Seq<HeaderField>) -> Map<Seq<char>, Seq<char>>
    decreases s.len(),
{
    if s.len() == 0 {
        Map::empty()
    } else {
        headers_map(s.drop_last()).insert(s.last().0@, s.last().1@)
    }
}

/// No two headers have the same name.
pub open spec fn unique_names(s: Seq<HeaderField>) -> bool {
    forall|i: int, j: int| 0 <= i < j < s.len() ==> #[trigger] s[i].0@ != #[trigger] s[j].0@
}

/// With unique names, the map of the headers has exactly their names, each
/// with its value.
proof fn lemma_headers_map_unique(s: Seq<HeaderField>)
    requires
        unique_names(s),
    ensures
        forall|k: Seq<char>| headers_map(s).dom().contains(k) <==> exists|i: int| 0 <= i < s.len() && #[trigger] s[i].0@ == k,
        forall|i: int| 0 <= i < s.len() ==> headers_map(s)[#[trigger] s[i].0@] == s[i].1@,
    decreases s.len(),
{
    if s.len() > 0 {
        let t = s.drop_last();
        assert(unique_names(t));
        lemma_headers_map_unique(t);
        assert forall|k: Seq<char>| headers_map(s).dom().contains(k) implies exists|i: int| 0 <= i < s.len() && #[trigger] s[i].0@ == k by {
            if k != s.last().0@ {
                assert(headers_map(t).dom().contains(k));
                let i = choose|i: int| 0 <= i < t.len() && #[trigger] t[i].0@ == k;
                assert(t[i] == s[i]);
                assert(s[i].0@ == k);
            } else {
                assert(s[s.len() - 1].0@ == k);
            }
        }
        assert forall|i: int| 0 <= i < s.len() implies headers_map(s)[#[trigger] s[i].0@] == s[i].1@ by {
            if i < s.len() - 1 {
                assert(t[i] == s[i]);
                assert(s[i].0@ != s[s.len() - 1].0@);
            }
        }
        assert forall|k: Seq<char>| (exists|i: int| 0 <= i < s.len() && #[trigger] s[i].0@ == k) implies headers_map(s).dom().contains(k) by {
            let i = choose|i: int| 0 <= i < s.len() && #[trigger] s[i].0@ == k;
            if i < s.len() - 1 {
                assert(t[i] == s[i]);
            }
        }
    }
}

/// The index of the header named `name`, if there is one.
fn find_header(headers: &Vec<HeaderField>, name: &String) -> (r: Option<usize>)
    ensures
        r is None <==> forall|i: int| 0 <= i < headers@.len() ==> headers@[i].0@ != name@,
        r matches Some(i) ==> i < headers@.len() && headers@[i as int].0@ == name@,
{
    let mut i: usize = 0;
    while i < headers.len()
        invariant
            i <= headers@.len(),
            forall|j: int| 0 <= j < i ==> headers@[j].0@ != name@,
        decreases headers@.len() - i,
    {
        if headers[i].0 == *name {
            return Some(i);
        }
        i = i + 1;
    }
    None
}

/// Set the header `name` to `value` in a list of uniquely named headers, or
/// remove it where `value` is empty.
fn set_header(headers: &mut Vec<HeaderField>, name: String, value: String)
    requires
        unique_names(old(headers)@),
    ensures
        unique_names(final(headers)@),
        headers_map(final(headers)@) == (if value@.len() == 0 {
            headers_map(old(headers)@).remove(name@)
        } else {
            headers_map(old(headers)@).insert(name@, value@)
        }),
{
    let ghost old_s = headers@;
    proof {
        lemma_headers_map_unique(old_s);
    }
    let found = find_header(headers, &name);
    if value.as_str().is_empty() {
        if let Some(i) = found {
            headers.remove(i);
            proof {
                let s = headers@;
                assert forall|a: int, b: int| 0 <= a < b < s.len() implies #[trigger] s[a].0@ != #[trigger] s[b].0@ by {
                    let oa = if a < i { a } else { a + 1 };
                    let ob = if b < i { b } else { b + 1 };
                    assert(s[a] == old_s[oa] && s[b] == old_s[ob]);
                }
                lemma_headers_map_unique(s);
                assert forall|k: Seq<char>| headers_map(s).dom().contains(k) <==> headers_map(old_s).remove(name@).dom().contains(k) by {
                    if headers_map(old_s).remove(name@).dom().contains(k) {
                        let j = choose|j: int| 0 <= j < old_s.len() && #[trigger] old_s[j].0@ == k;
                        assert(j != i);
                        let sj = if j < i { j } else { j - 1 };
                        assert(s[sj] == old_s[j]);
                    }
                    if headers_map(s).dom().contains(k) {
                        let j = choose|j: int| 0 <= j < s.len() && #[trigger] s[j].0@ == k;
                        let oj = if j < i { j } else { j + 1 };
                        assert(s[j] == old_s[oj]);
                    }
                }
                assert forall|k: Seq<char>| #[trigger] headers_map(s).dom().contains(k) implies headers_map(s)[k] == headers_map(old_s)[k] by {
                    let j = choose|j: int| 0 <= j < s.len() && #[trigger] s[j].0@ == k;
                    let oj = if j < i { j } else { j + 1 };
                    assert(s[j] == old_s[oj]);
                }
                assert(headers_map(s) =~= headers_map(old_s).remove(name@));
            }
        } else {
            proof {
                assert(headers_map(old_s) =~= headers_map(old_s).remove(name@));
            }
        }
    } else {
        match found {
            Some(i) => {
                let ghost nm = name@;
                headers.set(i, (name, value));
                proof {
                    let s = headers@;
                    assert forall|a: int, b: int| 0 <= a < b < s.len() implies #[trigger] s[a].0@ != #[trigger] s[b].0@ by {
                        if a != i && b != i {
                            assert(s[a] == old_s[a] && s[b] == old_s[b]);
                        } else if a == i {
                            assert(s[b] == old_s[b]);
                        } else {
                            assert(s[a] == old_s[a]);
                        }
                    }
                    lemma_headers_map_unique(s);
                    assert forall|k: Seq<char>| headers_map(s).dom().contains(k) <==> headers_map(old_s).insert(nm, value@).dom().contains(k) by {
                        if headers_map(old_s).dom().contains(k) {
                            let j = choose|j: int| 0 <= j < old_s.len() && #[trigger] old_s[j].0@ == k;
                            if j != i {
                                assert(s[j] == old_s[j]);
                            } else {
                                assert(s[j].0@ == k);
                            }
                        }
                        if k == nm {
                            assert(s[i as int].0@ == k);
                        }
                        if headers_map(s).dom().contains(k) {
                            let j = choose|j: int| 0 <= j < s.len() && #[trigger] s[j].0@ == k;
                            if j != i {
                                assert(s[j] == old_s[j]);
                            }
                        }
                    }
                    assert forall|k: Seq<char>| #[trigger] headers_map(s).dom().contains(k) implies headers_map(s)[k] == headers_map(old_s).insert(nm, value@)[k] by {
                        let j = choose|j: int| 0 <= j < s.len() && #[trigger] s[j].0@ == k;
                        if j != i {
                            assert(s[j] == old_s[j]);
                        }
                    }
                    assert(headers_map(s) =~= headers_map(old_s).insert(nm, value@));
                }
            },
            None => {
                let ghost nm = name@;
                let ghost vv = value@;
                headers.push((name, value));
                proof {
                    let s = headers@;
                    assert(s.drop_last() == old_s);
                    assert forall|a: int, b: int| 0 <= a < b < s.len() implies #[trigger] s[a].0@ != #[trigger] s[b].0@ by {
                        assert(s[a] == old_s[a]);
                        if b < old_s.len() {
                            assert(s[b] == old_s[b]);
                        }
                    }
                }
            },
        }
    }
}

/// The headers, with a later header of a name replacing an earlier one, as
/// a list of uniquely named headers.
fn dedup_headers(headers: Vec<HeaderField>) -> (r: Vec<HeaderField>)
    ensures
        unique_names(r@),
        headers_map(r@) == headers_map(headers@),
{
    let mut out: Vec<HeaderField> = Vec::new();
    let mut i: usize = 0;
    let n = headers.len();
    let mut rest = headers;
    let ghost all = rest@;
    proof {
        assert(rest@ =~= all.subrange(0, n as int));
    }
    while i < n
        invariant
            i <= n,
            n == all.len(),
            rest@ == all.subrange(i as int, n as int),
            unique_names(out@),
            headers_map(out@) == headers_map(all.subrange(0, i as int)),
        decreases n - i,
    {
        let (k, v) = rest.remove(0);
        proof {
            assert((k, v) == all[i as int]);
            assert(rest@ =~= all.subrange(i + 1, n as int));
        }
        let ghost before = out@;
        if v.as_str().is_empty() {
            // An empty value is kept: it is only a removal when set later.
            let found = find_header(&out, &k);
            proof {
                lemma_headers_map_unique(before);
            }
            match found {
                Some(j) => {
                    out.set(j, (k, v));
                    proof {
                        let s = out@;
                        assert forall|a: int, b: int| 0 <= a < b < s.len() implies #[trigger] s[a].0@ != #[trigger] s[b].0@ by {
                            if a != j && b != j {
                                assert(s[a] == before[a] && s[b] == before[b]);
                            } else if a == j {
                                assert(s[b] == before[b]);
                            } else {
                                assert(s[a] == before[a]);
                            }
                        }
                        lemma_headers_map_unique(s);
                        assert forall|kk: Seq<char>| headers_map(s).dom().contains(kk) <==> headers_map(before).insert(all[i as int].0@, all[i as int].1@).dom().contains(kk) by {
                            if headers_map(before).dom().contains(kk) {
                                let jj = choose|jj: int| 0 <= jj < before.len() && #[trigger] before[jj].0@ == kk;
                                if jj != j {
                                    assert(s[jj] == before[jj]);
                                } else {
                                    assert(s[jj].0@ == kk);
                                }
                            }
                            if kk == all[i as int].0@ {
                                assert(s[j as int].0@ == kk);
                            }
                            if headers_map(s).dom().contains(kk) {
                                let jj = choose|jj: int| 0 <= jj < s.len() && #[trigger] s[jj].0@ == kk;
                                if jj != j {
                                    assert(s[jj] == before[jj]);
                                }
                            }
                        }
                        assert forall|kk: Seq<char>| #[trigger] headers_map(s).dom().contains(kk) implies headers_map(s)[kk] == headers_map(before).insert(all[i as int].0@, all[i as int].1@)[kk] by {
                            let jj = choose|jj: int| 0 <= jj < s.len() && #[trigger] s[jj].0@ == kk;
                            if jj != j {
                                assert(s[jj] == before[jj]);
                            }
                        }
                        assert(headers_map(s) =~= headers_map(before).insert(all[i as int].0@, all[i as int].1@));
                    }
                },
                None => {
                    out.push((k, v));
                    proof {
                        let s = out@;
                        assert(s.drop_last() == before);
                        assert forall|a: int, b: int| 0 <= a < b < s.len() implies #[trigger] s[a].0@ != #[trigger] s[b].0@ by {
                            assert(s[a] == before[a]);
                            if b < before.len() {
                                assert(s[b] == before[b]);
                            }
                        }
                    }
                },
            }
        } else {
            set_header(&mut out, k, v);
        }
        proof {
            assert(all.subrange(0, i + 1).drop_last() =~= all.subrange(0, i as int));
            assert(all.subrange(0, i + 1).last() == all[i as int]);
        }
        i = i + 1;
    }
    proof {
        assert(all.subrange(0, n as int) =~= all);
    }
    out
}

/// The callback of a streaming strategy: a method of a canister.
#[derive(Clone, Debug)]
pub struct CallbackFunc {
    /// The principal of the canister, as bytes.
    pub principal: Vec<u8>,
    /// The name of the method.
    pub method: String,
}

/// The IC data type for a streaming callback token: the key of the resource
/// to stream, its content encoding, and the index of the chunk (or byte
/// offset) to get next.
#[derive(Clone, Debug)]
pub struct StreamingCallbackToken {
    pub key: String,
    pub content_encoding: String,
    pub index: u64,
}

/// The IC data type for a streaming strategy, which chunks the body of a
/// response: the callback is called with the token to get the next chunk.
#[derive(Clone, Debug)]
pub enum StreamingStrategy {
    Callback { callback: CallbackFunc, token: StreamingCallbackToken },
}

/// The IC data type for a streaming callback response: a chunk of the body
/// and the token for the next one, where there is a next one.
#[derive(Clone, Debug)]
pub struct StreamingCallbackHttpResponse {
    pub body: Vec<u8>,
    pub token: Option<StreamingCallbackToken>,
}

/// The IC data type for a response: its status code, headers, raw body, an
/// optional streaming strategy, and whether the request is to be upgraded to
/// an update call (slower, but its state changes are committed).
#[derive(Clone, Debug)]
pub struct HttpResponse {
    pub status_code: u16,
    pub headers: Vec<HeaderField>,
    pub body: Vec<u8>,
    pub streaming_strategy: Option<StreamingStrategy>,
    pub upgrade: bool,
}

impl HttpResponse {
    /// A new empty response with a 200 status code.
    pub fn ok() -> (r: Self)
        ensures
            r.status_code == 200,
            r.headers@.len() == 0,
            r.body@.len() == 0,
            r.streaming_strategy is None,
            !r.upgrade,
    {
        HttpResponse { status_code: 200, headers: Vec::new(), body: Vec::new(), streaming_strategy: None, upgrade: false }
    }

    /// A new empty response with the given status code.
    pub fn new(status_code: u16) -> (r: Self)
        ensures
            r.status_code == status_code,
            r.headers@.len() == 0,
            r.body@.len() == 0,
            r.streaming_strategy is None,
            !r.upgrade,
    {
        HttpResponse { status_code, headers: Vec::new(), body: Vec::new(), streaming_strategy: None, upgrade: false }
    }

    /// Set the body of the response.
    pub fn body(self, body: Vec<u8>) -> (r: Self)
        ensures
            r.body@ == body@,
            r.status_code == self.status_code,
            r.headers == self.headers,
            r.streaming_strategy == self.streaming_strategy,
            r.upgrade == self.upgrade,
    {
        let mut s = self;
        s.body = body;
        s
    }

    /// Extend the existing body of the response.
    pub fn extend_body(self, body: Vec<u8>) -> (r: Self)
        ensures
            r.body@ == self.body@ + body@,
            r.status_code == self.status_code,
            r.headers == self.headers,
            r.streaming_strategy == self.streaming_strategy,
            r.upgrade == self.upgrade,
    {
        let mut s = self;
        let mut b = body;
        s.body.append(&mut b);
        s
    }

    /// Insert a header into the response; where a header of that name is
    /// there, it is replaced. An empty value removes the header. The headers
    /// come out uniquely named, a later one of a name replacing an earlier.
    pub fn header(self, name: String, value: String) -> (r: Self)
        ensures
            unique_names(r.headers@),
            headers_map(r.headers@) == (if value@.len() == 0 {
                headers_map(self.headers@).remove(name@)
            } else {
                headers_map(self.headers@).insert(name@, value@)
            }),
            r.status_code == self.status_code,
            r.body == self.body,
            r.streaming_strategy == self.streaming_strategy,
            r.upgrade == self.upgrade,
    {
        let mut s = self;
        let mut headers = Vec::new();
        std::mem::swap(&mut headers, &mut s.headers);
        let mut map = dedup_headers(headers);
        set_header(&mut map, name, value);
        s.headers = map;
        s
    }

    /// Set the given headers, in order, as `header` does for each: an empty
    /// value removes the header.
    pub fn headers(self, headers: Vec<HeaderField>) -> (r: Self)
        ensures
            unique_names(r.headers@),
            headers_map(r.headers@) == apply_headers(headers_map(self.headers@), headers@),
            r.status_code == self.status_code,
            r.body == self.body,
            r.streaming_strategy == self.streaming_strategy,
            r.upgrade == self.upgrade,
    {
        let mut s = self;
        let mut old_headers = Vec::new();
        std::mem::swap(&mut old_headers, &mut s.headers);
        let ghost start = headers_map(old_headers@);
        let mut map = dedup_headers(old_headers);
        let n = headers.len();
        let ghost all = headers@;
        let mut rest = headers;
        let mut i: usize = 0;
        proof {
            assert(rest@ =~= all.subrange(0, n as int));
        }
        while i < n
            invariant
                i <= n,
                n == all.len(),
                rest@ == all.subrange(i as int, n as int),
                unique_names(map@),
                headers_map(map@) == apply_headers(start, all.subrange(0, i as int)),
            decreases n - i,
        {
            let (k, v) = rest.remove(0);
            proof {
                assert((k, v) == all[i as int]);
                assert(rest@ =~= all.subrange(i + 1, n as int));
                assert(all.subrange(0, i + 1).drop_last() =~= all.subrange(0, i as int));
            }
            set_header(&mut map, k, v);
            i = i + 1;
        }
        proof {
            assert(all.subrange(0, n as int) =~= all);
        }
        s.headers = map;
        s
    }

    /// Set the streaming strategy of the response.
    pub fn streaming_strategy(self, streaming_strategy: StreamingStrategy) -> (r: Self)
        ensures
            r.streaming_strategy == Some(streaming_strategy),
            r.status_code == self.status_code,
            r.headers == self.headers,
            r.body == self.body,
            r.upgrade == self.upgrade,
    {
        let mut s = self;
        s.streaming_strategy = Some(streaming_strategy);
        s
    }

    /// Mark the response to be upgraded to an update call.
    pub fn upgrade(self) -> (r: Self)
        ensures
            r.upgrade,
            r.status_code == self.status_code,
            r.headers == self.headers,
            r.body == self.body,
            r.streaming_strategy == self.streaming_strategy,
    {
        let mut s = self;
        s.upgrade = true;
        s
    }
}

/// The header map after the given headers were set in order, an empty value
/// removing its header.
pub open spec fn apply_headers(m: Map<Seq<char>, Seq<char>>, hs: Seq<HeaderField>) -> Map<Seq<char>, Seq<char>>
    decreases hs.len(),
{
    if hs.len() == 0 {
        m
    } else {
        let prev = apply_headers(m, hs.drop_last());
        let (k, v) = hs.last();
        if v@.len() == 0 {
            prev.remove(k@)
        } else {
            prev.insert(k@, v@)
        }
    }
}

} // verus!
