//! The decisions behind the canister macros, on plain values: which
//! entry-point definitions are accepted, the names they are exported by, how
//! their arguments are injected or decoded and their results encoded, which
//! methods a canister declares, and how HTTP routes are laid out.

use vstd::prelude::*;
use crate::call::EntryPoint;
use crate::http::HttpResponse;
use crate::label::{Cmp, compare_bytes, lex_le, lex_lt, lemma_lex_total};

verus! {

/// What the macros see of a function they are put above.
#[derive(Debug, Clone, Copy, PartialEq, Eq)]
pub struct FnShape {
    /// The function is `async`.
    pub is_async: bool,
    /// The function has generic parameters.
    pub has_generics: bool,
    /// The number of values it returns: 0 for none, the length of a returned
    /// tuple, or 1 for any other type.
    pub return_length: usize,
}

/// The options given to an entry-point macro.
#[derive(Debug, Clone, Copy, PartialEq, Eq)]
pub struct EntryPointOptions {
    /// A `name` was given, to export the method by.
    pub renamed: bool,
    /// A `guard` was given.
    pub guarded: bool,
    /// `hidden` was given.
    pub hidden: bool,
}

/// Why an entry-point definition is refused.
#[derive(Debug, Clone, Copy, PartialEq, Eq)]
pub enum EntryPointError {
    /// An async function with generic parameters.
    AsyncWithGenerics,
    /// An inspect-message hook that does not return one value.
    InspectMessageReturn,
    /// A lifecycle hook with a return value.
    LifecycleReturn,
    /// A lifecycle hook with a name.
    LifecycleRenamed,
    /// A lifecycle hook marked hidden.
    LifecycleHidden,
    /// A lifecycle hook with a guard.
    LifecycleGuard,
    /// An async lifecycle hook.
    LifecycleAsync,
}

/// The first rule of an entry-point definition that is broken, in the order
/// the rules are checked, or none.
pub open spec fn entry_point_error(ep: EntryPoint, shape: FnShape, options: EntryPointOptions) -> Option<EntryPointError> {
    let lifecycle = !(ep == EntryPoint::Update || ep == EntryPoint::Query);
    let inspect = ep == EntryPoint::InspectMessage;
    if shape.is_async && shape.has_generics {
        Some(EntryPointError::AsyncWithGenerics)
    } else if inspect && shape.return_length != 1 {
        Some(EntryPointError::InspectMessageReturn)
    } else if lifecycle && !inspect && shape.return_length > 0 {
        Some(EntryPointError::LifecycleReturn)
    } else if lifecycle && options.renamed {
        Some(EntryPointError::LifecycleRenamed)
    } else if lifecycle && options.hidden {
        Some(EntryPointError::LifecycleHidden)
    } else if lifecycle && options.guarded {
        Some(EntryPointError::LifecycleGuard)
    } else if lifecycle && shape.is_async {
        Some(EntryPointError::LifecycleAsync)
    } else {
        None
    }
}

/// Check an entry-point definition: an async function takes no generic
/// parameters, an inspect-message hook returns its verdict, and lifecycle
/// hooks return nothing (but the inspect-message verdict), are not renamed,
/// hidden or guarded, and are not async.
pub fn check_entry_point(ep: EntryPoint, shape: FnShape, options: EntryPointOptions) -> (r: Result<(), EntryPointError>)
    ensures
        r is Ok <==> entry_point_error(ep, shape, options) is None,
        r matches Err(e) ==> entry_point_error(ep, shape, options) == Some(e),
{
    let lifecycle = ep.is_lifecycle();
    let inspect = ep.is_inspect_message();
    if shape.is_async && shape.has_generics {
        return Err(EntryPointError::AsyncWithGenerics);
    }
    if inspect && shape.return_length != 1 {
        return Err(EntryPointError::InspectMessageReturn);
    }
    if lifecycle {
        if !inspect && shape.return_length > 0 {
            return Err(EntryPointError::LifecycleReturn);
        }
        if options.renamed {
            return Err(EntryPointError::LifecycleRenamed);
        }
        if options.hidden {
            return Err(EntryPointError::LifecycleHidden);
        }
        if options.guarded {
            return Err(EntryPointError::LifecycleGuard);
        }
        if shape.is_async {
            return Err(EntryPointError::LifecycleAsync);
        }
    }
    Ok(())
}

/// Check a function marked as a replica test: it must be async, as it is
/// run on a runtime with the replica passed to it.
pub fn check_kit_test(is_async: bool) -> (r: Result<(), String>)
    ensures
        is_async ==> r is Ok,
        !is_async ==> (r matches Err(m) && m@ == "The #[kit_test] can only be used on top of an async function."@),
{
    if is_async {
        Ok(())
    } else {
        Err(String::from_str("The #[kit_test] can only be used on top of an async function."))
    }
}

/// The name of an entry point, as its macro is named.
pub open spec fn entry_point_name(ep: EntryPoint) -> Seq<char> {
    match ep {
        EntryPoint::Init => "init"@,
        EntryPoint::PreUpgrade => "pre_upgrade"@,
        EntryPoint::PostUpgrade => "post_upgrade"@,
        EntryPoint::InspectMessage => "inspect_message"@,
        EntryPoint::Heartbeat => "heartbeat"@,
        EntryPoint::Update => "update"@,
        EntryPoint::Query => "query"@,
    }
}

impl EntryPointError {
    /// The message of the error, for the entry point it was found at.
    pub fn message(&self, ep: EntryPoint) -> (r: String)
        ensures
            r@ == (match self {
                EntryPointError::AsyncWithGenerics => "#["@ + entry_point_name(ep)
                    + "] must be above a async function with no generic parameters."@,
                EntryPointError::InspectMessageReturn => "#["@ + entry_point_name(ep)
                    + "] function must have a boolean return value."@,
                EntryPointError::LifecycleReturn => "#["@ + entry_point_name(ep) + "] function cannot have a return value."@,
                EntryPointError::LifecycleRenamed => "#["@ + entry_point_name(ep) + "] function cannot be renamed."@,
                EntryPointError::LifecycleHidden => "#["@ + entry_point_name(ep) + "] function cannot be hidden."@,
                EntryPointError::LifecycleGuard => "#["@ + entry_point_name(ep) + "] function cannot have a guard"@,
                EntryPointError::LifecycleAsync => "#["@ + entry_point_name(ep) + "] function cannot be async."@,
            }),
    {
        let mut s = String::from_str("#[");
        s.append(ep.name());
        let rest = match self {
            EntryPointError::AsyncWithGenerics => "] must be above a async function with no generic parameters.",
            EntryPointError::InspectMessageReturn => "] function must have a boolean return value.",
            EntryPointError::LifecycleReturn => "] function cannot have a return value.",
            EntryPointError::LifecycleRenamed => "] function cannot be renamed.",
            EntryPointError::LifecycleHidden => "] function cannot be hidden.",
            EntryPointError::LifecycleGuard => "] function cannot have a guard",
            EntryPointError::LifecycleAsync => "] function cannot be async.",
        };
        s.append(rest);
        s
    }
}

/// The name a method is exported by in the WASM binary: `canister_` and the
/// entry point, then, for an update or a query, a space and the method's
/// candid name.
pub fn export_name(ep: EntryPoint, candid_name: &str) -> (r: String)
    ensures
        ep == EntryPoint::Update || ep == EntryPoint::Query ==> r@ == "canister_"@ + entry_point_name(ep) + " "@
            + candid_name@,
        !(ep == EntryPoint::Update || ep == EntryPoint::Query) ==> r@ == "canister_"@ + entry_point_name(ep),
{
    let mut s = String::from_str("canister_");
    s.append(ep.name());
    if !ep.is_lifecycle() {
        s.append(" ");
        s.append(candid_name);
    }
    s
}

/// The name of the function the macro wraps a method in.
pub fn outer_function_name(ep: EntryPoint, rust_name: &str) -> (r: String)
    ensures
        r@ == "_ic_kit_canister_"@ + entry_point_name(ep) + "_"@ + rust_name@,
{
    let mut s = String::from_str("_ic_kit_canister_");
    s.append(ep.name());
    s.append("_");
    s.append(rust_name);
    s
}

/// How the result of a method is sent back.
#[derive(Debug, Clone, Copy, PartialEq, Eq)]
pub enum ReturnEncoding {
    /// The message is accepted where the inspect-message verdict is `true`.
    AcceptIfTrue,
    /// Nothing is sent: a lifecycle hook.
    Nothing,
    /// The empty candid reply.
    EmptyReply,
    /// The one value, candid-encoded.
    EncodeOne,
    /// The tuple of values, candid-encoded.
    EncodeArgs,
}

/// How the result of a method of an entry point is sent back.
pub fn return_encoding(ep: EntryPoint, return_length: usize) -> (r: ReturnEncoding)
    ensures
        r == (if ep == EntryPoint::InspectMessage {
            ReturnEncoding::AcceptIfTrue
        } else if !(ep == EntryPoint::Update || ep == EntryPoint::Query) {
            ReturnEncoding::Nothing
        } else if return_length == 0 {
            ReturnEncoding::EmptyReply
        } else if return_length == 1 {
            ReturnEncoding::EncodeOne
        } else {
            ReturnEncoding::EncodeArgs
        }),
{
    if ep.is_inspect_message() {
        ReturnEncoding::AcceptIfTrue
    } else if ep.is_lifecycle() {
        ReturnEncoding::Nothing
    } else if return_length == 0 {
        ReturnEncoding::EmptyReply
    } else if return_length == 1 {
        ReturnEncoding::EncodeOne
    } else {
        ReturnEncoding::EncodeArgs
    }
}

/// How injected state is reached around a method's body.
#[derive(Debug, Clone, Copy, PartialEq, Eq)]
pub enum StateAccess {
    /// No state of this kind is injected.
    NoState,
    /// One value is injected (`with` / `with_mut`).
    Single,
    /// Several values are injected (`with_many` / `with_many_mut`).
    Many,
}

/// How `count` injected values of one kind are reached.
pub fn state_access(count: usize) -> (r: StateAccess)
    ensures
        r == (if count == 0 {
            StateAccess::NoState
        } else if count == 1 {
            StateAccess::Single
        } else {
            StateAccess::Many
        }),
{
    if count == 0 {
        StateAccess::NoState
    } else if count == 1 {
        StateAccess::Single
    } else {
        StateAccess::Many
    }
}

/// The type of a parameter of a method: a reference to a state type, which
/// is injected, or another type, which is decoded from the call's arguments.
/// Types are written as their source text.
#[derive(Debug, Clone, PartialEq, Eq)]
pub enum ArgType {
    Reference { mutable: bool, elem: String },
    Value(String),
}

/// Why the parameters of a method cannot be injected.
#[derive(Debug, Clone, Copy, PartialEq, Eq)]
pub enum InjectionError {
    /// A reference parameter of an async method.
    AsyncMethod,
    /// A reference parameter after a decoded parameter.
    AfterArguments,
    /// A second reference to the same state type.
    Duplicate,
}

impl InjectionError {
    /// The message of the error.
    pub fn message(&self) -> (r: &'static str)
        ensures
            r@ == (match self {
                InjectionError::AsyncMethod => "IC-Kit's dependency injection can only work on sync methods."@,
                InjectionError::AfterArguments => "An IC-kit dependency injected reference could only come before canister arguments."@,
                InjectionError::Duplicate => "IC-Kit's dependency injection can only inject one instance of each type."@,
            }),
    {
        match self {
            InjectionError::AsyncMethod => "IC-Kit's dependency injection can only work on sync methods.",
            InjectionError::AfterArguments => "An IC-kit dependency injected reference could only come before canister arguments.",
            InjectionError::Duplicate => "IC-Kit's dependency injection can only inject one instance of each type.",
        }
    }
}

/// The parameters of a method, sorted: all their names in order, the
/// mutably and immutably injected ones with their state types, and the
/// decoded ones with their types.
#[derive(Debug, Clone, PartialEq, Eq)]
pub struct ProcessedArgs {
    pub args: Vec<String>,
    pub mut_args: Vec<(String, String)>,
    pub imu_args: Vec<(String, String)>,
    pub can_args: Vec<(String, String)>,
}

/// The view of a processed parameter list: names, mutable injections,
/// immutable injections, decoded parameters, each as text.
pub type ArgsView = (Seq<Seq<char>>, Seq<(Seq<char>, Seq<char>)>, Seq<(Seq<char>, Seq<char>)>, Seq<(Seq<char>, Seq<char>)>);

/// The state types injected so far.
pub open spec fn injected(v: ArgsView) -> Seq<Seq<char>> {
    v.1.map_values(|p: (Seq<char>, Seq<char>)| p.1) + v.2.map_values(|p: (Seq<char>, Seq<char>)| p.1)
}

/// A state type was injected before.
pub open spec fn is_injected(v: ArgsView, ty: Seq<char>) -> bool {
    (exists|i: int| 0 <= i < v.1.len() && (#[trigger] v.1[i]).1 == ty) || (exists|i: int| 0 <= i < v.2.len() && (#[trigger] v.2[i]).1 == ty)
}

/// The parameters sorted one after the other, left to right: a reference is
/// refused in an async method, after a decoded parameter, or to a state type
/// already injected; otherwise it is injected, mutably or not; any other
/// parameter is decoded.
pub open spec fn di_spec(params: Seq<(Seq<char>, ArgTypeView)>, is_async: bool) -> Result<ArgsView, InjectionError>
    decreases params.len(),
{
    if params.len() == 0 {
        Ok((Seq::empty(), Seq::empty(), Seq::empty(), Seq::empty()))
    } else {
        match di_spec(params.drop_last(), is_async) {
            Err(e) => Err(e),
            Ok(v) => {
                let (name, ty) = params.last();
                let v1 = (v.0.push(name), v.1, v.2, v.3);
                match ty {
                    ArgTypeView::Reference(mutable, elem) => {
                        if is_async {
                            Err(InjectionError::AsyncMethod)
                        } else if v.3.len() > 0 {
                            Err(InjectionError::AfterArguments)
                        } else if is_injected(v, elem) {
                            Err(InjectionError::Duplicate)
                        } else if mutable {
                            Ok((v1.0, v1.1.push((name, elem)), v1.2, v1.3))
                        } else {
                            Ok((v1.0, v1.1, v1.2.push((name, elem)), v1.3))
                        }
                    },
                    ArgTypeView::Value(t) => Ok((v1.0, v1.1, v1.2, v1.3.push((name, t)))),
                }
            },
        }
    }
}

/// Once the sorting fails on a prefix, it fails with that error on the
/// whole list.
proof fn lemma_di_err_extends(s: Seq<(Seq<char>, ArgTypeView)>, k: int, is_async: bool)
    requires
        0 <= k <= s.len(),
        di_spec(s.subrange(0, k), is_async) is Err,
    ensures
        di_spec(s, is_async) == di_spec(s.subrange(0, k), is_async),
    decreases s.len() - k,
{
    if k < s.len() {
        let t = s.subrange(0, k + 1);
        assert(t.drop_last() =~= s.subrange(0, k));
        lemma_di_err_extends(s, k + 1, is_async);
    } else {
        assert(s.subrange(0, k) =~= s);
    }
}

/// A parameter list without references is never refused, in a sync or an
/// async method: every parameter is decoded, in order, with its type, and
/// nothing is injected.
pub proof fn lemma_di_values_decoded(params: Seq<(Seq<char>, ArgTypeView)>, is_async: bool)
    requires
        forall|i: int| 0 <= i < params.len() ==> (#[trigger] params[i]).1 is Value,
    ensures
        di_spec(params, is_async) is Ok,
        (match di_spec(params, is_async) {
            Ok(v) => {
                &&& v.0.len() == params.len()
                &&& v.1.len() == 0
                &&& v.2.len() == 0
                &&& v.3.len() == params.len()
                &&& forall|i: int| 0 <= i < params.len() ==> v.0[i] == (#[trigger] params[i]).0 && v.3[i] == (
                    params[i].0,
                    params[i].1->Value_0,
                )
            },
            Err(_) => false,
        }),
    decreases params.len(),
{
    if params.len() > 0 {
        let init = params.drop_last();
        assert forall|i: int| 0 <= i < init.len() implies (#[trigger] init[i]).1 is Value by {
            assert(init[i] == params[i]);
        }
        lemma_di_values_decoded(init, is_async);
        assert(params.last() == params[params.len() - 1]);
        assert forall|i: int| 0 <= i < init.len() implies #[trigger] params[i] == init[i] by {}
    }
}

/// The view of a parameter type.
pub enum ArgTypeView {
    Reference(bool, Seq<char>),
    Value(Seq<char>),
}

/// The view of a parameter type.
pub open spec fn arg_type_view(t: ArgType) -> ArgTypeView {
    match t {
        ArgType::Reference { mutable, elem } => ArgTypeView::Reference(mutable, elem@),
        ArgType::Value(s) => ArgTypeView::Value(s@),
    }
}

/// The view of a list of named parameters.
pub open spec fn params_view(params: Seq<(String, ArgType)>) -> Seq<(Seq<char>, ArgTypeView)> {
    params.map_values(|p: (String, ArgType)| (p.0@, arg_type_view(p.1)))
}

/// The view of a list of name and type pairs.
pub open spec fn pairs_view(s: Seq<(String, String)>) -> Seq<(Seq<char>, Seq<char>)> {
    s.map_values(|p: (String, String)| (p.0@, p.1@))
}

impl ProcessedArgs {
    /// The view of the processed parameters.
    pub open spec fn view_args(&self) -> ArgsView {
        (self.args@.map_values(|s: String| s@), pairs_view(self.mut_args@), pairs_view(self.imu_args@), pairs_view(self.can_args@))
    }
}

/// Whether some pair of the list has the given type.
fn has_type(s: &Vec<(String, String)>, ty: &String) -> (r: bool)
    ensures
        r == exists|i: int| 0 <= i < s@.len() && (#[trigger] pairs_view(s@)[i]).1 == ty@,
{
    let mut i: usize = 0;
    while i < s.len()
        invariant
            i <= s@.len(),
            forall|j: int| 0 <= j < i ==> (#[trigger] pairs_view(s@)[j]).1 != ty@,
        decreases s@.len() - i,
    {
        if s[i].1 == *ty {
            proof {
                assert(pairs_view(s@)[i as int].1 == ty@);
            }
            return true;
        }
        i = i + 1;
    }
    false
}

/// Sort the parameters of a method for dependency injection: references to
/// state are injected, the other parameters are decoded from the call.
pub fn di(params: Vec<(String, ArgType)>, is_async: bool) -> (r: Result<ProcessedArgs, InjectionError>)
    ensures
        (match (r, di_spec(params_view(params@), is_async)) {
            (Ok(p), Ok(v)) => p.view_args() == v,
            (Err(e), Err(e2)) => e == e2,
            _ => false,
        }),
{
    let mut result = ProcessedArgs { args: Vec::new(), mut_args: Vec::new(), imu_args: Vec::new(), can_args: Vec::new() };
    let ghost all = params_view(params@);
    let n = params.len();
    let mut i: usize = 0;
    let mut rest = params;
    proof {
        assert(all.subrange(0, 0) =~= Seq::<(Seq<char>, ArgTypeView)>::empty());
        assert(result.view_args().0 =~= Seq::<Seq<char>>::empty());
        assert(result.view_args().1 =~= Seq::<(Seq<char>, Seq<char>)>::empty());
        assert(result.view_args().2 =~= Seq::<(Seq<char>, Seq<char>)>::empty());
        assert(result.view_args().3 =~= Seq::<(Seq<char>, Seq<char>)>::empty());
    }
    while i < n
        invariant
            i <= n,
            n == all.len(),
            params_view(rest@) == all.subrange(i as int, n as int),
            rest@.len() == n - i,
            all == params_view(params@),
            di_spec(all.subrange(0, i as int), is_async) == Ok::<ArgsView, InjectionError>(result.view_args()),
        decreases n - i,
    {
        let ghost before = result.view_args();
        let ghost old_rest = rest@;
        let (name, ty) = rest.remove(0);
        proof {
            assert(rest@ =~= old_rest.drop_first());
            assert forall|j: int| 0 <= j < rest@.len() implies #[trigger] params_view(rest@)[j] == all.subrange(i + 1, n as int)[j] by {
                assert(params_view(old_rest)[j + 1] == all.subrange(i as int, n as int)[j + 1]);
            }
            assert(params_view(rest@) =~= all.subrange(i + 1, n as int));
            assert(params_view(old_rest)[0] == all.subrange(i as int, n as int)[0]);
            assert(all[i as int] == (name@, arg_type_view(ty)));
            assert(all.subrange(0, i + 1).drop_last() =~= all.subrange(0, i as int));
            assert(all.subrange(0, i + 1).last() == all[i as int]);
        }
        match ty {
            ArgType::Reference { mutable, elem } => {
                proof {
                    let pre = all.subrange(0, i + 1);
                    assert(pre.drop_last() =~= all.subrange(0, i as int));
                    assert(pre.last() == (name@, ArgTypeView::Reference(mutable, elem@)));
                    assert(di_spec(pre.drop_last(), is_async) == Ok::<ArgsView, InjectionError>(before));
                    assert(before.3.len() == result.can_args@.len());
                }
                if is_async {
                    proof {
                        let pre = all.subrange(0, i + 1);
                        assert(di_spec(pre, is_async) == Err::<ArgsView, InjectionError>(InjectionError::AsyncMethod));
                        lemma_di_err_extends(all, i + 1, is_async);
                        assert(di_spec(all, is_async) == Err::<ArgsView, InjectionError>(InjectionError::AsyncMethod));
                        assert(all == params_view(params@));
                    }
                    return Err(InjectionError::AsyncMethod);
                }
                if result.can_args.len() > 0 {
                    proof {
                        lemma_di_err_extends(all, i + 1, is_async);
                    }
                    return Err(InjectionError::AfterArguments);
                }
                let dup = has_type(&result.mut_args, &elem) || has_type(&result.imu_args, &elem);
                if dup {
                    proof {
                        assert(is_injected(before, elem@));
                        lemma_di_err_extends(all, i + 1, is_async);
                    }
                    return Err(InjectionError::Duplicate);
                }
                proof {
                    assert(!is_injected(before, elem@));
                }
                let ghost nm = name@;
                let ghost el = elem@;
                result.args.push(name);
                let n2 = copy_string(&result.args[result.args.len() - 1]);
                if mutable {
                    result.mut_args.push((n2, elem));
                } else {
                    result.imu_args.push((n2, elem));
                }
                proof {
                    assert(result.view_args().0 =~= before.0.push(nm));
                    if mutable {
                        assert(result.view_args().1 =~= before.1.push((nm, el)));
                        assert(result.view_args().2 =~= before.2);
                    } else {
                        assert(result.view_args().2 =~= before.2.push((nm, el)));
                        assert(result.view_args().1 =~= before.1);
                    }
                    assert(result.view_args().3 =~= before.3);
                }
            },
            ArgType::Value(t) => {
                let ghost nm = name@;
                let ghost tt = t@;
                result.args.push(name);
                let n2 = copy_string(&result.args[result.args.len() - 1]);
                result.can_args.push((n2, t));
                proof {
                    assert(result.view_args().0 =~= before.0.push(nm));
                    assert(result.view_args().1 =~= before.1);
                    assert(result.view_args().2 =~= before.2);
                    assert(result.view_args().3 =~= before.3.push((nm, tt)));
                }
            },
        }
        i = i + 1;
    }
    proof {
        assert(all.subrange(0, n as int) =~= all);
    }
    Ok(result)
}

/// A copy of a string.
fn copy_string(s: &String) -> (r: String)
    ensures
        r@ == s@,
{
    s.clone()
}

/// A handler of HTTP requests, as its macro declares it: the function's
/// name, the route, the HTTP method, and whether the request is upgraded to
/// an update call.
#[derive(Debug, Clone, PartialEq, Eq)]
pub struct Handler {
    pub name: String,
    pub route: String,
    pub method: String,
    pub upgrade: bool,
}

/// A route of the generated router: a method and path, the handler, and
/// whether the request is upgraded.
#[derive(Debug, Clone, PartialEq, Eq)]
pub struct Route {
    pub method: String,
    pub path: String,
    pub handler: String,
    pub upgrade: bool,
}

/// The layout of the generated router: its routes in the order declared,
/// whether any of them upgrades (so that an update method is generated),
/// and the distinct HTTP methods it has a router for.
#[derive(Debug, Clone, PartialEq, Eq)]
pub struct RoutePlan {
    pub routes: Vec<Route>,
    pub upgradable: bool,
    pub methods: Vec<String>,
}

/// The view of a route: method, path, handler, upgrade.
pub open spec fn route_view(r: Route) -> (Seq<char>, Seq<char>, Seq<char>, bool) {
    (r.method@, r.path@, r.handler@, r.upgrade)
}

/// The route of a declared handler.
pub open spec fn handler_route(h: Handler) -> (Seq<char>, Seq<char>, Seq<char>, bool) {
    (h.method@, h.route@, h.name@, h.upgrade)
}

/// Whether `m` is among the names.
pub open spec fn contains_name(s: Seq<String>, m: Seq<char>) -> bool {
    exists|i: int| 0 <= i < s.len() && (#[trigger] s[i])@ == m
}

/// Whether the name is among the list.
fn has_name(s: &Vec<String>, m: &String) -> (r: bool)
    ensures
        r == contains_name(s@, m@),
{
    let mut i: usize = 0;
    while i < s.len()
        invariant
            i <= s@.len(),
            forall|j: int| 0 <= j < i ==> (#[trigger] s@[j])@ != m@,
        decreases s@.len() - i,
    {
        if s[i] == *m {
            return true;
        }
        i = i + 1;
    }
    false
}

/// Lay out the router of the declared handlers. Without any handler, the
/// router serves the canister's index page for every `get` path.
pub fn plan_routes(handlers: &Vec<Handler>) -> (r: RoutePlan)
    ensures
        handlers@.len() == 0 ==> {
            &&& r.routes@.len() == 1
            &&& route_view(r.routes@[0]) == ("get"@, "/*p"@, "index"@, false)
            &&& !r.upgradable
            &&& r.methods@.len() == 1
            &&& r.methods@[0]@ == "get"@
        },
        handlers@.len() > 0 ==> {
            &&& r.routes@.len() == handlers@.len()
            &&& forall|i: int| 0 <= i < handlers@.len() ==> route_view(#[trigger] r.routes@[i]) == handler_route(handlers@[i])
            &&& r.upgradable == exists|i: int| 0 <= i < handlers@.len() && (#[trigger] handlers@[i]).upgrade
            &&& forall|i: int| 0 <= i < handlers@.len() ==> contains_name(r.methods@, (#[trigger] handlers@[i]).method@)
            &&& forall|i: int| 0 <= i < r.methods@.len() ==> exists|j: int| 0 <= j < handlers@.len()
                && (#[trigger] handlers@[j]).method@ == (#[trigger] r.methods@[i])@
            &&& forall|i: int, j: int| 0 <= i < j < r.methods@.len() ==> (#[trigger] r.methods@[i])@ != (#[trigger] r.methods@[j])@
        },
{
    if handlers.len() == 0 {
        let route = Route {
            method: String::from_str("get"),
            path: String::from_str("/*p"),
            handler: String::from_str("index"),
            upgrade: false,
        };
        let mut routes: Vec<Route> = Vec::new();
        routes.push(route);
        let mut methods: Vec<String> = Vec::new();
        methods.push(String::from_str("get"));
        return RoutePlan { routes, upgradable: false, methods };
    }
    let mut routes: Vec<Route> = Vec::new();
    let mut methods: Vec<String> = Vec::new();
    let mut upgradable = false;
    let mut i: usize = 0;
    while i < handlers.len()
        invariant
            i <= handlers@.len(),
            routes@.len() == i,
            forall|j: int| 0 <= j < i ==> route_view(#[trigger] routes@[j]) == handler_route(handlers@[j]),
            upgradable == exists|j: int| 0 <= j < i && (#[trigger] handlers@[j]).upgrade,
            forall|j: int| 0 <= j < i ==> contains_name(methods@, (#[trigger] handlers@[j]).method@),
            forall|k: int| 0 <= k < methods@.len() ==> exists|j: int| 0 <= j < i && (#[trigger] handlers@[j]).method@
                == (#[trigger] methods@[k])@,
            forall|a: int, b: int| 0 <= a < b < methods@.len() ==> (#[trigger] methods@[a])@ != (#[trigger] methods@[b])@,
        decreases handlers@.len() - i,
    {
        let h = &handlers[i];
        routes.push(Route { method: h.method.clone(), path: h.route.clone(), handler: h.name.clone(), upgrade: h.upgrade });
        if h.upgrade {
            upgradable = true;
        }
        let ghost before = methods@;
        if !has_name(&methods, &h.method) {
            methods.push(h.method.clone());
            proof {
                assert forall|k: int| 0 <= k < methods@.len() implies exists|j: int| 0 <= j < i + 1 && (#[trigger] handlers@[j]).method@
                    == (#[trigger] methods@[k])@ by {
                    if k < before.len() {
                        assert(methods@[k] == before[k]);
                    } else {
                        assert(handlers@[i as int].method@ == methods@[k]@);
                    }
                }
                assert forall|j: int| 0 <= j < i + 1 implies contains_name(methods@, (#[trigger] handlers@[j]).method@) by {
                    if j < i {
                        let k = choose|k: int| 0 <= k < before.len() && (#[trigger] before[k])@ == handlers@[j].method@;
                        assert(methods@[k] == before[k]);
                    } else {
                        assert(methods@[before.len() as int]@ == handlers@[j].method@);
                    }
                }
                assert forall|a: int, b: int| 0 <= a < b < methods@.len() implies (#[trigger] methods@[a])@ != (#[trigger] methods@[b])@ by {
                    if b < before.len() {
                        assert(methods@[a] == before[a] && methods@[b] == before[b]);
                    } else {
                        assert(methods@[a] == before[a]);
                    }
                }
            }
        }
        proof {
            assert(route_view(routes@[i as int]) == handler_route(handlers@[i as int]));
            assert forall|j: int| 0 <= j < i + 1 implies route_view(#[trigger] routes@[j]) == handler_route(handlers@[j]) by {}
        }
        i = i + 1;
    }
    RoutePlan { routes, upgradable, methods }
}

/// The response to a request whose handler upgrades it: status 100, marked
/// to be upgraded to an update call, where the handler runs.
pub fn upgrade_response() -> (r: HttpResponse)
    ensures
        r.status_code == 100,
        r.upgrade,
        r.headers@.len() == 0,
        r.body@.len() == 0,
        r.streaming_strategy is None,
{
    HttpResponse::new(100).upgrade()
}

/// The response to a request that no route matches: status 404, with the
/// router's error message as the body.
pub fn not_found_response(message: &str) -> (r: HttpResponse)
    ensures
        r.status_code == 404,
        !r.upgrade,
        r.headers@.len() == 0,
        r.body@ == vstd::utf8::encode_utf8(message@),
        r.streaming_strategy is None,
{
    let body = crate::hashtree::copy_bytes(message.as_bytes());
    HttpResponse::new(404).body(body)
}

/// The decimal digits of `n`, most significant first, as ASCII bytes.
pub open spec fn decimal(n: nat) -> Seq<u8>
    decreases n,
{
    if n < 10 {
        seq![(48 + n) as u8]
    } else {
        decimal(n / 10).push((48 + n % 10) as u8)
    }
}

/// The bytes of `{"cycles": `, the start of the index page.
pub open spec fn cycles_prefix() -> Seq<u8> {
    seq![123u8, 34u8, 99u8, 121u8, 99u8, 108u8, 101u8, 115u8, 34u8, 58u8, 32u8]
}

/// The index page of a canister with the given balance: the UTF-8 bytes of
/// `{"cycles": <balance>}`, the balance in decimal.
pub open spec fn index_body(balance: nat) -> Seq<u8> {
    cycles_prefix() + decimal(balance) + seq![125u8]
}

/// The decimal digits of `n`, as ASCII bytes.
fn decimal_bytes(n: u128) -> (r: Vec<u8>)
    ensures
        r@ == decimal(n as nat),
    decreases n,
{
    if n < 10 {
        let d = n as u8;
        vec![48u8 + d]
    } else {
        let mut v = decimal_bytes(n / 10);
        let d = (n % 10) as u8;
        v.push(48u8 + d);
        v
    }
}

/// The reply of the index page that a canister without HTTP handlers
/// serves on every `get` path: status 200, no headers, and its cycle
/// balance as JSON, `{"cycles": <balance>}`.
pub fn index_response(balance: u128) -> (r: HttpResponse)
    ensures
        r.status_code == 200,
        r.headers@.len() == 0,
        r.body@ == index_body(balance as nat),
        r.streaming_strategy is None,
        !r.upgrade,
{
    let mut body: Vec<u8> = vec![123u8, 34u8, 99u8, 121u8, 99u8, 108u8, 101u8, 115u8, 34u8, 58u8, 32u8];
    let mut digits = decimal_bytes(balance);
    let ghost pre = body@;
    let ghost ds = digits@;
    body.append(&mut digits);
    body.push(125u8);
    proof {
        assert(pre =~= cycles_prefix());
        assert(body@ =~= index_body(balance as nat));
    }
    HttpResponse::ok().body(body)
}

/// A method a canister declares: its entry point, its Rust name, and the
/// types of its decoded arguments and of its results, as source text.
#[derive(Debug, Clone, PartialEq, Eq)]
pub struct MethodInfo {
    pub mode: EntryPoint,
    pub rust_name: String,
    pub arg_types: Vec<String>,
    pub rets: Vec<String>,
}

/// Why a method cannot be declared.
#[derive(Debug, Clone, PartialEq, Eq)]
pub enum DeclareError {
    /// The lifecycle hook is declared twice.
    LifecycleDefined(EntryPoint),
    /// A method of that name is declared twice.
    MethodDefined(String),
}

impl DeclareError {
    /// The message of the error.
    pub fn message(&self) -> (r: String)
        ensures
            r@ == (match self {
                DeclareError::LifecycleDefined(ep) => "Canister's '"@ + entry_point_name(*ep) + "' method already defined."@,
                DeclareError::MethodDefined(n) => "Method '"@ + n@ + "' is already defined."@,
            }),
    {
        match self {
            DeclareError::LifecycleDefined(ep) => {
                let mut s = String::from_str("Canister's '");
                s.append(ep.name());
                s.append("' method already defined.");
                s
            },
            DeclareError::MethodDefined(n) => {
                let mut s = String::from_str("Method '");
                s.append(n.as_str());
                s.append("' is already defined.");
                s
            },
        }
    }
}

/// The Rust name of the hook for `ep`, where one is declared.
pub open spec fn hook_name(lc: Map<EntryPoint, MethodInfo>, ep: EntryPoint) -> Seq<Seq<char>> {
    if lc.dom().contains(ep) {
        seq![lc[ep].rust_name@]
    } else {
        Seq::empty()
    }
}

/// The Rust names of the hooks for the first `e` lifecycle entry points,
/// in the order of the entry points.
pub open spec fn hooks_upto(lc: Map<EntryPoint, MethodInfo>, e: int) -> Seq<Seq<char>>
    decreases e,
{
    if e <= 0 {
        Seq::empty()
    } else {
        let ep = if e == 1 {
            EntryPoint::Init
        } else if e == 2 {
            EntryPoint::PreUpgrade
        } else if e == 3 {
            EntryPoint::PostUpgrade
        } else if e == 4 {
            EntryPoint::InspectMessage
        } else {
            EntryPoint::Heartbeat
        };
        hooks_upto(lc, e - 1) + hook_name(lc, ep)
    }
}

/// The Rust names of the declared lifecycle hooks, in the order of their
/// entry points: init, pre-upgrade, post-upgrade, inspect-message,
/// heartbeat.
pub open spec fn hook_names(lc: Map<EntryPoint, MethodInfo>) -> Seq<Seq<char>> {
    hooks_upto(lc, 5)
}

/// No two of the names are the same.
pub open spec fn names_distinct(s: Seq<String>) -> bool {
    forall|a: int, b: int| 0 <= a < b < s.len() ==> (#[trigger] s[a])@ != (#[trigger] s[b])@
}

/// The names come in the order of their bytes.
pub open spec fn names_sorted(s: Seq<String>) -> bool {
    forall|a: int, b: int| 0 <= a < b < s.len() ==> lex_le(
        vstd::utf8::encode_utf8((#[trigger] s[a])@),
        vstd::utf8::encode_utf8((#[trigger] s[b])@),
    )
}

/// A name put at its place in sorted distinct names keeps them sorted and
/// distinct.
proof fn lemma_sorted_insert(s: Seq<String>, p: int, name: String)
    requires
        names_distinct(s),
        names_sorted(s),
        0 <= p <= s.len(),
        forall|a: int| 0 <= a < p ==> lex_lt(vstd::utf8::encode_utf8((#[trigger] s[a])@), vstd::utf8::encode_utf8(name@)),
        p < s.len() ==> lex_le(vstd::utf8::encode_utf8(name@), vstd::utf8::encode_utf8(s[p]@)),
        forall|a: int| 0 <= a < s.len() ==> (#[trigger] s[a])@ != name@,
    ensures
        names_distinct(s.insert(p, name)),
        names_sorted(s.insert(p, name)),
{
    let nr = s.insert(p, name);
    let en = vstd::utf8::encode_utf8(name@);
    assert forall|a: int, b: int| 0 <= a < b < nr.len() implies lex_le(
        vstd::utf8::encode_utf8((#[trigger] nr[a])@),
        vstd::utf8::encode_utf8((#[trigger] nr[b])@),
    ) by {
        let ea = vstd::utf8::encode_utf8(nr[a]@);
        let eb = vstd::utf8::encode_utf8(nr[b]@);
        if b < p {
            assert(nr[a] == s[a] && nr[b] == s[b]);
        } else if b == p {
            assert(nr[a] == s[a]);
        } else if a == p {
            assert(nr[b] == s[b - 1]);
            let ep = vstd::utf8::encode_utf8(s[p]@);
            if p < b - 1 {
                assert(lex_le(ep, vstd::utf8::encode_utf8(s[b - 1]@)));
            }
            crate::label::lemma_lex_le_lt(en, ep, eb);
        } else if a < p {
            assert(nr[a] == s[a] && nr[b] == s[b - 1]);
            let ep = vstd::utf8::encode_utf8(s[p]@);
            crate::label::lemma_lex_le_lt(ea, en, ep);
            if p < b - 1 {
                assert(lex_le(ep, vstd::utf8::encode_utf8(s[b - 1]@)));
            }
            crate::label::lemma_lex_le_lt(ea, ep, eb);
        } else {
            assert(nr[a] == s[a - 1] && nr[b] == s[b - 1]);
        }
    }
    assert forall|a: int, b: int| 0 <= a < b < nr.len() implies (#[trigger] nr[a])@ != (#[trigger] nr[b])@ by {
        if b < p {
            assert(nr[a] == s[a] && nr[b] == s[b]);
        } else if b == p {
            assert(nr[a] == s[a]);
        } else if a == p {
            assert(nr[b] == s[b - 1]);
        } else if a < p {
            assert(nr[a] == s[a] && nr[b] == s[b - 1]);
        } else {
            assert(nr[a] == s[a - 1] && nr[b] == s[b - 1]);
        }
    }
}

/// The methods and lifecycle hooks a canister declared, by name and by
/// entry point.
pub struct MethodRegistry {
    methods: Vec<(String, MethodInfo)>,
    life_cycles: Vec<MethodInfo>,
}

impl MethodRegistry {
    /// The methods, by name.
    pub closed spec fn methods_view(&self) -> Map<Seq<char>, MethodInfo> {
        Map::new(
            |n: Seq<char>| exists|i: int| 0 <= i < self.methods@.len() && (#[trigger] self.methods@[i]).0@ == n,
            |n: Seq<char>| self.methods@[choose|i: int| 0 <= i < self.methods@.len() && (#[trigger] self.methods@[i]).0@ == n].1,
        )
    }

    /// The lifecycle hooks, by entry point.
    pub closed spec fn life_cycles_view(&self) -> Map<EntryPoint, MethodInfo> {
        Map::new(
            |ep: EntryPoint| exists|i: int| 0 <= i < self.life_cycles@.len() && (#[trigger] self.life_cycles@[i]).mode == ep,
            |ep: EntryPoint| self.life_cycles@[choose|i: int| 0 <= i < self.life_cycles@.len() && (#[trigger] self.life_cycles@[i]).mode == ep],
        )
    }

    /// Names and entry points are held once each.
    pub closed spec fn wf(&self) -> bool {
        &&& forall|i: int, j: int| 0 <= i < j < self.methods@.len() ==> (#[trigger] self.methods@[i]).0@ != (#[trigger] self.methods@[j]).0@
        &&& forall|i: int, j: int| 0 <= i < j < self.life_cycles@.len() ==> (#[trigger] self.life_cycles@[i]).mode != (#[trigger] self.life_cycles@[j]).mode
    }

    /// An empty registry.
    pub fn new() -> (r: Self)
        ensures
            r.wf(),
            r.methods_view() == Map::<Seq<char>, MethodInfo>::empty(),
            r.life_cycles_view() == Map::<EntryPoint, MethodInfo>::empty(),
    {
        let r = MethodRegistry { methods: Vec::new(), life_cycles: Vec::new() };
        proof {
            assert(r.methods_view() =~= Map::<Seq<char>, MethodInfo>::empty());
            assert(r.life_cycles_view() =~= Map::<EntryPoint, MethodInfo>::empty());
        }
        r
    }

    /// Declare a method under `name` (a lifecycle hook, by its entry point).
    /// A second declaration of a name or hook is an error; it replaces the
    /// first one all the same.
    pub fn declare(&mut self, name: String, info: MethodInfo) -> (r: Result<(), DeclareError>)
        requires
            old(self).wf(),
        ensures
            final(self).wf(),
            info.mode == EntryPoint::Update || info.mode == EntryPoint::Query ==> {
                &&& final(self).methods_view() == old(self).methods_view().insert(name@, info)
                &&& final(self).life_cycles_view() == old(self).life_cycles_view()
                &&& (r is Ok <==> !old(self).methods_view().dom().contains(name@))
                &&& r matches Err(e) ==> e == DeclareError::MethodDefined(name)
            },
            !(info.mode == EntryPoint::Update || info.mode == EntryPoint::Query) ==> {
                &&& final(self).life_cycles_view() == old(self).life_cycles_view().insert(info.mode, info)
                &&& final(self).methods_view() == old(self).methods_view()
                &&& (r is Ok <==> !old(self).life_cycles_view().dom().contains(info.mode))
                &&& r matches Err(e) ==> e == DeclareError::LifecycleDefined(info.mode)
            },
    {
        let ghost om = self.methods@;
        let ghost ol = self.life_cycles@;
        if info.mode.is_lifecycle() {
            let mode = info.mode;
            let mut i: usize = 0;
            while i < self.life_cycles.len()
                invariant
                    i <= self.life_cycles@.len(),
                    self.life_cycles@ == ol,
                    self.methods@ == om,
                    forall|j: int| 0 <= j < i ==> (#[trigger] ol[j]).mode != mode,
                ensures
                    i <= ol.len(),
                    self.life_cycles@ == ol,
                    self.methods@ == om,
                    forall|j: int| 0 <= j < i ==> (#[trigger] ol[j]).mode != mode,
                    i < ol.len() ==> ol[i as int].mode == mode,
                decreases ol.len() - i,
            {
                if self.life_cycles[i].mode == mode {
                    break;
                }
                i = i + 1;
            }
            let found = i < self.life_cycles.len();
            let ghost info_v = info;
            if found {
                self.life_cycles.set(i, info);
            } else {
                self.life_cycles.push(info);
            }
            proof {
                let nl = self.life_cycles@;
                assert forall|a: int, b: int| 0 <= a < b < nl.len() implies (#[trigger] nl[a]).mode != (#[trigger] nl[b]).mode by {
                    if found {
                        if a != i && b != i {
                            assert(nl[a] == ol[a] && nl[b] == ol[b]);
                        } else if a == i {
                            assert(nl[b] == ol[b]);
                        } else {
                            assert(nl[a] == ol[a]);
                        }
                    } else {
                        assert(nl[a] == ol[a]);
                        if b < ol.len() {
                            assert(nl[b] == ol[b]);
                        }
                    }
                }
                assert forall|ep: EntryPoint| #[trigger] self.life_cycles_view().dom().contains(ep) <==> old(self).life_cycles_view().insert(mode, info_v).dom().contains(ep) by {
                    if old(self).life_cycles_view().dom().contains(ep) {
                        let j = choose|j: int| 0 <= j < ol.len() && (#[trigger] ol[j]).mode == ep;
                        if found && j == i {
                            assert(nl[j].mode == ep);
                        } else {
                            assert(nl[j] == ol[j]);
                        }
                    }
                    if ep == mode {
                        if found {
                            assert(nl[i as int].mode == ep);
                        } else {
                            assert(nl[ol.len() as int].mode == ep);
                        }
                    }
                    if self.life_cycles_view().dom().contains(ep) && ep != mode {
                        let j = choose|j: int| 0 <= j < nl.len() && (#[trigger] nl[j]).mode == ep;
                        assert(nl[j] == ol[j]);
                    }
                }
                assert forall|ep: EntryPoint| #[trigger] self.life_cycles_view().dom().contains(ep) implies self.life_cycles_view()[ep] == old(self).life_cycles_view().insert(mode, info_v)[ep] by {
                    let j = choose|j: int| 0 <= j < nl.len() && (#[trigger] nl[j]).mode == ep;
                    if ep == mode {
                        let k = if found { i as int } else { ol.len() as int };
                        assert(nl[k].mode == ep);
                        if j != k {
                            if j < k {
                                assert(nl[j].mode != nl[k].mode);
                            } else {
                                assert(nl[k].mode != nl[j].mode);
                            }
                        }
                    } else {
                        assert(nl[j] == ol[j]);
                        let oj = choose|oj: int| 0 <= oj < ol.len() && (#[trigger] ol[oj]).mode == ep;
                        if oj != j {
                            if oj < j {
                                assert(ol[oj].mode != ol[j].mode);
                            } else {
                                assert(ol[j].mode != ol[oj].mode);
                            }
                        }
                    }
                }
                assert(self.life_cycles_view() =~= old(self).life_cycles_view().insert(mode, info_v));
                assert(self.methods_view() =~= old(self).methods_view());
                if found {
                    assert(old(self).life_cycles_view().dom().contains(mode));
                }
            }
            if found {
                Err(DeclareError::LifecycleDefined(mode))
            } else {
                Ok(())
            }
        } else {
            let mut i: usize = 0;
            while i < self.methods.len()
                invariant
                    i <= self.methods@.len(),
                    self.life_cycles@ == ol,
                    self.methods@ == om,
                    forall|j: int| 0 <= j < i ==> (#[trigger] om[j]).0@ != name@,
                ensures
                    i <= om.len(),
                    self.life_cycles@ == ol,
                    self.methods@ == om,
                    forall|j: int| 0 <= j < i ==> (#[trigger] om[j]).0@ != name@,
                    i < om.len() ==> om[i as int].0@ == name@,
                decreases om.len() - i,
            {
                if self.methods[i].0 == name {
                    break;
                }
                i = i + 1;
            }
            let found = i < self.methods.len();
            let ghost info_v = info;
            let ghost nm = name@;
            let err_name = name.clone();
            if found {
                self.methods.set(i, (name, info));
            } else {
                self.methods.push((name, info));
            }
            proof {
                let nl = self.methods@;
                assert forall|a: int, b: int| 0 <= a < b < nl.len() implies (#[trigger] nl[a]).0@ != (#[trigger] nl[b]).0@ by {
                    if found {
                        if a != i && b != i {
                            assert(nl[a] == om[a] && nl[b] == om[b]);
                        } else if a == i {
                            assert(nl[b] == om[b]);
                        } else {
                            assert(nl[a] == om[a]);
                        }
                    } else {
                        assert(nl[a] == om[a]);
                        if b < om.len() {
                            assert(nl[b] == om[b]);
                        }
                    }
                }
                assert forall|n: Seq<char>| #[trigger] self.methods_view().dom().contains(n) <==> old(self).methods_view().insert(nm, info_v).dom().contains(n) by {
                    if old(self).methods_view().dom().contains(n) {
                        let j = choose|j: int| 0 <= j < om.len() && (#[trigger] om[j]).0@ == n;
                        if found && j == i {
                            assert(nl[j].0@ == n);
                        } else {
                            assert(nl[j] == om[j]);
                        }
                    }
                    if n == nm {
                        if found {
                            assert(nl[i as int].0@ == n);
                        } else {
                            assert(nl[om.len() as int].0@ == n);
                        }
                    }
                    if self.methods_view().dom().contains(n) && n != nm {
                        let j = choose|j: int| 0 <= j < nl.len() && (#[trigger] nl[j]).0@ == n;
                        assert(nl[j] == om[j]);
                    }
                }
                assert forall|n: Seq<char>| #[trigger] self.methods_view().dom().contains(n) implies self.methods_view()[n] == old(self).methods_view().insert(nm, info_v)[n] by {
                    let j = choose|j: int| 0 <= j < nl.len() && (#[trigger] nl[j]).0@ == n;
                    if n == nm {
                        let k = if found { i as int } else { om.len() as int };
                        assert(nl[k].0@ == n);
                        if j != k {
                            if j < k {
                                assert(nl[j].0@ != nl[k].0@);
                            } else {
                                assert(nl[k].0@ != nl[j].0@);
                            }
                        }
                    } else {
                        assert(nl[j] == om[j]);
                        let oj = choose|oj: int| 0 <= oj < om.len() && (#[trigger] om[oj]).0@ == n;
                        if oj != j {
                            if oj < j {
                                assert(om[oj].0@ != om[j].0@);
                            } else {
                                assert(om[j].0@ != om[oj].0@);
                            }
                        }
                    }
                }
                assert(self.methods_view() =~= old(self).methods_view().insert(nm, info_v));
                assert(self.life_cycles_view() =~= old(self).life_cycles_view());
                if found {
                    assert(old(self).methods_view().dom().contains(nm));
                }
            }
            if found {
                Err(DeclareError::MethodDefined(err_name))
            } else {
                Ok(())
            }
        }
    }

    /// The names of the methods, each once, in the order the service lists
    /// them: by the bytes of their names.
    #[verifier::rlimit(40)]
    #[verifier::spinoff_prover]
    pub fn sorted_method_names(&self) -> (r: Vec<String>)
        requires
            self.wf(),
        ensures
            forall|i: int| 0 <= i < r@.len() ==> self.methods_view().dom().contains(#[trigger] r@[i]@),
            forall|n: Seq<char>| #[trigger] self.methods_view().dom().contains(n) ==> exists|i: int| 0 <= i < r@.len() && r@[i]@ == n,
            names_distinct(r@),
            names_sorted(r@),
    {
        let mut r: Vec<String> = Vec::new();
        let mut i: usize = 0;
        while i < self.methods.len()
            invariant
                self.wf(),
                i <= self.methods@.len(),
                forall|a: int| 0 <= a < r@.len() ==> exists|j: int| 0 <= j < i && (#[trigger] r@[a])@ == self.methods@[j].0@,
                forall|j: int| 0 <= j < i ==> exists|a: int| 0 <= a < r@.len() && r@[a]@ == (#[trigger] self.methods@[j]).0@,
                names_distinct(r@),
                names_sorted(r@),
            decreases self.methods@.len() - i,
        {
            let name = self.methods[i].0.clone();
            let nb = name.as_str().as_bytes();
            let mut p: usize = 0;
            while p < r.len()
                invariant
                    p <= r@.len(),
                    nb@ == vstd::utf8::encode_utf8(name@),
                    forall|a: int| 0 <= a < p ==> lex_lt(vstd::utf8::encode_utf8((#[trigger] r@[a])@), nb@),
                ensures
                    p <= r@.len(),
                    forall|a: int| 0 <= a < p ==> lex_lt(vstd::utf8::encode_utf8((#[trigger] r@[a])@), nb@),
                    p < r@.len() ==> !lex_lt(vstd::utf8::encode_utf8(r@[p as int]@), nb@),
                decreases r@.len() - p,
            {
                let c = compare_bytes(nb, r[p].as_str().as_bytes());
                if !matches!(c, Cmp::Greater) {
                    break;
                }
                p = p + 1;
            }
            let ghost old_r = r@;
            proof {
                if p < old_r.len() {
                    lemma_lex_total(nb@, vstd::utf8::encode_utf8(old_r[p as int]@));
                }
                assert forall|a: int| 0 <= a < old_r.len() implies old_r[a]@ != name@ by {
                    let j = choose|j: int| 0 <= j < i && (#[trigger] old_r[a])@ == self.methods@[j].0@;
                    assert(self.methods@[j].0@ != self.methods@[i as int].0@);
                }
                lemma_sorted_insert(old_r, p as int, name);
            }
            r.insert(p, name);
            proof {
                let nr = r@;
                assert forall|a: int| 0 <= a < nr.len() implies exists|j: int| 0 <= j < i + 1 && (#[trigger] nr[a])@
                    == self.methods@[j].0@ by {
                    if a < p {
                        assert(nr[a] == old_r[a]);
                    } else if a == p {
                        assert(nr[a]@ == self.methods@[i as int].0@);
                    } else {
                        assert(nr[a] == old_r[a - 1]);
                    }
                }
                assert forall|j: int| 0 <= j < i + 1 implies exists|a: int| 0 <= a < nr.len() && nr[a]@ == (
                #[trigger] self.methods@[j]).0@ by {
                    if j < i {
                        let a = choose|a: int| 0 <= a < old_r.len() && old_r[a]@ == self.methods@[j].0@;
                        if a < p {
                            assert(nr[a] == old_r[a]);
                        } else {
                            assert(nr[a + 1] == old_r[a]);
                        }
                    } else {
                        assert(nr[p as int]@ == self.methods@[j].0@);
                    }
                }
            }
            i = i + 1;
        }
        proof {
            assert forall|n: Seq<char>| #[trigger] self.methods_view().dom().contains(n) implies exists|a: int| 0 <= a < r@.len() && r@[a]@ == n by {
                let j = choose|j: int| 0 <= j < self.methods@.len() && (#[trigger] self.methods@[j]).0@ == n;
                assert(self.methods@[j].0@ == n);
            }
            assert forall|a: int| 0 <= a < r@.len() implies self.methods_view().dom().contains(#[trigger] r@[a]@) by {
                let j = choose|j: int| 0 <= j < self.methods@.len() && (#[trigger] r@[a])@ == self.methods@[j].0@;
                assert(self.methods@[j].0@ == r@[a]@);
            }
        }
        r
    }

    /// The index of the method declared under `name`.
    fn find_method(&self, name: &String) -> (r: usize)
        requires
            self.wf(),
            self.methods_view().dom().contains(name@),
        ensures
            r < self.methods@.len(),
            self.methods@[r as int].0@ == name@,
            self.methods_view()[name@] == self.methods@[r as int].1,
    {
        let mut i: usize = 0;
        while i < self.methods.len()
            invariant
                self.wf(),
                i <= self.methods@.len(),
                forall|j: int| 0 <= j < i ==> (#[trigger] self.methods@[j]).0@ != name@,
            decreases self.methods@.len() - i,
        {
            if self.methods[i].0 == *name {
                proof {
                    let c = choose|j: int| 0 <= j < self.methods@.len() && (#[trigger] self.methods@[j]).0@ == name@;
                    if c != i {
                        if c < i {
                            assert(self.methods@[c].0@ != self.methods@[i as int].0@);
                        } else {
                            assert(self.methods@[i as int].0@ != self.methods@[c].0@);
                        }
                    }
                }
                return i;
            }
            i = i + 1;
        }
        proof {
            let c = choose|j: int| 0 <= j < self.methods@.len() && (#[trigger] self.methods@[j]).0@ == name@;
            assert(self.methods@[c].0@ == name@);
        }
        0
    }

    /// The index of the hook declared for `ep`, if any.
    fn find_hook(&self, ep: EntryPoint) -> (r: Option<usize>)
        requires
            self.wf(),
        ensures
            r is Some <==> self.life_cycles_view().dom().contains(ep),
            r matches Some(j) ==> j < self.life_cycles@.len() && self.life_cycles@[j as int] == self.life_cycles_view()[ep],
    {
        let mut i: usize = 0;
        while i < self.life_cycles.len()
            invariant
                self.wf(),
                i <= self.life_cycles@.len(),
                forall|j: int| 0 <= j < i ==> (#[trigger] self.life_cycles@[j]).mode != ep,
            decreases self.life_cycles@.len() - i,
        {
            if self.life_cycles[i].mode == ep {
                proof {
                    let c = choose|j: int| 0 <= j < self.life_cycles@.len() && (#[trigger] self.life_cycles@[j]).mode == ep;
                    if c != i {
                        if c < i {
                            assert(self.life_cycles@[c].mode != self.life_cycles@[i as int].mode);
                        } else {
                            assert(self.life_cycles@[i as int].mode != self.life_cycles@[c].mode);
                        }
                    }
                }
                return Some(i);
            }
            i = i + 1;
        }
        None
    }

    /// The names of the methods in the order the service lists them, and the
    /// Rust names of the functions the canister is built with: its lifecycle
    /// hooks in the order of their entry points, then its methods in the
    /// order of their names.
    pub fn export_order(&self) -> (r: (Vec<String>, Vec<String>))
        requires
            self.wf(),
        ensures
            forall|i: int| 0 <= i < r.0@.len() ==> self.methods_view().dom().contains(#[trigger] r.0@[i]@),
            forall|n: Seq<char>| #[trigger] self.methods_view().dom().contains(n) ==> exists|i: int| 0 <= i < r.0@.len() && r.0@[i]@ == n,
            names_distinct(r.0@),
            names_sorted(r.0@),
            r.1@.map_values(|s: String| s@) == hook_names(self.life_cycles_view()) + r.0@.map_values(
                |n: String| self.methods_view()[n@].rust_name@,
            ),
    {
        let mut rust: Vec<String> = Vec::new();
        let order = [
            EntryPoint::Init,
            EntryPoint::PreUpgrade,
            EntryPoint::PostUpgrade,
            EntryPoint::InspectMessage,
            EntryPoint::Heartbeat,
        ];
        let ghost lc = self.life_cycles_view();
        let mut e: usize = 0;
        while e < 5
            invariant
                self.wf(),
                e <= 5,
                order@ == seq![
                    EntryPoint::Init,
                    EntryPoint::PreUpgrade,
                    EntryPoint::PostUpgrade,
                    EntryPoint::InspectMessage,
                    EntryPoint::Heartbeat,
                ],
                lc == self.life_cycles_view(),
                rust@.map_values(|s: String| s@) == hooks_upto(lc, e as int),
            decreases 5 - e,
        {
            let ep = order[e];
            let ghost before = rust@;
            match self.find_hook(ep) {
                Some(j) => {
                    rust.push(self.life_cycles[j].rust_name.clone());
                    proof {
                        assert(rust@.map_values(|s: String| s@) =~= before.map_values(|s: String| s@).push(lc[ep].rust_name@));
                    }
                },
                None => {},
            }
            e = e + 1;
        }
        let names = self.sorted_method_names();
        let mut i: usize = 0;
        while i < names.len()
            invariant
                self.wf(),
                i <= names@.len(),
                forall|a: int| 0 <= a < names@.len() ==> self.methods_view().dom().contains(#[trigger] names@[a]@),
                forall|n: Seq<char>| #[trigger] self.methods_view().dom().contains(n) ==> exists|a: int| 0 <= a < names@.len() && names@[a]@ == n,
                names_distinct(names@),
                names_sorted(names@),
                rust@.map_values(|s: String| s@) == hook_names(lc) + names@.subrange(0, i as int).map_values(
                    |n: String| self.methods_view()[n@].rust_name@,
                ),
                lc == self.life_cycles_view(),
            decreases names@.len() - i,
        {
            let j = self.find_method(&names[i]);
            let ghost before = rust@;
            rust.push(self.methods[j].1.rust_name.clone());
            proof {
                let f = |n: String| self.methods_view()[n@].rust_name@;
                assert(names@.subrange(0, i + 1).map_values(f) =~= names@.subrange(0, i as int).map_values(f).push(
                    f(names@[i as int]),
                ));
                assert(rust@.map_values(|s: String| s@) =~= before.map_values(|s: String| s@).push(f(names@[i as int])));
            }
            i = i + 1;
        }
        proof {
            assert(names@.subrange(0, names@.len() as int) =~= names@);
            assert forall|n: Seq<char>| #[trigger] self.methods_view().dom().contains(n) implies exists|a: int| 0 <= a
                < names@.len() && names@[a]@ == n by {
                let a = choose|a: int| 0 <= a < names@.len() && names@[a]@ == n;
                assert(names@[a]@ == n);
            }
        }
        let r = (names, rust);
        proof {
            assert(r.0@ == names@);
        }
        r
    }

    /// The argument types of the init hook, where one is declared: the
    /// service is then a class over them.
    pub fn init_args(&self) -> (r: Option<&Vec<String>>)
        requires
            self.wf(),
        ensures
            r is Some <==> self.life_cycles_view().dom().contains(EntryPoint::Init),
            r matches Some(a) ==> *a == self.life_cycles_view()[EntryPoint::Init].arg_types,
    {
        match self.find_hook(EntryPoint::Init) {
            Some(j) => Some(&self.life_cycles[j].arg_types),
            None => None,
        }
    }

    /// Whether the canister declared an init hook, whose arguments become
    /// those of the service's class.
    pub fn has_init(&self) -> (r: bool)
        requires
            self.wf(),
        ensures
            r == self.life_cycles_view().dom().contains(EntryPoint::Init),
    {
        let mut i: usize = 0;
        while i < self.life_cycles.len()
            invariant
                i <= self.life_cycles@.len(),
                forall|j: int| 0 <= j < i ==> (#[trigger] self.life_cycles@[j]).mode != EntryPoint::Init,
            decreases self.life_cycles@.len() - i,
        {
            if self.life_cycles[i].mode == EntryPoint::Init {
                return true;
            }
            i = i + 1;
        }
        false
    }
}

} // verus!
