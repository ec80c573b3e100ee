use ic_kit::call::EntryPoint;
use ic_kit::codegen::{
    check_entry_point, check_kit_test, di, export_name, index_response, not_found_response, outer_function_name, plan_routes, return_encoding,
    state_access, upgrade_response, ArgType, DeclareError, EntryPointError, EntryPointOptions, FnShape, Handler,
    InjectionError, MethodInfo, MethodRegistry, ReturnEncoding, StateAccess,
};

fn shape(is_async: bool, has_generics: bool, return_length: usize) -> FnShape {
    FnShape { is_async, has_generics, return_length }
}

const PLAIN: EntryPointOptions = EntryPointOptions { renamed: false, guarded: false, hidden: false };

#[test]
fn entry_point_rules() {
    assert_eq!(check_entry_point(EntryPoint::Update, shape(true, true, 0), PLAIN), Err(EntryPointError::AsyncWithGenerics));
    assert_eq!(check_entry_point(EntryPoint::Update, shape(true, false, 2), PLAIN), Ok(()));
    assert_eq!(check_entry_point(EntryPoint::InspectMessage, shape(false, false, 0), PLAIN), Err(EntryPointError::InspectMessageReturn));
    assert_eq!(check_entry_point(EntryPoint::InspectMessage, shape(false, false, 1), PLAIN), Ok(()));
    assert_eq!(check_entry_point(EntryPoint::Init, shape(false, false, 1), PLAIN), Err(EntryPointError::LifecycleReturn));
    let renamed = EntryPointOptions { renamed: true, guarded: false, hidden: false };
    assert_eq!(check_entry_point(EntryPoint::Init, shape(false, false, 0), renamed), Err(EntryPointError::LifecycleRenamed));
    assert_eq!(check_entry_point(EntryPoint::Query, shape(false, false, 0), renamed), Ok(()));
    let hidden = EntryPointOptions { renamed: false, guarded: false, hidden: true };
    assert_eq!(check_entry_point(EntryPoint::Heartbeat, shape(false, false, 0), hidden), Err(EntryPointError::LifecycleHidden));
    let guarded = EntryPointOptions { renamed: false, guarded: true, hidden: false };
    assert_eq!(check_entry_point(EntryPoint::PreUpgrade, shape(false, false, 0), guarded), Err(EntryPointError::LifecycleGuard));
    assert_eq!(check_entry_point(EntryPoint::PostUpgrade, shape(true, false, 0), PLAIN), Err(EntryPointError::LifecycleAsync));
    assert_eq!(
        EntryPointError::LifecycleAsync.message(EntryPoint::Init),
        "#[init] function cannot be async."
    );
}

#[test]
fn export_and_outer_names() {
    assert_eq!(export_name(EntryPoint::Update, "increment"), "canister_update increment");
    assert_eq!(export_name(EntryPoint::Query, "get"), "canister_query get");
    assert_eq!(export_name(EntryPoint::Init, "ignored"), "canister_init");
    assert_eq!(export_name(EntryPoint::InspectMessage, "x"), "canister_inspect_message");
    assert_eq!(outer_function_name(EntryPoint::Update, "inc"), "_ic_kit_canister_update_inc");
}

#[test]
fn return_encodings() {
    assert_eq!(return_encoding(EntryPoint::InspectMessage, 1), ReturnEncoding::AcceptIfTrue);
    assert_eq!(return_encoding(EntryPoint::Init, 0), ReturnEncoding::Nothing);
    assert_eq!(return_encoding(EntryPoint::Update, 0), ReturnEncoding::EmptyReply);
    assert_eq!(return_encoding(EntryPoint::Query, 1), ReturnEncoding::EncodeOne);
    assert_eq!(return_encoding(EntryPoint::Query, 3), ReturnEncoding::EncodeArgs);
    assert_eq!(state_access(0), StateAccess::NoState);
    assert_eq!(state_access(1), StateAccess::Single);
    assert_eq!(state_access(2), StateAccess::Many);
}

fn r(mutable: bool, elem: &str) -> ArgType {
    ArgType::Reference { mutable, elem: elem.to_string() }
}

fn v(t: &str) -> ArgType {
    ArgType::Value(t.to_string())
}

#[test]
fn dependency_injection() {
    let args = vec![
        ("counter".to_string(), r(true, "Counter")),
        ("config".to_string(), r(false, "Config")),
        ("n".to_string(), v("u64")),
    ];
    let p = di(args, false).unwrap();
    assert_eq!(p.args, vec!["counter".to_string(), "config".to_string(), "n".to_string()]);
    assert_eq!(p.mut_args, vec![("counter".to_string(), "Counter".to_string())]);
    assert_eq!(p.imu_args, vec![("config".to_string(), "Config".to_string())]);
    assert_eq!(p.can_args, vec![("n".to_string(), "u64".to_string())]);

    assert_eq!(di(vec![("c".to_string(), r(false, "C"))], true), Err(InjectionError::AsyncMethod));
    assert_eq!(
        di(vec![("n".to_string(), v("u64")), ("c".to_string(), r(false, "C"))], false),
        Err(InjectionError::AfterArguments)
    );
    assert_eq!(
        di(vec![("a".to_string(), r(false, "C")), ("b".to_string(), r(true, "C"))], false),
        Err(InjectionError::Duplicate)
    );
    assert_eq!(
        InjectionError::Duplicate.message(),
        "IC-Kit's dependency injection can only inject one instance of each type."
    );
}

fn handler(name: &str, route: &str, method: &str, upgrade: bool) -> Handler {
    Handler { name: name.into(), route: route.into(), method: method.into(), upgrade }
}

#[test]
fn route_plans() {
    let plan = plan_routes(&vec![]);
    assert_eq!(plan.routes.len(), 1);
    assert_eq!(plan.routes[0].method, "get");
    assert_eq!(plan.routes[0].path, "/*p");
    assert_eq!(plan.methods, vec!["get".to_string()]);
    assert!(!plan.upgradable);

    let plan = plan_routes(&vec![
        handler("a", "/a", "get", false),
        handler("b", "/b", "post", true),
        handler("c", "/c", "get", false),
    ]);
    assert_eq!(plan.routes.len(), 3);
    assert_eq!(plan.routes[1].handler, "b");
    assert!(plan.upgradable);
    assert_eq!(plan.methods, vec!["get".to_string(), "post".to_string()]);

    let up = upgrade_response();
    assert_eq!(up.status_code, 100);
    assert!(up.upgrade);
    let nf = not_found_response("not found");
    assert_eq!(nf.status_code, 404);
    assert_eq!(nf.body, b"not found".to_vec());
}

fn info(mode: EntryPoint, name: &str) -> MethodInfo {
    MethodInfo { mode, rust_name: name.into(), arg_types: vec![], rets: vec![] }
}

#[test]
fn method_registry() {
    let mut reg = MethodRegistry::new();
    assert!(!reg.has_init());
    assert_eq!(reg.declare("init".into(), info(EntryPoint::Init, "init")), Ok(()));
    assert!(reg.has_init());
    assert_eq!(
        reg.declare("init2".into(), info(EntryPoint::Init, "init2")),
        Err(DeclareError::LifecycleDefined(EntryPoint::Init))
    );
    assert_eq!(reg.declare("get".into(), info(EntryPoint::Query, "get")), Ok(()));
    assert_eq!(
        reg.declare("get".into(), info(EntryPoint::Update, "get2")),
        Err(DeclareError::MethodDefined("get".into()))
    );
    assert_eq!(DeclareError::MethodDefined("get".into()).message(), "Method 'get' is already defined.");
    assert_eq!(
        DeclareError::LifecycleDefined(EntryPoint::Init).message(),
        "Canister's 'init' method already defined."
    );
}

#[test]
fn kit_test_must_be_async() {
    assert_eq!(check_kit_test(true), Ok(()));
    assert_eq!(
        check_kit_test(false),
        Err("The #[kit_test] can only be used on top of an async function.".to_string())
    );
}

#[test]
fn index_page_shows_the_balance() {
    let r = index_response(100_000_000_000_000);
    assert_eq!(r.status_code, 200);
    assert!(r.headers.is_empty());
    assert!(!r.upgrade);
    assert_eq!(r.body, b"{\"cycles\": 100000000000000}".to_vec());
    assert_eq!(index_response(0).body, b"{\"cycles\": 0}".to_vec());
}

#[test]
fn export_order_lists_hooks_then_methods_by_name() {
    let mut reg = MethodRegistry::new();
    assert_eq!(reg.declare("zeta".into(), info(EntryPoint::Update, "zeta_fn")), Ok(()));
    assert_eq!(reg.declare("heartbeat".into(), info(EntryPoint::Heartbeat, "beat")), Ok(()));
    assert_eq!(reg.declare("alpha".into(), info(EntryPoint::Query, "alpha_fn")), Ok(()));
    assert_eq!(reg.declare("init".into(), info(EntryPoint::Init, "setup")), Ok(()));
    assert_eq!(reg.declare("Mid".into(), info(EntryPoint::Update, "mid_fn")), Ok(()));
    let (names, rust) = reg.export_order();
    assert_eq!(names, vec!["Mid".to_string(), "alpha".to_string(), "zeta".to_string()]);
    assert_eq!(rust, vec!["setup", "beat", "mid_fn", "alpha_fn", "zeta_fn"]);
    assert_eq!(reg.sorted_method_names(), names);
}

#[test]
fn init_args_are_those_of_the_init_hook() {
    let mut reg = MethodRegistry::new();
    assert_eq!(reg.init_args(), None);
    let mut init = info(EntryPoint::Init, "setup");
    init.arg_types = vec!["u64".to_string()];
    assert_eq!(reg.declare("init".into(), init), Ok(()));
    assert_eq!(reg.init_args(), Some(&vec!["u64".to_string()]));
}
