use pavex::blueprint::Blueprint;
use pavex::blueprint::MethodGuard;
use pavex::blueprint::RawCallable;
use pavex::blueprint::GET;
use pavex::blueprint::POST;
use pavex::component::Lifecycle;
use pavex::examples::granular_limits;
use pavex::examples::head;
use pavex::examples::static_methods;
use pavex::request::body::BodySizeLimit;

#[test]
fn new_blueprint_is_empty() {
    let bp = Blueprint::new();
    assert_eq!(bp.n_constructors(), 0);
    assert_eq!(bp.n_routes(), 0);
    assert_eq!(bp.n_nested(), 0);
    assert!(bp.registered_constructor(0).is_none());
    assert!(bp.registered_route(0).is_none());
    assert!(bp.nested(0).is_none());
}

#[test]
fn constructors_are_kept_in_the_order_of_registration() {
    let mut bp = Blueprint::new();
    bp.constructor(RawCallable::new("crate::singleton"), Lifecycle::Singleton);
    bp.constructor(RawCallable::new("crate::scoped"), Lifecycle::RequestScoped)
        .error_handler(RawCallable::new("crate::on_error"));
    bp.constructor(RawCallable::new("crate::transient"), Lifecycle::Transient);
    assert_eq!(bp.n_constructors(), 3);
    let paths: Vec<&str> = (0..3)
        .map(|i| bp.registered_constructor(i).unwrap().constructor.import_path)
        .collect();
    assert_eq!(paths, vec!["crate::singleton", "crate::scoped", "crate::transient"]);
    let lifecycles: Vec<Lifecycle> =
        (0..3).map(|i| bp.registered_constructor(i).unwrap().lifecycle).collect();
    assert_eq!(
        lifecycles,
        vec![Lifecycle::Singleton, Lifecycle::RequestScoped, Lifecycle::Transient]
    );
    assert_eq!(bp.registered_constructor(0).unwrap().error_handler, None);
    assert_eq!(
        bp.registered_constructor(1).unwrap().error_handler,
        Some(RawCallable::new("crate::on_error"))
    );
    assert_eq!(bp.registered_constructor(2).unwrap().error_handler, None);
}

#[test]
fn later_error_handler_takes_the_place_of_the_earlier() {
    let mut bp = Blueprint::new();
    bp.constructor(RawCallable::new("crate::c"), Lifecycle::RequestScoped)
        .error_handler(RawCallable::new("crate::first"))
        .error_handler(RawCallable::new("crate::second"));
    assert_eq!(
        bp.registered_constructor(0).unwrap().error_handler,
        Some(RawCallable::new("crate::second"))
    );
}

#[test]
fn routes_keep_guard_path_and_handler() {
    let mut bp = Blueprint::new();
    bp.route(GET, "/home", RawCallable::new("crate::home"));
    bp.route(POST, "/upload", RawCallable::new("crate::upload"));
    assert_eq!(bp.n_routes(), 2);
    let first = bp.registered_route(0).unwrap();
    assert_eq!(first.method_guard, MethodGuard::Get);
    assert_eq!(first.path, "/home");
    assert_eq!(first.request_handler.import_path, "crate::home");
    let second = bp.registered_route(1).unwrap();
    assert_eq!(second.method_guard, MethodGuard::Post);
    assert_eq!(second.path, "/upload");
    assert_eq!(second.request_handler.import_path, "crate::upload");
}

#[test]
fn static_methods_blueprint_registers_the_method() {
    let bp = static_methods::blueprint();
    assert_eq!(bp.n_constructors(), 1);
    assert_eq!(bp.n_routes(), 0);
    assert_eq!(bp.n_nested(), 0);
    let registered = bp.registered_constructor(0).unwrap();
    assert_eq!(registered.constructor.import_path, "crate::User::extract");
    assert_eq!(registered.lifecycle, Lifecycle::RequestScoped);
    assert_eq!(registered.error_handler, None);
}

#[test]
fn head_blueprint_registers_the_route() {
    let bp = head::blueprint();
    assert_eq!(bp.n_constructors(), 0);
    assert_eq!(bp.n_routes(), 1);
    let route = bp.registered_route(0).unwrap();
    assert_eq!(route.method_guard, GET);
    assert_eq!(route.path, "/head");
    assert_eq!(route.request_handler.import_path, "crate::head::handler");
}

#[test]
fn granular_limits_blueprint_nests_the_uploads() {
    let bp = granular_limits::blueprint();
    assert_eq!(bp.n_constructors(), 0);
    assert_eq!(bp.n_routes(), 0);
    assert_eq!(bp.n_nested(), 1);
    let uploads = bp.nested(0).unwrap();
    assert_eq!(uploads.n_constructors(), 1);
    let limit = uploads.registered_constructor(0).unwrap();
    assert_eq!(limit.constructor.import_path, "crate::upload_size_limit");
    assert_eq!(limit.lifecycle, Lifecycle::Singleton);
    assert_eq!(uploads.n_routes(), 1);
    let route = uploads.registered_route(0).unwrap();
    assert_eq!(route.method_guard, POST);
    assert_eq!(route.path, "/upload");
    assert_eq!(route.request_handler.import_path, "crate::upload");
}

#[test]
fn upload_blueprint_stands_alone() {
    let bp = granular_limits::upload_bp();
    assert_eq!(bp.n_constructors(), 1);
    assert_eq!(bp.n_routes(), 1);
    assert_eq!(bp.n_nested(), 0);
}

#[test]
fn upload_size_limit_is_one_gigabyte() {
    assert_eq!(
        granular_limits::upload_size_limit(),
        BodySizeLimit::Enabled { max_n_bytes: 1_073_741_824 }
    );
}
