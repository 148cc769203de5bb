//! The blueprint of an application: what its author registers, in the order
//! of registration.

use crate::component::Lifecycle;
use vstd::prelude::*;
use vstd::string::StringExecFns;

verus! {

/// A callable as its author names it: by the path under which it can be
/// imported.
#[derive(Clone, Copy, Debug, PartialEq, Eq)]
pub struct RawCallable {
    pub import_path: &'static str,
}

impl RawCallable {
    /// The callable at `import_path`.
    pub fn new(import_path: &'static str) -> (callable: RawCallable)
        ensures
            callable.import_path == import_path,
    {
        RawCallable { import_path }
    }
}

/// The methods of the requests that a route takes.
#[derive(Clone, Copy, Debug, PartialEq, Eq, Structural)]
pub enum MethodGuard {
    Get,
    Post,
    Put,
    Patch,
    Delete,
    Head,
    Options,
    Any,
}

/// The guard of the routes that take `GET` requests.
pub const GET: MethodGuard = MethodGuard::Get;

/// The guard of the routes that take `POST` requests.
pub const POST: MethodGuard = MethodGuard::Post;

/// The guard of the routes that take `PUT` requests.
pub const PUT: MethodGuard = MethodGuard::Put;

/// The guard of the routes that take `PATCH` requests.
pub const PATCH: MethodGuard = MethodGuard::Patch;

/// The guard of the routes that take `DELETE` requests.
pub const DELETE: MethodGuard = MethodGuard::Delete;

/// The guard of the routes that take requests of any method.
pub const ANY: MethodGuard = MethodGuard::Any;

/// A constructor as it was registered.
#[derive(Clone, Copy, Debug, PartialEq, Eq)]
pub struct RegisteredConstructor {
    pub constructor: RawCallable,
    pub lifecycle: Lifecycle,
    pub error_handler: Option<RawCallable>,
}

impl RegisteredConstructor {
    /// The constructor is the callable at `import_path`, its values live as
    /// `lifecycle` says, and its error handler, if it has one, is the callable
    /// at `error_handler`.
    pub open spec fn is(
        self,
        import_path: Seq<char>,
        lifecycle: Lifecycle,
        error_handler: Option<Seq<char>>,
    ) -> bool {
        &&& self.constructor.import_path@ == import_path
        &&& self.lifecycle == lifecycle
        &&& match error_handler {
            Some(path) => self.error_handler matches Some(handler) && handler.import_path@ == path,
            None => self.error_handler is None,
        }
    }
}

impl RegisteredRoute {
    /// The route takes the requests to `path` that `method_guard` lets
    /// through, and hands them to the callable at `request_handler`.
    pub open spec fn is(
        self,
        method_guard: MethodGuard,
        path: Seq<char>,
        request_handler: Seq<char>,
    ) -> bool {
        &&& self.method_guard == method_guard
        &&& self.path@ == path
        &&& self.request_handler.import_path@ == request_handler
    }
}

/// A route as it was registered.
#[derive(Clone, Debug, PartialEq, Eq)]
pub struct RegisteredRoute {
    pub method_guard: MethodGuard,
    pub path: String,
    pub request_handler: RawCallable,
}

/// What the author of an application registers: constructors, routes, and
/// the blueprints of the parts of the application.
#[derive(Debug)]
pub struct Blueprint {
    constructors: Vec<RegisteredConstructor>,
    routes: Vec<RegisteredRoute>,
    nested_blueprints: Vec<Blueprint>,
}

/// A constructor that has just been registered with a blueprint, which is
/// borrowed until the registration is complete.
pub struct Constructor<'a> {
    pub blueprint: &'a mut Blueprint,
    pub constructor_id: usize,
}

impl Blueprint {
    /// The constructors, in the order of their registration.
    pub closed spec fn constructors(&self) -> Seq<RegisteredConstructor> {
        self.constructors@
    }

    /// The routes, in the order of their registration.
    pub closed spec fn routes(&self) -> Seq<RegisteredRoute> {
        self.routes@
    }

    /// The nested blueprints, in the order of their registration.
    pub closed spec fn nested_blueprints(&self) -> Seq<Blueprint> {
        self.nested_blueprints@
    }

    /// A blueprint with nothing registered.
    pub fn new() -> (blueprint: Blueprint)
        ensures
            blueprint.constructors() == Seq::<RegisteredConstructor>::empty(),
            blueprint.routes() == Seq::<RegisteredRoute>::empty(),
            blueprint.nested_blueprints() == Seq::<Blueprint>::empty(),
    {
        Blueprint { constructors: Vec::new(), routes: Vec::new(), nested_blueprints: Vec::new() }
    }

    /// Registers `callable` as a constructor whose values live as `lifecycle`
    /// says, without an error handler. The blueprint is borrowed by what is
    /// returned, through which an error handler can be added.
    pub fn constructor<'a>(&'a mut self, callable: RawCallable, lifecycle: Lifecycle) -> (constructor:
        Constructor<'a>)
        ensures
            constructor.blueprint.constructors() == old(self).constructors().push(
                RegisteredConstructor { constructor: callable, lifecycle, error_handler: None },
            ),
            constructor.blueprint.routes() == old(self).routes(),
            constructor.blueprint.nested_blueprints() == old(self).nested_blueprints(),
            constructor.constructor_id == old(self).constructors().len(),
            *final(self) == *final(constructor.blueprint),
    {
        self.constructors.push(
            RegisteredConstructor { constructor: callable, lifecycle, error_handler: None },
        );
        let constructor_id = self.constructors.len() - 1;
        Constructor { blueprint: self, constructor_id }
    }

    /// Registers `callable` as the handler of the requests to `path` that
    /// `method_guard` lets through.
    pub fn route(&mut self, method_guard: MethodGuard, path: &str, callable: RawCallable)
        ensures
            final(self).routes().len() == old(self).routes().len() + 1,
            final(self).routes().drop_last() == old(self).routes(),
            final(self).routes().last().method_guard == method_guard,
            final(self).routes().last().path@ == path@,
            final(self).routes().last().request_handler == callable,
            final(self).constructors() == old(self).constructors(),
            final(self).nested_blueprints() == old(self).nested_blueprints(),
    {
        self.routes.push(
            RegisteredRoute { method_guard, path: String::from_str(path), request_handler: callable },
        );
        proof {
            assert(self.routes@.drop_last() =~= old(self).routes@);
        }
    }

    /// Nests `blueprint` in this one: what it registers is seen by its own
    /// routes only.
    pub fn nest(&mut self, blueprint: Blueprint)
        ensures
            final(self).nested_blueprints() == old(self).nested_blueprints().push(blueprint),
            final(self).constructors() == old(self).constructors(),
            final(self).routes() == old(self).routes(),
    {
        self.nested_blueprints.push(blueprint);
    }

    /// The number of constructors.
    pub fn n_constructors(&self) -> (n: usize)
        ensures
            n == self.constructors().len(),
    {
        self.constructors.len()
    }

    /// The constructor that was registered as the one with number `index`.
    pub fn registered_constructor(&self, index: usize) -> (constructor: Option<
        &RegisteredConstructor,
    >)
        ensures
            index < self.constructors().len() ==> constructor == Some(
                &self.constructors()[index as int],
            ),
            index >= self.constructors().len() ==> constructor is None,
    {
        if index < self.constructors.len() {
            Some(&self.constructors[index])
        } else {
            None
        }
    }

    /// The number of routes.
    pub fn n_routes(&self) -> (n: usize)
        ensures
            n == self.routes().len(),
    {
        self.routes.len()
    }

    /// The route that was registered as the one with number `index`.
    pub fn registered_route(&self, index: usize) -> (route: Option<&RegisteredRoute>)
        ensures
            index < self.routes().len() ==> route == Some(&self.routes()[index as int]),
            index >= self.routes().len() ==> route is None,
    {
        if index < self.routes.len() {
            Some(&self.routes[index])
        } else {
            None
        }
    }

    /// The number of nested blueprints.
    pub fn n_nested(&self) -> (n: usize)
        ensures
            n == self.nested_blueprints().len(),
    {
        self.nested_blueprints.len()
    }

    /// The blueprint that was nested as the one with number `index`.
    pub fn nested(&self, index: usize) -> (blueprint: Option<&Blueprint>)
        ensures
            index < self.nested_blueprints().len() ==> blueprint == Some(
                &self.nested_blueprints()[index as int],
            ),
            index >= self.nested_blueprints().len() ==> blueprint is None,
    {
        if index < self.nested_blueprints.len() {
            Some(&self.nested_blueprints[index])
        } else {
            None
        }
    }
}

/// `constructors` once `error_handler` is the error handler of the constructor
/// with the number `id`; a number that no constructor has changes nothing.
pub open spec fn with_error_handler(
    constructors: Seq<RegisteredConstructor>,
    id: int,
    error_handler: RawCallable,
) -> Seq<RegisteredConstructor> {
    if 0 <= id < constructors.len() {
        constructors.update(
            id,
            RegisteredConstructor { error_handler: Some(error_handler), ..constructors[id] },
        )
    } else {
        constructors
    }
}

impl<'a> Constructor<'a> {
    /// Registers `error_handler` as the error handler of the constructor, in
    /// place of the one that it had. Where the blueprint has no constructor
    /// with this number, nothing is registered.
    pub fn error_handler(self, error_handler: RawCallable) -> (constructor: Constructor<'a>)
        ensures
            constructor.constructor_id == self.constructor_id,
            constructor.blueprint.constructors() == with_error_handler(
                old(self.blueprint).constructors(),
                self.constructor_id as int,
                error_handler,
            ),
            constructor.blueprint.routes() == old(self.blueprint).routes(),
            constructor.blueprint.nested_blueprints() == old(self.blueprint).nested_blueprints(),
            *final(constructor.blueprint) == *final(self.blueprint),
    {
        let Constructor { blueprint, constructor_id } = self;
        if constructor_id < blueprint.constructors.len() {
            let registered = blueprint.constructors[constructor_id];
            blueprint.constructors.set(
                constructor_id,
                RegisteredConstructor { error_handler: Some(error_handler), ..registered },
            );
        }
        Constructor { blueprint, constructor_id }
    }
}

} // verus!
