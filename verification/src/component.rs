//! Components: computations with the role that they play for a handler, and
//! the registry that answers questions about them.

use crate::computation::Computation;
use crate::computation::ComputationDb;
use crate::computation::ComputationId;
use crate::language::Callable;
use crate::language::ResolvedType;
use vstd::prelude::*;

verus! {

/// How long a constructed value lives, and so how often it is built.
#[derive(Clone, Copy, Debug, PartialEq, Eq, Hash, Structural)]
pub enum Lifecycle {
    /// Built at most once in the life of the process, and shared by all requests.
    Singleton,
    /// Built at most once for each request, and shared by its uses there.
    RequestScoped,
    /// Built anew wherever it is used.
    Transient,
}

/// The id of a component in a [`ComponentDb`].
#[derive(Clone, Copy, Debug, PartialEq, Eq, Hash, Structural)]
pub struct ComponentId(pub usize);

/// A component as it is registered: its role, and the id of its computation.
#[derive(Clone, Copy, Debug, PartialEq, Eq, Hash, Structural)]
pub enum Component {
    /// Builds a value, which lives as `lifecycle` says. Where building can
    /// fail, `error_handler` is the component that turns the error into a
    /// response, once one is registered.
    Constructor {
        computation: ComputationId,
        lifecycle: Lifecycle,
        error_handler: Option<ComponentId>,
    },
    /// Answers a request.
    RequestHandler { computation: ComputationId },
    /// Turns the error of the component `fallible` into a response.
    ErrorHandler { computation: ComputationId, fallible: ComponentId },
    /// Derives a value from that of the component `source`, such as one
    /// branch of its result.
    Transformer { computation: ComputationId, source: ComponentId },
}

impl Component {
    /// The id of the computation behind the component.
    pub open spec fn computation(self) -> ComputationId {
        match self {
            Component::Constructor { computation, .. } => computation,
            Component::RequestHandler { computation } => computation,
            Component::ErrorHandler { computation, .. } => computation,
            Component::Transformer { computation, .. } => computation,
        }
    }

    /// The id of the computation behind the component.
    pub fn computation_id(&self) -> (id: ComputationId)
        ensures
            id == self.computation(),
    {
        match self {
            Component::Constructor { computation, .. } => *computation,
            Component::RequestHandler { computation } => *computation,
            Component::ErrorHandler { computation, .. } => *computation,
            Component::Transformer { computation, .. } => *computation,
        }
    }

    /// Whether the component has to be a callable.
    pub open spec fn is_handler(self) -> bool {
        self is RequestHandler || self is ErrorHandler
    }
}

/// A component together with its computation.
#[derive(Debug)]
pub enum HydratedComponent<'a> {
    Constructor(&'a Computation),
    RequestHandler(&'a Callable),
    ErrorHandler(&'a Callable),
    Transformer(&'a Computation),
}

/// The hydrated form of `component`, whose computation is `computation`.
pub open spec fn hydrated<'a>(component: Component, computation: &'a Computation) -> HydratedComponent<
    'a,
> {
    match component {
        Component::Constructor { .. } => HydratedComponent::Constructor(computation),
        Component::RequestHandler { .. } => HydratedComponent::RequestHandler(
            &computation->Callable_0,
        ),
        Component::ErrorHandler { .. } => HydratedComponent::ErrorHandler(&computation->Callable_0),
        Component::Transformer { .. } => HydratedComponent::Transformer(computation),
    }
}

impl<'a> HydratedComponent<'a> {
    /// Whether the component is a callable; otherwise it is one branch of a
    /// result.
    pub open spec fn is_callable(self) -> bool {
        match self {
            HydratedComponent::Constructor(computation) => *computation is Callable,
            HydratedComponent::RequestHandler(_) => true,
            HydratedComponent::ErrorHandler(_) => true,
            HydratedComponent::Transformer(computation) => *computation is Callable,
        }
    }

    /// The callable behind the component, where it [is one](Self::is_callable).
    pub open spec fn callable(self) -> Callable {
        match self {
            HydratedComponent::Constructor(computation) => computation->Callable_0,
            HydratedComponent::RequestHandler(callable) => *callable,
            HydratedComponent::ErrorHandler(callable) => *callable,
            HydratedComponent::Transformer(computation) => computation->Callable_0,
        }
    }

    /// The branch that the component names, where it is no callable.
    pub open spec fn variant(self) -> crate::computation::MatchResultVariant {
        match self {
            HydratedComponent::Constructor(computation) => computation->MatchResult_0.variant,
            HydratedComponent::Transformer(computation) => computation->MatchResult_0.variant,
            _ => arbitrary(),
        }
    }

    /// The type of the value that the component produces.
    pub open spec fn spec_output_type(self) -> ResolvedType {
        match self {
            HydratedComponent::Constructor(computation) => computation.spec_output_type(),
            HydratedComponent::RequestHandler(callable) => callable.output,
            HydratedComponent::ErrorHandler(callable) => callable.output,
            HydratedComponent::Transformer(computation) => computation.spec_output_type(),
        }
    }

    /// The computation behind the component.
    pub open spec fn spec_computation(self) -> Computation {
        match self {
            HydratedComponent::Constructor(computation) => *computation,
            HydratedComponent::RequestHandler(callable) => Computation::Callable(*callable),
            HydratedComponent::ErrorHandler(callable) => Computation::Callable(*callable),
            HydratedComponent::Transformer(computation) => *computation,
        }
    }

    /// The callable behind the component; `None` where the component is one
    /// branch of a result.
    pub fn as_callable(&self) -> (callable: Option<&'a Callable>)
        ensures
            callable is Some <==> self.is_callable(),
            callable matches Some(c) ==> *c == self.callable(),
    {
        match self {
            HydratedComponent::Constructor(computation) => match computation {
                Computation::Callable(callable) => Some(callable),
                Computation::MatchResult(_) => None,
            },
            HydratedComponent::RequestHandler(callable) => Some(callable),
            HydratedComponent::ErrorHandler(callable) => Some(callable),
            HydratedComponent::Transformer(computation) => match computation {
                Computation::Callable(callable) => Some(callable),
                Computation::MatchResult(_) => None,
            },
        }
    }

    /// The branch of a result that the component names; `None` where the
    /// component is a callable.
    pub fn as_variant(&self) -> (variant: Option<crate::computation::MatchResultVariant>)
        ensures
            variant is Some <==> !self.is_callable(),
            variant matches Some(v) ==> v == self.variant(),
    {
        match self {
            HydratedComponent::Constructor(computation) => match computation {
                Computation::Callable(_) => None,
                Computation::MatchResult(projection) => Some(projection.variant),
            },
            HydratedComponent::RequestHandler(_) => None,
            HydratedComponent::ErrorHandler(_) => None,
            HydratedComponent::Transformer(computation) => match computation {
                Computation::Callable(_) => None,
                Computation::MatchResult(projection) => Some(projection.variant),
            },
        }
    }

    /// The type of the value that the component produces.
    pub fn output_type(&self) -> (output: &'a ResolvedType)
        ensures
            *output == self.spec_output_type(),
    {
        match self {
            HydratedComponent::Constructor(computation) => computation.output_type(),
            HydratedComponent::RequestHandler(callable) => callable.output(),
            HydratedComponent::ErrorHandler(callable) => callable.output(),
            HydratedComponent::Transformer(computation) => computation.output_type(),
        }
    }
}

/// Every one of `components` has its computation in `computations`, and that
/// of a request handler or an error handler is a callable.
pub open spec fn hydrates(components: Seq<Component>, computations: Seq<Computation>) -> bool {
    forall|i: int|
        0 <= i < components.len() ==> {
            &&& (#[trigger] components[i]).computation().0 < computations.len()
            &&& components[i].is_handler() ==> computations[components[i].computation().0 as int]
                is Callable
        }
}

/// The hydrated form of the component `id` of `components`.
pub open spec fn hydrated_component<'a>(
    components: Seq<Component>,
    computations: Seq<Computation>,
    id: ComponentId,
) -> HydratedComponent<'a> {
    hydrated(components[id.0 as int], &computations[components[id.0 as int].computation().0 as int])
}

/// The registry of components. Ids are handed out in the order of registration
/// and stay valid.
pub struct ComponentDb {
    components: Vec<Component>,
}

impl View for ComponentDb {
    type V = Seq<Component>;

    /// The components in the order of their registration: the id of each is
    /// its position.
    closed spec fn view(&self) -> Seq<Component> {
        self.components@
    }
}

/// The error handler of the component `id` of `components`, if it has one.
pub open spec fn error_handler_of(components: Seq<Component>, id: ComponentId) -> Option<
    ComponentId,
> {
    if id.0 < components.len() {
        match components[id.0 as int] {
            Component::Constructor { error_handler, .. } => error_handler,
            _ => None,
        }
    } else {
        None
    }
}

/// `components` after an error handler with the computation `computation` was
/// registered for the constructor `fallible`: the handler is the new last
/// component, and the constructor names it.
pub open spec fn with_error_handler(
    components: Seq<Component>,
    computation: ComputationId,
    fallible: ComponentId,
) -> Seq<Component> {
    components.push(Component::ErrorHandler { computation, fallible }).update(
        fallible.0 as int,
        Component::Constructor {
            computation: components[fallible.0 as int]->Constructor_computation,
            lifecycle: components[fallible.0 as int]->Constructor_lifecycle,
            error_handler: Some(ComponentId(components.len() as usize)),
        },
    )
}

impl ComponentDb {
    /// Every component has its computation in `computations`, and that of a
    /// request handler or an error handler is a callable.
    pub open spec fn hydrates_from(&self, computations: &ComputationDb) -> bool {
        hydrates(self@, computations@)
    }

    /// The hydrated form of the component `id`.
    pub open spec fn spec_hydrated_component<'a>(
        &self,
        id: ComponentId,
        computations: &'a ComputationDb,
    ) -> HydratedComponent<'a> {
        hydrated_component(self@, computations@, id)
    }

    /// A registry without components.
    pub fn new() -> (db: ComponentDb)
        ensures
            db@ == Seq::<Component>::empty(),
    {
        ComponentDb { components: Vec::new() }
    }

    /// The number of components that were registered.
    pub fn len(&self) -> (len: usize)
        ensures
            len == self@.len(),
    {
        self.components.len()
    }

    /// The component that was registered under `id`.
    pub fn get(&self, id: ComponentId) -> (component: Component)
        requires
            id.0 < self@.len(),
        ensures
            component == self@[id.0 as int],
    {
        self.components[id.0]
    }

    fn push(&mut self, component: Component) -> (id: ComponentId)
        ensures
            id.0 == old(self)@.len(),
            final(self)@ == old(self)@.push(component),
    {
        self.components.push(component);
        ComponentId(self.components.len() - 1)
    }

    /// Registers a constructor with the computation `computation`, whose values
    /// live as `lifecycle` says, and returns its id.
    pub fn constructor(&mut self, computation: ComputationId, lifecycle: Lifecycle) -> (id:
        ComponentId)
        ensures
            id.0 == old(self)@.len(),
            final(self)@ == old(self)@.push(
                Component::Constructor { computation, lifecycle, error_handler: None },
            ),
    {
        self.push(Component::Constructor { computation, lifecycle, error_handler: None })
    }

    /// Registers a request handler with the computation `computation` and
    /// returns its id.
    pub fn request_handler(&mut self, computation: ComputationId) -> (id: ComponentId)
        ensures
            id.0 == old(self)@.len(),
            final(self)@ == old(self)@.push(Component::RequestHandler { computation }),
    {
        self.push(Component::RequestHandler { computation })
    }

    /// Registers a transformer of the value of the component `source`, with
    /// the computation `computation`, and returns its id.
    pub fn transformer(&mut self, computation: ComputationId, source: ComponentId) -> (id:
        ComponentId)
        ensures
            id.0 == old(self)@.len(),
            final(self)@ == old(self)@.push(Component::Transformer { computation, source }),
    {
        self.push(Component::Transformer { computation, source })
    }

    /// Registers an error handler with the computation `computation` for the
    /// constructor `fallible`, in place of the one that `fallible` had, and
    /// returns its id. Where `fallible` is no constructor of the registry,
    /// nothing is registered.
    pub fn error_handler(&mut self, computation: ComputationId, fallible: ComponentId) -> (id:
        Option<ComponentId>)
        ensures
            id is Some <==> fallible.0 < old(self)@.len() && old(self)@[fallible.0 as int]
                is Constructor,
            id is Some ==> id == Some(ComponentId(old(self)@.len() as usize)) && final(self)@
                == with_error_handler(old(self)@, computation, fallible),
            id is None ==> final(self)@ == old(self)@,
    {
        if fallible.0 >= self.components.len() {
            return None;
        }
        match self.components[fallible.0] {
            Component::Constructor { computation: constructed, lifecycle, .. } => {
                let id = self.push(Component::ErrorHandler { computation, fallible });
                self.components.set(
                    fallible.0,
                    Component::Constructor {
                        computation: constructed,
                        lifecycle,
                        error_handler: Some(id),
                    },
                );
                Some(id)
            },
            _ => None,
        }
    }

    /// Whether every component finds its computation in `computations`, and
    /// every handler a callable.
    pub fn is_hydrated_from(&self, computations: &ComputationDb) -> (hydrates: bool)
        ensures
            hydrates == self.hydrates_from(computations),
    {
        let mut i: usize = 0;
        while i < self.components.len()
            invariant
                i <= self.components.len(),
                forall|k: int|
                    0 <= k < i ==> {
                        &&& (#[trigger] self@[k]).computation().0 < computations@.len()
                        &&& self@[k].is_handler() ==> computations@[self@[k].computation().0 as int]
                            is Callable
                    },
            decreases self.components.len() - i,
        {
            let (computation, is_handler) = match self.components[i] {
                Component::Constructor { computation, .. } => (computation, false),
                Component::RequestHandler { computation } => (computation, true),
                Component::ErrorHandler { computation, .. } => (computation, true),
                Component::Transformer { computation, .. } => (computation, false),
            };
            if computation.0 >= computations.len() {
                return false;
            }
            if is_handler {
                match computations.get(computation) {
                    Computation::Callable(_) => {},
                    Computation::MatchResult(_) => {
                        return false;
                    },
                }
            }
            i = i + 1;
        }
        true
    }

    /// The component `id` together with its computation.
    pub fn hydrated_component<'a>(&self, id: ComponentId, computations: &'a ComputationDb) -> (
        component: HydratedComponent<'a>
    )
        requires
            id.0 < self@.len(),
            self.hydrates_from(computations),
        ensures
            component == self.spec_hydrated_component(id, computations),
    {
        match self.components[id.0] {
            Component::Constructor { computation, .. } => HydratedComponent::Constructor(
                computations.get(computation),
            ),
            Component::RequestHandler { computation } => match computations.get(computation) {
                Computation::Callable(callable) => HydratedComponent::RequestHandler(callable),
                Computation::MatchResult(_) => {
                    proof {
                        assert(self@[id.0 as int].is_handler());
                    }
                    unreached()
                },
            },
            Component::ErrorHandler { computation, .. } => match computations.get(computation) {
                Computation::Callable(callable) => HydratedComponent::ErrorHandler(callable),
                Computation::MatchResult(_) => {
                    proof {
                        assert(self@[id.0 as int].is_handler());
                    }
                    unreached()
                },
            },
            Component::Transformer { computation, .. } => HydratedComponent::Transformer(
                computations.get(computation),
            ),
        }
    }

    /// The type of the value that the component `id` produces.
    pub fn output_type<'a>(&self, id: ComponentId, computations: &'a ComputationDb) -> (output:
        &'a ResolvedType)
        requires
            id.0 < self@.len(),
            self.hydrates_from(computations),
        ensures
            *output == self.spec_hydrated_component(id, computations).spec_output_type(),
    {
        self.hydrated_component(id, computations).output_type()
    }

    /// The lifecycle of the component `id`, where it is a constructor.
    pub fn lifecycle(&self, id: ComponentId) -> (lifecycle: Option<Lifecycle>)
        requires
            id.0 < self@.len(),
        ensures
            lifecycle == match self@[id.0 as int] {
                Component::Constructor { lifecycle, .. } => Some(lifecycle),
                _ => None,
            },
    {
        match self.components[id.0] {
            Component::Constructor { lifecycle, .. } => Some(lifecycle),
            _ => None,
        }
    }

    /// The error handler that was registered for the component `id`, if any.
    pub fn error_handler_of(&self, id: ComponentId) -> (handler: Option<ComponentId>)
        ensures
            handler == error_handler_of(self@, id),
    {
        if id.0 < self.components.len() {
            match self.components[id.0] {
                Component::Constructor { error_handler, .. } => error_handler,
                _ => None,
            }
        } else {
            None
        }
    }
}

} // verus!
