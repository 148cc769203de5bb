//! The body of a request.

use crate::blueprint::Blueprint;
use crate::blueprint::Constructor;
use crate::blueprint::RawCallable;
use crate::component::Lifecycle;
use vstd::prelude::*;

verus! {

/// An upper limit on the size of incoming request bodies.
#[derive(Debug, Clone, Copy, PartialEq, Eq, Structural)]
pub enum BodySizeLimit {
    /// There is an active limit on the size of incoming request bodies.
    Enabled {
        /// The maximum size of incoming request bodies, in bytes.
        max_n_bytes: usize,
    },
    /// There is no limit on the size of incoming request bodies.
    Disabled,
}

impl BodySizeLimit {
    /// Registers the default constructor of `BodySizeLimit` with `bp`: a new
    /// limit for each request, and no error handler.
    pub fn register<'a>(bp: &'a mut Blueprint) -> (constructor: Constructor<'a>)
        ensures
            constructor.constructor_id == old(bp).constructors().len(),
            constructor.blueprint.constructors().len() == old(bp).constructors().len() + 1,
            constructor.blueprint.constructors().drop_last() == old(bp).constructors(),
            constructor.blueprint.constructors().last().is(
                "<pavex::request::body::BodySizeLimit as std::default::Default>::default"@,
                Lifecycle::RequestScoped,
                None,
            ),
            constructor.blueprint.routes() == old(bp).routes(),
            constructor.blueprint.nested_blueprints() == old(bp).nested_blueprints(),
            *final(bp) == *final(constructor.blueprint),
    {
        let constructor = bp.constructor(
            RawCallable::new(
                "<pavex::request::body::BodySizeLimit as std::default::Default>::default",
            ),
            Lifecycle::RequestScoped,
        );
        proof {
            assert(constructor.blueprint.constructors().drop_last() =~= old(bp).constructors());
        }
        constructor
    }
}

impl Default for BodySizeLimit {
    /// A limit of 2 MBs.
    fn default() -> (limit: BodySizeLimit)
        ensures
            limit == (BodySizeLimit::Enabled { max_n_bytes: 2_097_152 }),
    {
        BodySizeLimit::Enabled { max_n_bytes: 2_097_152 }
    }
}

} // verus!
