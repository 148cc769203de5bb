//! A method without a receiver as a constructor.

use crate::blueprint::Blueprint;
use crate::blueprint::RawCallable;
use crate::component::Lifecycle;
use vstd::prelude::*;

verus! {

/// A blueprint with one constructor, the method `User::extract`, whose value
/// is built once for each request.
pub fn blueprint() -> (bp: Blueprint)
    ensures
        bp.constructors().len() == 1,
        bp.constructors()[0].is("crate::User::extract"@, Lifecycle::RequestScoped, None),
        bp.routes().len() == 0,
        bp.nested_blueprints().len() == 0,
{
    let mut bp = Blueprint::new();
    bp.constructor(RawCallable::new("crate::User::extract"), Lifecycle::RequestScoped);
    bp
}

} // verus!
