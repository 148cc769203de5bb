//! A handler that asks for the head of the request.

use crate::blueprint::Blueprint;
use crate::blueprint::RawCallable;
use crate::blueprint::GET;
use vstd::prelude::*;

verus! {

/// A blueprint with one route: `GET /head`, answered by `head::handler`.
pub fn blueprint() -> (bp: Blueprint)
    ensures
        bp.routes().len() == 1,
        bp.routes()[0].is(GET, "/head"@, "crate::head::handler"@),
        bp.constructors().len() == 0,
        bp.nested_blueprints().len() == 0,
{
    let mut bp = Blueprint::new();
    bp.route(GET, "/head", RawCallable::new("crate::head::handler"));
    bp
}

} // verus!
