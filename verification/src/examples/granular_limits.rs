//! A limit on the size of the body that holds for some routes only.

use crate::blueprint::Blueprint;
use crate::blueprint::RawCallable;
use crate::blueprint::POST;
use crate::component::Lifecycle;
use crate::request::body::BodySizeLimit;
use vstd::prelude::*;

verus! {

/// The blueprint `bp` is that of the uploads: one constructor, the limit of
/// the uploads, built once, and one route, `POST /upload`.
pub open spec fn is_upload_blueprint(bp: Blueprint) -> bool {
    &&& bp.constructors().len() == 1
    &&& bp.constructors()[0].is("crate::upload_size_limit"@, Lifecycle::Singleton, None)
    &&& bp.routes().len() == 1
    &&& bp.routes()[0].is(POST, "/upload"@, "crate::upload"@)
    &&& bp.nested_blueprints().len() == 0
}

/// A blueprint that registers nothing itself and nests that of the uploads.
pub fn blueprint() -> (bp: Blueprint)
    ensures
        bp.constructors().len() == 0,
        bp.routes().len() == 0,
        bp.nested_blueprints().len() == 1,
        is_upload_blueprint(bp.nested_blueprints()[0]),
{
    let mut bp = Blueprint::new();
    bp.nest(upload_bp());
    bp
}

/// The blueprint of the uploads. Its limit holds for the routes that it
/// registers itself, and for no others.
pub fn upload_bp() -> (bp: Blueprint)
    ensures
        is_upload_blueprint(bp),
{
    let mut bp = Blueprint::new();
    bp.constructor(RawCallable::new("crate::upload_size_limit"), Lifecycle::Singleton);
    bp.route(POST, "/upload", RawCallable::new("crate::upload"));
    bp
}

/// The limit for uploads: 1 GB.
pub fn upload_size_limit() -> (limit: BodySizeLimit)
    ensures
        limit == (BodySizeLimit::Enabled { max_n_bytes: 1_073_741_824 }),
{
    BodySizeLimit::Enabled { max_n_bytes: 1_073_741_824 }
}

} // verus!
