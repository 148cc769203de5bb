//! The parameters in the query of a request.

use crate::blueprint::Blueprint;
use crate::blueprint::Constructor;
use crate::blueprint::RawCallable;
use crate::component::Lifecycle;
use vstd::prelude::*;

verus! {

/// `serde::de::value::Error`, the error of `serde_html_form`, opaque to the
/// verifier.
#[verifier::external_type_specification]
#[verifier::external_body]
pub struct ExFormError(serde_html_form::de::Error);

/// The query parameters of an incoming request, as a value of the type `T`
/// that its user names.
#[derive(Debug, Clone, PartialEq, Eq)]
pub struct QueryParams<T>(
    /// The extracted query parameters.
    pub T,
);

/// A query parameter: its name and its value.
#[derive(Debug, Clone, PartialEq, Eq)]
pub struct QueryParam {
    pub key: String,
    pub value: String,
}

/// The query could not be read: what the parser said of it.
#[derive(Debug, PartialEq)]
pub struct QueryDeserializationError {
    pub source: serde_html_form::de::Error,
}

impl QueryDeserializationError {
    /// The error with the source `source`.
    pub fn new(source: serde_html_form::de::Error) -> (error: QueryDeserializationError)
        ensures
            error.source == source,
    {
        QueryDeserializationError { source }
    }
}

/// Why the query parameters could not be extracted.
#[derive(Debug, PartialEq)]
pub enum ExtractQueryParamsError {
    QueryDeserializationError(QueryDeserializationError),
}

/// `params` as the verifier sees them: of each its name and its value.
pub open spec fn query_views(params: Seq<QueryParam>) -> Seq<(Seq<char>, Seq<char>)> {
    params.map_values(|p: QueryParam| (p.key@, p.value@))
}

/// `pairs` as the verifier sees them.
pub open spec fn pair_views(pairs: Seq<(String, String)>) -> Seq<(Seq<char>, Seq<char>)> {
    pairs.map_values(|p: (String, String)| (p.0@, p.1@))
}

/// What `serde_html_form` reads from the query `query` as a list of pairs:
/// the parameters in the order of the query, each name and each value decoded,
/// or `None` where it reads no such list.
pub uninterp spec fn form_pairs(query: Seq<char>) -> Option<Seq<(Seq<char>, Seq<char>)>>;

/// Calls `serde_html_form::from_str` for a list of pairs of strings.
#[verifier::external_body]
pub(crate) fn form_from_str(query: &str) -> (pairs: Result<
    Vec<(String, String)>,
    serde_html_form::de::Error,
>)
    ensures
        pairs is Ok <==> form_pairs(query@) is Some,
        pairs matches Ok(read) ==> form_pairs(query@) == Some(pair_views(read@)),
{
    serde_html_form::from_str::<Vec<(String, String)>>(query)
}

/// What [`parse`] returns for the pairs that the parser read, or for its
/// error: the parameters, in the order of the pairs, or the error of this
/// library.
pub fn params_or_error(pairs: Result<Vec<(String, String)>, serde_html_form::de::Error>) -> (params:
    Result<Vec<QueryParam>, ExtractQueryParamsError>)
    ensures
        match pairs {
            Ok(read) => params matches Ok(p) && query_views(p@) == pair_views(read@),
            Err(source) => params == Err::<Vec<QueryParam>, ExtractQueryParamsError>(
                ExtractQueryParamsError::QueryDeserializationError(
                    QueryDeserializationError { source },
                ),
            ),
        },
{
    match pairs {
        Ok(read) => {
            let ghost expected = pair_views(read@);
            let mut params: Vec<QueryParam> = Vec::new();
            let mut i: usize = 0;
            while i < read.len()
                invariant
                    i <= read.len(),
                    expected == pair_views(read@),
                    query_views(params@) == expected.take(i as int),
                decreases read.len() - i,
            {
                let ghost so_far = query_views(params@);
                let param = QueryParam { key: read[i].0.clone(), value: read[i].1.clone() };
                params.push(param);
                proof {
                    assert(query_views(params@) =~= so_far.push((param.key@, param.value@)));
                    assert(expected.take(i + 1) =~= expected.take(i as int).push(
                        expected[i as int],
                    ));
                }
                i = i + 1;
            }
            proof {
                assert(expected.take(expected.len() as int) =~= expected);
            }
            Ok(params)
        },
        Err(source) => Err(
            ExtractQueryParamsError::QueryDeserializationError(
                QueryDeserializationError::new(source),
            ),
        ),
    }
}

/// Parses a query string into its parameters, in the order of the query.
/// Where the parser reads no parameters from it, the error holds what the
/// parser said.
pub fn parse(s: &str) -> (params: Result<Vec<QueryParam>, ExtractQueryParamsError>)
    ensures
        match form_pairs(s@) {
            Some(pairs) => params matches Ok(p) && query_views(p@) == pairs,
            None => params is Err,
        },
{
    params_or_error(form_from_str(s))
}

impl QueryParams<Vec<QueryParam>> {
    /// The default constructor of `QueryParams`, for the parameters as they
    /// are, not yet read into a type of their user. A request without a query
    /// has the parameters of the empty query.
    pub fn extract(query: Option<&str>) -> (extracted: Result<
        QueryParams<Vec<QueryParam>>,
        ExtractQueryParamsError,
    >)
        ensures
            match form_pairs(
                match query {
                    Some(q) => q@,
                    None => Seq::empty(),
                },
            ) {
                Some(pairs) => extracted matches Ok(params) && query_views(params.0@) == pairs,
                None => extracted is Err,
            },
    {
        let query = match query {
            Some(query) => query,
            None => {
                proof {
                    reveal_strlit("");
                    assert(""@ =~= Seq::<char>::empty());
                }
                ""
            },
        };
        match parse(query) {
            Ok(params) => Ok(QueryParams(params)),
            Err(e) => Err(e),
        }
    }
}

impl QueryParams<()> {
    /// Registers the default constructor of `QueryParams` with `bp`, for each
    /// request anew, and its error handler.
    pub fn register<'a>(bp: &'a mut Blueprint) -> (constructor: Constructor<'a>)
        ensures
            constructor.constructor_id == old(bp).constructors().len(),
            constructor.blueprint.constructors().len() == old(bp).constructors().len() + 1,
            constructor.blueprint.constructors().drop_last() == old(bp).constructors(),
            constructor.blueprint.constructors().last().is(
                "pavex::request::query::QueryParams::extract"@,
                Lifecycle::RequestScoped,
                Some("pavex::request::query::errors::ExtractQueryParamsError::into_response"@),
            ),
            constructor.blueprint.routes() == old(bp).routes(),
            constructor.blueprint.nested_blueprints() == old(bp).nested_blueprints(),
            *final(bp) == *final(constructor.blueprint),
    {
        let constructor = bp.constructor(
            RawCallable::new("pavex::request::query::QueryParams::extract"),
            Lifecycle::RequestScoped,
        ).error_handler(
            RawCallable::new(
                "pavex::request::query::errors::ExtractQueryParamsError::into_response",
            ),
        );
        proof {
            assert(constructor.blueprint.constructors().drop_last() =~= old(bp).constructors());
        }
        constructor
    }
}

} // verus!
