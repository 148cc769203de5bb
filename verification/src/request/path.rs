//! The parameters of the route in the path of a request.

use crate::blueprint::Blueprint;
use crate::blueprint::Constructor;
use crate::blueprint::RawCallable;
use crate::component::Lifecycle;
use vstd::prelude::*;

verus! {

/// The route parameters of an incoming request, as a value of the type `T`
/// that its user names.
#[derive(Debug, Clone, PartialEq, Eq)]
pub struct PathParams<T>(
    /// The extracted route parameters.
    pub T,
);

/// A route parameter: its name in the template of the route, and its value.
#[derive(Debug, Clone, PartialEq, Eq)]
pub struct PathParam {
    pub key: String,
    pub value: String,
}

/// `std::str::Utf8Error`, which says where bytes stop being UTF-8, opaque to
/// the verifier.
#[verifier::external_type_specification]
#[verifier::external_body]
pub struct ExUtf8Error(std::str::Utf8Error);

/// A route parameter whose percent-decoded value is no UTF-8: its name, its
/// value as it stood in the path, and what the decoder said of it.
#[derive(Debug, PartialEq, Eq)]
pub struct InvalidUtf8InPathParam {
    pub invalid_key: String,
    pub invalid_raw_segment: String,
    pub source: std::str::Utf8Error,
}

/// The decoded route parameters are no value of the type that their user
/// names.
#[derive(Debug, Clone, PartialEq, Eq)]
pub struct PathDeserializationError {
    pub message: String,
}

/// Why the route parameters could not be extracted.
#[derive(Debug, PartialEq, Eq)]
pub enum ExtractPathParamsError {
    /// A value is no UTF-8 once it is percent-decoded.
    InvalidUtf8InPathParameter(InvalidUtf8InPathParam),
    /// The decoded parameters could not be read into the type that was asked
    /// for. Reading is the work of that type, so decoding never ends so.
    PathDeserializationError(PathDeserializationError),
}

/// A [`PathParam`] as the verifier sees it: its name and its value.
pub open spec fn param_view(param: PathParam) -> (Seq<char>, Seq<char>) {
    (param.key@, param.value@)
}

/// `params` as the verifier sees them.
pub open spec fn param_views(params: Seq<PathParam>) -> Seq<(Seq<char>, Seq<char>)> {
    params.map_values(|p: PathParam| param_view(p))
}

/// What percent-decoding makes of `raw`: the text that its bytes are once
/// each `%` with two hexadecimal digits has given way to the byte that the
/// digits name, or `None` where those bytes are no UTF-8.
pub uninterp spec fn percent_decoded(raw: Seq<char>) -> Option<Seq<char>>;

/// Calls `percent_encoding::percent_decode_str`, and `decode_utf8` on what it
/// returns: the decoded text, or the error of the decoder where the decoded
/// bytes are no UTF-8. Of the error itself nothing is claimed.
#[verifier::external_body]
pub(crate) fn percent_decode(raw: &str) -> (decoded: Result<String, std::str::Utf8Error>)
    ensures
        decoded is Ok <==> percent_decoded(raw@) is Some,
        decoded matches Ok(text) ==> percent_decoded(raw@) == Some(text@),
{
    percent_encoding::percent_decode_str(raw).decode_utf8().map(|text| text.into_owned())
}

/// The decoded parameters: those of `raw`, in their order, each with its
/// value percent-decoded. The first parameter whose value cannot be decoded
/// is the error, with its name and its raw value.
pub open spec fn decoded_params(raw: Seq<(Seq<char>, Seq<char>)>) -> Result<
    Seq<(Seq<char>, Seq<char>)>,
    (Seq<char>, Seq<char>),
>
    decreases raw.len(),
{
    if raw.len() == 0 {
        Ok(Seq::empty())
    } else {
        match percent_decoded(raw[0].1) {
            None => Err(raw[0]),
            Some(value) => match decoded_params(raw.drop_first()) {
                Err(e) => Err(e),
                Ok(rest) => Ok(seq![(raw[0].0, value)] + rest),
            },
        }
    }
}

/// What [`decode_params`] returns for what [`decoded_params`] names: the
/// decoded parameters, or the parameter that could not be decoded, with
/// whatever the decoder said of it.
pub open spec fn is_decoded(
    got: Result<Vec<PathParam>, ExtractPathParamsError>,
    expected: Result<Seq<(Seq<char>, Seq<char>)>, (Seq<char>, Seq<char>)>,
) -> bool {
    match got {
        Ok(params) => expected == Ok::<Seq<(Seq<char>, Seq<char>)>, (Seq<char>, Seq<char>)>(
            param_views(params@),
        ),
        Err(ExtractPathParamsError::InvalidUtf8InPathParameter(invalid)) => expected == Err::<
            Seq<(Seq<char>, Seq<char>)>,
            (Seq<char>, Seq<char>),
        >((invalid.invalid_key@, invalid.invalid_raw_segment@)),
        Err(ExtractPathParamsError::PathDeserializationError(_)) => false,
    }
}

/// Where the first raw parameters hold one that cannot be decoded, that is
/// the error for all; else all are decoded as the first are, and then the
/// rest.
pub proof fn lemma_decoded_params(raw: Seq<(Seq<char>, Seq<char>)>, n: int)
    requires
        0 <= n <= raw.len(),
    ensures
        match decoded_params(raw.take(n)) {
            Err(e) => decoded_params(raw) == Err::<
                Seq<(Seq<char>, Seq<char>)>,
                (Seq<char>, Seq<char>),
            >(e),
            Ok(first) => decoded_params(raw) == match decoded_params(raw.skip(n)) {
                Err(e) => Err::<Seq<(Seq<char>, Seq<char>)>, (Seq<char>, Seq<char>)>(e),
                Ok(rest) => Ok(first + rest),
            },
        },
    decreases n,
{
    if n == 0 {
        assert(raw.take(0) =~= Seq::<(Seq<char>, Seq<char>)>::empty());
        assert(raw.skip(0) =~= raw);
        if let Ok(rest) = decoded_params(raw) {
            assert(Seq::<(Seq<char>, Seq<char>)>::empty() + rest =~= rest);
        }
    } else {
        assert(raw.take(n)[0] == raw[0]);
        assert(raw.take(n).drop_first() =~= raw.drop_first().take(n - 1));
        assert(raw.skip(n) =~= raw.drop_first().skip(n - 1));
        lemma_decoded_params(raw.drop_first(), n - 1);
        if let Some(value) = percent_decoded(raw[0].1) {
            if let Ok(first) = decoded_params(raw.drop_first().take(n - 1)) {
                if let Ok(rest) = decoded_params(raw.skip(n)) {
                    assert(seq![(raw[0].0, value)] + (first + rest) =~= (seq![(raw[0].0, value)]
                        + first) + rest);
                }
            }
        }
    }
}

/// What becomes of the parameter `param` once the decoder has seen its value:
/// the parameter with the decoded value, or the error that holds the name of
/// the parameter, its raw value and the error that the decoder returned.
pub fn decoded_or_error(param: &PathParam, decoded: Result<String, std::str::Utf8Error>) -> (outcome:
    Result<PathParam, ExtractPathParamsError>)
    ensures
        match decoded {
            Ok(value) => outcome matches Ok(read) && read.key@ == param.key@ && read.value@
                == value@,
            Err(source) => outcome matches Err(
                ExtractPathParamsError::InvalidUtf8InPathParameter(invalid),
            ) && invalid.invalid_key@ == param.key@ && invalid.invalid_raw_segment@
                == param.value@ && invalid.source == source,
        },
{
    match decoded {
        Ok(value) => Ok(PathParam { key: param.key.clone(), value }),
        Err(source) => Err(
            ExtractPathParamsError::InvalidUtf8InPathParameter(
                InvalidUtf8InPathParam {
                    invalid_key: param.key.clone(),
                    invalid_raw_segment: param.value.clone(),
                    source,
                },
            ),
        ),
    }
}

/// Percent-decodes the value of each of `params`. The first value that
/// cannot be decoded ends the work: its parameter is the error, as
/// [`decoded_or_error`] builds it from what the decoder returned.
pub fn decode_params(params: &Vec<PathParam>) -> (outcome: Result<
    Vec<PathParam>,
    ExtractPathParamsError,
>)
    ensures
        is_decoded(outcome, decoded_params(param_views(params@))),
{
    let ghost raw = param_views(params@);
    let mut decoded: Vec<PathParam> = Vec::new();
    let mut i: usize = 0;
    proof {
        assert(raw.take(0) =~= Seq::<(Seq<char>, Seq<char>)>::empty());
        assert(param_views(decoded@) =~= Seq::<(Seq<char>, Seq<char>)>::empty());
    }
    while i < params.len()
        invariant
            i <= params.len(),
            raw == param_views(params@),
            decoded_params(raw.take(i as int)) == Ok::<
                Seq<(Seq<char>, Seq<char>)>,
                (Seq<char>, Seq<char>),
            >(param_views(decoded@)),
        decreases params.len() - i,
    {
        let ghost so_far = param_views(decoded@);
        let ghost next = raw.take(i + 1);
        let ghost last = seq![raw[i as int]];
        proof {
            lemma_decoded_params(next, i as int);
            assert(next.take(i as int) =~= raw.take(i as int));
            assert(next.skip(i as int) =~= last);
            assert(last.drop_first() =~= Seq::<(Seq<char>, Seq<char>)>::empty());
            assert(decoded_params(last.drop_first()) == Ok::<
                Seq<(Seq<char>, Seq<char>)>,
                (Seq<char>, Seq<char>),
            >(Seq::empty()));
            assert(raw[i as int] == param_view(params@[i as int]));
            lemma_decoded_params(raw, i + 1);
        }
        let param = match decoded_or_error(&params[i], percent_decode(params[i].value.as_str())) {
            Ok(param) => param,
            Err(e) => {
                return Err(e);
            },
        };
        decoded.push(param);
        proof {
            assert(param_views(decoded@) =~= so_far + seq![param_view(param)]);
            assert(seq![param_view(param)] + Seq::<(Seq<char>, Seq<char>)>::empty() =~= seq![
                param_view(param),
            ]);
            assert(decoded_params(last) == Ok::<
                Seq<(Seq<char>, Seq<char>)>,
                (Seq<char>, Seq<char>),
            >(seq![param_view(param)]));
        }
        i = i + 1;
    }
    proof {
        assert(raw.take(raw.len() as int) =~= raw);
    }
    Ok(decoded)
}

impl PathParams<Vec<PathParam>> {
    /// The default constructor of `PathParams`, for the parameters as they
    /// are, not yet read into a type of their user: each value is
    /// percent-decoded.
    pub fn extract(params: &Vec<PathParam>) -> (extracted: Result<
        PathParams<Vec<PathParam>>,
        ExtractPathParamsError,
    >)
        ensures
            match extracted {
                Ok(path_params) => is_decoded(
                    Ok(path_params.0),
                    decoded_params(param_views(params@)),
                ),
                Err(e) => is_decoded(Err(e), decoded_params(param_views(params@))),
            },
    {
        match decode_params(params) {
            Ok(decoded) => Ok(PathParams(decoded)),
            Err(e) => Err(e),
        }
    }
}

impl PathParams<()> {
    /// Registers the default constructor of `PathParams` with `bp`, for each
    /// request anew, and its error handler.
    pub fn register<'a>(bp: &'a mut Blueprint) -> (constructor: Constructor<'a>)
        ensures
            constructor.constructor_id == old(bp).constructors().len(),
            constructor.blueprint.constructors().len() == old(bp).constructors().len() + 1,
            constructor.blueprint.constructors().drop_last() == old(bp).constructors(),
            constructor.blueprint.constructors().last().is(
                "pavex::request::path::PathParams::extract"@,
                Lifecycle::RequestScoped,
                Some("pavex::request::path::errors::ExtractPathParamsError::into_response"@),
            ),
            constructor.blueprint.routes() == old(bp).routes(),
            constructor.blueprint.nested_blueprints() == old(bp).nested_blueprints(),
            *final(bp) == *final(constructor.blueprint),
    {
        let constructor = bp.constructor(
            RawCallable::new("pavex::request::path::PathParams::extract"),
            Lifecycle::RequestScoped,
        ).error_handler(
            RawCallable::new("pavex::request::path::errors::ExtractPathParamsError::into_response"),
        );
        proof {
            assert(constructor.blueprint.constructors().drop_last() =~= old(bp).constructors());
        }
        constructor
    }
}

} // verus!
