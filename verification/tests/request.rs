use pavex::blueprint::Blueprint;
use pavex::blueprint::RawCallable;
use pavex::component::Lifecycle;
use pavex::request::body::BodySizeLimit;
use pavex::request::path::decode_params;
use pavex::request::path::decoded_or_error;
use pavex::request::path::ExtractPathParamsError;
use pavex::request::path::InvalidUtf8InPathParam;
use pavex::request::path::PathDeserializationError;
use pavex::request::path::PathParam;
use pavex::request::path::PathParams;
use pavex::request::query::parse;
use pavex::request::query::ExtractQueryParamsError;
use pavex::request::query::QueryDeserializationError;
use pavex::request::query::QueryParam;
use pavex::request::query::QueryParams;

fn value_of<'a>(params: &'a [QueryParam], key: &str) -> &'a str {
    params.iter().find(|p| p.key == key).map(|p| p.value.as_str()).unwrap()
}

fn values_of(params: &[QueryParam], key: &str) -> Vec<u32> {
    params.iter().filter(|p| p.key == key).map(|p| p.value.parse().unwrap()).collect()
}

#[test]
fn test_parse() {
    #[derive(Debug, PartialEq)]
    struct Home {
        home_id: u32,
        home_price: f64,
        home_name: String,
    }

    let query = "home_id=1&home_price=0.1&home_name=Hi%20there";
    let expected = Home { home_id: 1, home_price: 0.1, home_name: "Hi there".to_string() };
    let params = parse(query).unwrap();
    let actual = Home {
        home_id: value_of(&params, "home_id").parse().unwrap(),
        home_price: value_of(&params, "home_price").parse().unwrap(),
        home_name: value_of(&params, "home_name").to_string(),
    };
    assert_eq!(expected, actual);
}

#[test]
fn test_sequence() {
    #[derive(Debug, PartialEq)]
    struct Home {
        room_ids: Vec<u32>,
    }

    let query = "room_ids=1&room_ids=2";
    let expected = Home { room_ids: vec![1, 2] };
    let actual = Home { room_ids: values_of(&parse(query).unwrap(), "room_ids") };
    assert_eq!(expected, actual);
}

#[test]
fn test_sequence_with_brackets() {
    #[derive(Debug, PartialEq)]
    struct Home {
        room_ids: Vec<u32>,
    }

    let query = "room_ids[]=1&room_ids[]=2";
    let expected = Home { room_ids: vec![1, 2] };
    let actual = Home { room_ids: values_of(&parse(query).unwrap(), "room_ids[]") };
    assert_eq!(expected, actual);
}

#[test]
fn query_parameters_keep_the_order_of_the_query() {
    let params = parse("b=2&a=1&b=3").unwrap();
    let pairs: Vec<(&str, &str)> =
        params.iter().map(|p| (p.key.as_str(), p.value.as_str())).collect();
    assert_eq!(pairs, vec![("b", "2"), ("a", "1"), ("b", "3")]);
}

#[test]
fn request_without_a_query_has_no_parameters() {
    assert_eq!(QueryParams::extract(None), Ok(QueryParams(vec![])));
    assert_eq!(QueryParams::extract(Some("")), Ok(QueryParams(vec![])));
    assert_eq!(
        QueryParams::extract(Some("home_id=1")),
        Ok(QueryParams(vec![QueryParam { key: "home_id".to_string(), value: "1".to_string() }]))
    );
}

fn param(key: &str, value: &str) -> PathParam {
    PathParam { key: key.to_string(), value: value.to_string() }
}

#[test]
fn path_parameters_are_percent_decoded() {
    let raw = vec![param("name", "John%20Doe"), param("home_id", "1")];
    assert_eq!(
        PathParams::extract(&raw),
        Ok(PathParams(vec![param("name", "John Doe"), param("home_id", "1")]))
    );
}

#[test]
fn path_parameter_that_is_no_utf8_is_refused_with_its_key() {
    let raw = vec![param("home_id", "1"), param("name", "%FF"), param("other", "%FE")];
    assert_eq!(
        decode_params(&raw),
        Err(ExtractPathParamsError::InvalidUtf8InPathParameter(InvalidUtf8InPathParam {
            invalid_key: "name".to_string(),
            invalid_raw_segment: "%FF".to_string(),
            source: String::from_utf8(vec![0xFF]).unwrap_err().utf8_error(),
        }))
    );
}

#[test]
fn decoder_says_where_the_bytes_stop_being_utf8() {
    let raw = vec![param("name", "ab%C3%28")];
    match decode_params(&raw) {
        Err(ExtractPathParamsError::InvalidUtf8InPathParameter(invalid)) => {
            assert_eq!(invalid.invalid_key, "name");
            assert_eq!(invalid.invalid_raw_segment, "ab%C3%28");
            assert_eq!(invalid.source.valid_up_to(), 2);
        }
        other => panic!("decoded: {:?}", other),
    }
}

#[test]
fn no_path_parameters_decode_to_none() {
    assert_eq!(decode_params(&vec![]), Ok(vec![]));
}

#[test]
fn default_body_size_limit_is_two_megabytes() {
    assert_eq!(BodySizeLimit::default(), BodySizeLimit::Enabled { max_n_bytes: 2_097_152 });
}

#[test]
fn body_size_limit_registers_its_default_constructor() {
    let mut bp = Blueprint::new();
    BodySizeLimit::register(&mut bp);
    assert_eq!(bp.n_constructors(), 1);
    let registered = bp.registered_constructor(0).unwrap();
    assert_eq!(
        registered.constructor.import_path,
        "<pavex::request::body::BodySizeLimit as std::default::Default>::default"
    );
    assert_eq!(registered.lifecycle, Lifecycle::RequestScoped);
    assert_eq!(registered.error_handler, None);
}

#[test]
fn path_params_register_constructor_and_error_handler() {
    let mut bp = Blueprint::new();
    bp.constructor(RawCallable::new("crate::first"), Lifecycle::Singleton);
    PathParams::register(&mut bp);
    assert_eq!(bp.n_constructors(), 2);
    assert_eq!(bp.registered_constructor(0).unwrap().error_handler, None);
    let registered = bp.registered_constructor(1).unwrap();
    assert_eq!(registered.constructor.import_path, "pavex::request::path::PathParams::extract");
    assert_eq!(registered.lifecycle, Lifecycle::RequestScoped);
    assert_eq!(
        registered.error_handler,
        Some(RawCallable::new(
            "pavex::request::path::errors::ExtractPathParamsError::into_response"
        ))
    );
}

#[test]
fn query_params_register_constructor_and_error_handler() {
    let mut bp = Blueprint::new();
    let constructor = QueryParams::register(&mut bp);
    assert_eq!(constructor.constructor_id, 0);
    assert_eq!(bp.n_constructors(), 1);
    let registered = bp.registered_constructor(0).unwrap();
    assert_eq!(registered.constructor.import_path, "pavex::request::query::QueryParams::extract");
    assert_eq!(registered.lifecycle, Lifecycle::RequestScoped);
    assert_eq!(
        registered.error_handler,
        Some(RawCallable::new(
            "pavex::request::query::errors::ExtractQueryParamsError::into_response"
        ))
    );
}

#[test]
fn query_error_keeps_what_the_parser_said() {
    let said: serde_html_form::de::Error = serde::de::Error::custom("missing field `home_id`");
    let error = QueryDeserializationError::new(said.clone());
    assert_eq!(error.source, said);
    assert_eq!(error.source.to_string(), "missing field `home_id`");
    assert_eq!(
        ExtractQueryParamsError::QueryDeserializationError(error),
        ExtractQueryParamsError::QueryDeserializationError(QueryDeserializationError {
            source: said
        })
    );
}

#[test]
fn path_errors_tell_decoding_from_reading() {
    let reading = ExtractPathParamsError::PathDeserializationError(PathDeserializationError {
        message: "invalid digit".to_string(),
    });
    let decoding = decode_params(&vec![param("id", "%FF")]).unwrap_err();
    assert_ne!(reading, decoding);
    assert!(matches!(decoding, ExtractPathParamsError::InvalidUtf8InPathParameter(_)));
}

#[test]
fn outcome_of_decoding_keeps_what_the_decoder_returned() {
    let raw = param("id", "ab%C3%28");
    let said = String::from_utf8(vec![b'a', b'b', 0xC3, 0x28]).unwrap_err().utf8_error();
    assert_eq!(
        decoded_or_error(&raw, Err(said)),
        Err(ExtractPathParamsError::InvalidUtf8InPathParameter(InvalidUtf8InPathParam {
            invalid_key: "id".to_string(),
            invalid_raw_segment: "ab%C3%28".to_string(),
            source: said,
        }))
    );
    assert_eq!(decoded_or_error(&raw, Ok("x y".to_string())), Ok(param("id", "x y")));
    assert_eq!(
        decode_params(&vec![raw.clone()]).unwrap_err(),
        decoded_or_error(&raw, Err(said)).unwrap_err()
    );
}
