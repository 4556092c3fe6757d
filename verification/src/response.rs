//! Responses as plain data, and their conversion to `http` responses.

use http::header::HeaderName;
use http::header::HeaderValue;
use http::StatusCode;
use vstd::prelude::*;

verus! {

/// `http::Response`, carried as an opaque value.
#[verifier::external_type_specification]
#[verifier::external_body]
#[verifier::reject_recursive_types(T)]
pub struct ExResponse<T>(http::Response<T>);

/// `http::StatusCode`, carried as an opaque value.
#[verifier::external_type_specification]
#[verifier::external_body]
pub struct ExStatusCode(StatusCode);

/// `http::header::HeaderName`, carried as an opaque value.
#[verifier::external_type_specification]
#[verifier::external_body]
pub struct ExHeaderName(HeaderName);

/// `http::header::HeaderValue`, carried as an opaque value.
#[verifier::external_type_specification]
#[verifier::external_body]
pub struct ExHeaderValue(HeaderValue);

/// The error kind of a response, carried beside it for logs and telemetry
/// and never put on the wire.
#[derive(Clone, Debug)]
pub struct RuntimeErrorExtension(pub String);

impl RuntimeErrorExtension {
    /// Marks a response with the kind of error it reports.
    pub fn new(value: String) -> (extension: Self)
        ensures
            extension.0 == value,
    {
        RuntimeErrorExtension(value)
    }
}

/// What a response consists of, as plain values.
#[derive(Clone, Debug)]
pub struct ResponseParts {
    /// The status code.
    pub status: u16,
    /// Header names with their values, in the order they are to be sent.
    pub headers: Vec<(String, String)>,
    /// The error kind attached to the response, if any.
    pub extension: Option<RuntimeErrorExtension>,
    /// The body.
    pub body: String,
}

/// The mathematical content of a response.
pub struct ResponseModel {
    pub status: int,
    pub headers: Seq<(Seq<char>, Seq<char>)>,
    pub extension: Option<Seq<char>>,
    pub body: Seq<char>,
}

impl View for ResponseParts {
    type V = ResponseModel;

    open spec fn view(&self) -> ResponseModel {
        ResponseModel {
            status: self.status as int,
            headers: self.headers@.map_values(|header: (String, String)| (header.0@, header.1@)),
            extension: match self.extension {
                Some(extension) => Some(extension.0@),
                None => None,
            },
            body: self.body@,
        }
    }
}

/// The AWS REST JSON 1.0 protocol.
pub struct AwsRestJson1;

/// The AWS REST XML protocol.
pub struct AwsRestXml;



/// The error type that a request for no known operation is answered with.
pub const UNKNOWN_OPERATION_EXCEPTION: &'static str = "UnknownOperationException";

/// The response to a request whose method no matching route allows: status
/// 405 and nothing else, in every protocol.
pub open spec fn method_disallowed_model() -> ResponseModel {
    ResponseModel { status: 405, headers: Seq::empty(), extension: None, body: Seq::empty() }
}

/// Renders the answer to a request whose method is not allowed.
pub fn method_disallowed() -> (response: ResponseParts)
    ensures
        response@ == method_disallowed_model(),
{
    let response = ResponseParts { status: 405, headers: Vec::new(), extension: None, body: String::new() };
    assert(response@.headers =~= Seq::empty());
    response
}

/// A response could not be put into `http`'s representation.
#[derive(Clone, Debug)]
pub struct InvalidResponse {
    /// What `http` said of the status or header that it refused.
    pub reason: String,
}

/// Whether `http` takes a number as a status code: three digits.
pub open spec fn is_status_code(status: int) -> bool {
    100 <= status < 1000
}

/// Whether `http` takes a byte in a header name: a letter, a digit or one of
/// the marks ``! " # $ % & ' * + - . ^ _ ` | ~``.
pub open spec fn is_header_name_byte(byte: u8) -> bool {
    ||| 33 <= byte <= 39
    ||| byte == 42
    ||| byte == 43
    ||| byte == 45
    ||| byte == 46
    ||| 48 <= byte <= 57
    ||| 65 <= byte <= 90
    ||| 94 <= byte <= 122
    ||| byte == 124
    ||| byte == 126
}

/// The longest header name that `http` takes, in bytes.
pub const MAX_HEADER_NAME_LEN: usize = 65535;

/// Whether `http` takes a text as a header name: it is not empty, not longer
/// than the limit, and every byte of it is one that a header name may hold.
pub open spec fn is_header_name(name: Seq<char>) -> bool {
    &&& 1 <= vstd::utf8::encode_utf8(name).len() <= MAX_HEADER_NAME_LEN
    &&& forall|i: int|
        0 <= i < vstd::utf8::encode_utf8(name).len() ==> is_header_name_byte(
            #[trigger] vstd::utf8::encode_utf8(name)[i],
        )
}

/// Whether `http` takes a byte in a header value: a tab, or any byte from
/// the space on but for the delete character.
pub open spec fn is_header_value_byte(byte: u8) -> bool {
    byte >= 32 && byte != 127 || byte == 9
}

/// Whether `http` takes a text as a header value: every byte of it is one
/// that a header value may hold.
pub open spec fn is_header_value(value: Seq<char>) -> bool {
    forall|i: int|
        0 <= i < vstd::utf8::encode_utf8(value).len() ==> is_header_value_byte(
            #[trigger] vstd::utf8::encode_utf8(value)[i],
        )
}

/// Whether `http` takes the status and every header of a response.
pub open spec fn is_well_formed(response: ResponseModel) -> bool {
    &&& is_status_code(response.status)
    &&& forall|i: int|
        0 <= i < response.headers.len() ==> is_header_name((#[trigger] response.headers[i]).0)
            && is_header_value(response.headers[i].1)
}

/// A letter of the upper case as the same letter of the lower case; any
/// other byte as it is.
pub open spec fn lower_case_byte(byte: u8) -> u8 {
    if 65 <= byte <= 90 {
        (byte + 32) as u8
    } else {
        byte
    }
}

/// The name under which `http` keeps a header: its bytes, letters in lower
/// case.
pub open spec fn stored_name(name: Seq<char>) -> Seq<u8> {
    vstd::utf8::encode_utf8(name).map_values(|byte: u8| lower_case_byte(byte))
}

/// The values that `headers` give to the header kept under `name`, as
/// bytes, in the order in which they stand.
pub open spec fn header_values(headers: Seq<(Seq<char>, Seq<char>)>, name: Seq<u8>) -> Seq<Seq<u8>>
    decreases headers.len(),
{
    if headers.len() == 0 {
        Seq::empty()
    } else if stored_name(headers.last().0) == name {
        header_values(headers.drop_last(), name).push(vstd::utf8::encode_utf8(headers.last().1))
    } else {
        header_values(headers.drop_last(), name)
    }
}

/// A number of headers that `http`'s header map is sure to take. The map
/// refuses a header only when it would need more than 32768 slots or hold
/// more than 32768 names, and it doubles its slots only while at least a
/// fifth of them are in use; so a refusal needs thousands of names.
pub const SURE_HEADERS: usize = 1024;

/// Whether a response is sure to convert: `http` takes its status and its
/// headers, and the headers are few enough for `http`'s header map.
pub open spec fn converts(response: ResponseModel) -> bool {
    is_well_formed(response) && response.headers.len() <= SURE_HEADERS
}

/// The number of a status code, as `StatusCode::as_u16` gives it.
pub uninterp spec fn status_number(code: StatusCode) -> int;

/// The bytes of a header name, as `HeaderName::as_str` gives them.
pub uninterp spec fn header_name_bytes(name: HeaderName) -> Seq<u8>;

/// The bytes of a header value, as `HeaderValue::as_bytes` gives them.
pub uninterp spec fn header_value_bytes(value: HeaderValue) -> Seq<u8>;

/// The status of a response, as `Response::status` gives it.
pub uninterp spec fn http_status(response: http::Response<String>) -> int;

/// The body of a response, as `Response::body` gives it.
pub uninterp spec fn http_body(response: http::Response<String>) -> Seq<char>;

/// The error kind among the extensions of a response, as `Extensions::get`
/// gives it for [`RuntimeErrorExtension`].
pub uninterp spec fn http_error_kind(response: http::Response<String>) -> Option<Seq<char>>;

/// The values that the headers of a response hold under the name of exactly
/// these bytes, in the order in which they were appended, as
/// `HeaderMap::get_all` gives them; `http` keeps names in lower case.
pub uninterp spec fn http_header_values(response: http::Response<String>, name: Seq<u8>) -> Seq<Seq<u8>>;

/// The number of values that the headers of a response hold, as
/// `HeaderMap::len` gives it.
pub uninterp spec fn http_header_count(response: http::Response<String>) -> nat;

/// The `http` response holds what the model says: its status, its body, its
/// error kind and, under each name, the values of its headers in order.
pub open spec fn carries(made: http::Response<String>, model: ResponseModel) -> bool {
    &&& http_status(made) == model.status
    &&& http_body(made) == model.body
    &&& http_error_kind(made) == model.extension
    &&& http_header_count(made) == model.headers.len()
    &&& forall|name: Seq<u8>| #[trigger] http_header_values(made, name) == header_values(model.headers, name)
}

/// `StatusCode::from_u16` accepts the numbers from 100 to 999 and no others,
/// and the code it makes has the number given. The error is handed on as its
/// `Display` text.
#[verifier::external_body]
fn status_code(status: u16) -> (code: Result<StatusCode, String>)
    ensures
        code is Ok <==> is_status_code(status as int),
        code matches Ok(made) ==> status_number(made) == status,
{
    StatusCode::from_u16(status).map_err(|error| error.to_string())
}

/// `HeaderName::try_from` at `&str` accepts a text of 1 to 65535 bytes, each
/// of which its table of header characters maps to a byte other than zero:
/// letters, digits and sixteen marks. The name it makes holds the bytes of
/// the text, upper-case letters mapped to lower case. The error is handed on
/// as its `Display` text.
#[verifier::external_body]
fn header_name(name: &str) -> (parsed: Result<HeaderName, String>)
    ensures
        parsed is Ok <==> is_header_name(name@),
        parsed matches Ok(made) ==> header_name_bytes(made) == stored_name(name@),
{
    HeaderName::try_from(name).map_err(|error| error.to_string())
}

/// `HeaderValue::try_from` at `&str` accepts a text if and only if each of
/// its bytes is at least 32 and not 127, or is a tab. The value it makes
/// holds the bytes of the text. The error is handed on as its `Display`
/// text.
#[verifier::external_body]
fn header_value(value: &str) -> (parsed: Result<HeaderValue, String>)
    ensures
        parsed is Ok <==> is_header_value(value@),
        parsed matches Ok(made) ==> header_value_bytes(made) == vstd::utf8::encode_utf8(value@),
{
    HeaderValue::try_from(value).map_err(|error| error.to_string())
}

/// `http::Response::new` makes a response with the given body, status 200
/// and neither headers nor extensions.
#[verifier::external_body]
fn new_response(body: String) -> (response: http::Response<String>)
    ensures
        http_status(response) == 200,
        http_body(response) == body@,
        http_error_kind(response) is None,
        http_header_count(response) == 0,
        forall|name: Seq<u8>| #[trigger] http_header_values(response, name) == Seq::<Seq<u8>>::empty(),
{
    http::Response::new(body)
}

/// `Response::status_mut` gives the place of the status, which is set. The
/// rest of the response stays as it is.
#[verifier::external_body]
fn set_status(response: &mut http::Response<String>, code: StatusCode)
    ensures
        http_status(*final(response)) == status_number(code),
        http_body(*final(response)) == http_body(*old(response)),
        http_error_kind(*final(response)) == http_error_kind(*old(response)),
        http_header_count(*final(response)) == http_header_count(*old(response)),
        forall|name: Seq<u8>| #[trigger]
            http_header_values(*final(response), name) == http_header_values(*old(response), name),
{
    *response.status_mut() = code;
}

/// `HeaderMap::try_append` on the response's headers. Where it accepts, the
/// value stands behind those that the name had, and nothing else changes.
/// It refuses only when the map would outgrow its limit, which a map of
/// fewer than [`SURE_HEADERS`] values is far from; beyond that nothing is
/// promised. The error is handed on as its `Display` text.
#[verifier::external_body]
fn append_header(response: &mut http::Response<String>, name: HeaderName, value: HeaderValue) -> (appended:
    Result<(), String>)
    ensures
        http_header_count(*old(response)) < SURE_HEADERS ==> appended is Ok,
        appended is Ok ==> http_header_count(*final(response)) == http_header_count(*old(response)) + 1,
        appended is Ok ==> forall|other: Seq<u8>| #[trigger]
            http_header_values(*final(response), other) == if other == header_name_bytes(name) {
                http_header_values(*old(response), other).push(header_value_bytes(value))
            } else {
                http_header_values(*old(response), other)
            },
        http_status(*final(response)) == http_status(*old(response)),
        http_body(*final(response)) == http_body(*old(response)),
        http_error_kind(*final(response)) == http_error_kind(*old(response)),
{
    response.headers_mut().try_append(name, value).map(|_| ()).map_err(|error| error.to_string())
}

/// `Extensions::insert` on the response's extensions attaches the error
/// kind, in place of one that was there. The rest of the response stays as
/// it is.
#[verifier::external_body]
fn insert_extension(response: &mut http::Response<String>, extension: RuntimeErrorExtension)
    ensures
        http_error_kind(*final(response)) == Some(extension.0@),
        http_status(*final(response)) == http_status(*old(response)),
        http_body(*final(response)) == http_body(*old(response)),
        http_header_count(*final(response)) == http_header_count(*old(response)),
        forall|name: Seq<u8>| #[trigger]
            http_header_values(*final(response), name) == http_header_values(*old(response), name),
{
    response.extensions_mut().insert(extension);
}

impl ResponseParts {
    /// Converts to an `http` response that holds the same status, headers,
    /// error kind and body. A status or header that `http` does not take is
    /// refused with `http`'s reason, the first one found. A well-formed
    /// response of up to [`SURE_HEADERS`] headers always converts; a longer
    /// one converts unless `http`'s header map refuses to grow.
    pub fn into_http(self) -> (res: Result<http::Response<String>, InvalidResponse>)
        ensures
            res is Ok ==> is_well_formed(self@),
            converts(self@) ==> res is Ok,
            res matches Ok(made) ==> carries(made, self@),
    {
        let code = match status_code(self.status) {
            Ok(code) => code,
            Err(reason) => {
                return Err(InvalidResponse { reason });
            },
        };
        let mut response = new_response(self.body);
        set_status(&mut response, code);
        let ghost model = self@;
        let mut i: usize = 0;
        while i < self.headers.len()
            invariant
                i <= self.headers.len(),
                model == self@,
                forall|j: int|
                    0 <= j < i ==> is_header_name((#[trigger] self.headers[j]).0@) && is_header_value(
                        self.headers[j].1@,
                    ),
                http_status(response) == self.status,
                http_body(response) == model.body,
                http_error_kind(response) is None,
                http_header_count(response) == i,
                forall|name: Seq<u8>| #[trigger]
                    http_header_values(response, name) == header_values(model.headers.take(i as int), name),
            decreases self.headers.len() - i,
        {
            let name = match header_name(self.headers[i].0.as_str()) {
                Ok(name) => name,
                Err(reason) => {
                    assert(!is_header_name(model.headers[i as int].0));
                    return Err(InvalidResponse { reason });
                },
            };
            let value = match header_value(self.headers[i].1.as_str()) {
                Ok(value) => value,
                Err(reason) => {
                    assert(!is_header_value(model.headers[i as int].1));
                    return Err(InvalidResponse { reason });
                },
            };
            match append_header(&mut response, name, value) {
                Ok(()) => {},
                Err(reason) => {
                    return Err(InvalidResponse { reason });
                },
            }
            proof {
                let longer = model.headers.take(i + 1);
                assert(longer.drop_last() =~= model.headers.take(i as int));
                assert(longer.last() == model.headers[i as int]);
            }
            i += 1;
        }
        assert(model.headers.take(i as int) =~= model.headers);
        if let Some(extension) = self.extension {
            insert_extension(&mut response, extension);
        }
        Ok(response)
    }
}

/// Rendering of a value as a response of the protocol `Protocol`. Rendering
/// does not fail: the response is one that is sure to convert to `http`'s.
pub trait IntoResponse<Protocol>: Sized {
    /// The response that the value is rendered as.
    spec fn rendered(self) -> ResponseModel;

    /// Performs the conversion.
    fn into_response(self) -> (response: ResponseParts)
        ensures
            response@ == self.rendered(),
            converts(response@),
    ;
}

/// Renders a value as an `http` response of the protocol `Protocol`, which
/// holds what the value is rendered as.
pub fn into_http_response<Protocol, T: IntoResponse<Protocol>>(value: T) -> (made: http::Response<String>)
    ensures
        carries(made, value.rendered()),
{
    value.into_response().into_http().unwrap()
}

} // verus!
