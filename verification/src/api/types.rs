//! Responses and errors of the interface.
use vstd::prelude::*;
use vstd::string::*;
use crate::errors::ErrorKind;

verus! {

/// Represents API responses.
pub struct ApiResponse {
    body: Vec<u8>,
    status: u16,
}

/// Represents API Errors.
#[derive(Clone, Debug, PartialEq, Eq)]
pub enum ApiError {
    NotFound,
    BadRequest,
    MethodNotAllowed,
    PayloadTooLarge,
    BadJson(String),
    SdkNotFound,
    InternalServerError(String),
}

/// What a client is told of an error.
#[derive(Clone, Debug, PartialEq, Eq)]
pub struct ApiErrorDescription {
    pub ty: String,
    pub message: String,
}

impl ApiResponse {
    /// The body of the response.
    pub closed spec fn spec_body(&self) -> Seq<u8> {
        self.body@
    }

    /// The HTTP status of the response.
    pub closed spec fn spec_status(&self) -> u16 {
        self.status
    }

    /// Creates a new API response from the JSON text of its data: the
    /// body is the text followed by a line feed.
    pub fn new(json: Vec<u8>, status: u16) -> (r: ApiResponse)
        ensures
            r.spec_body() == json@.push(10u8),
            r.spec_status() == status,
    {
        let mut body = json;
        body.push(10u8);
        ApiResponse { body, status }
    }

    /// The body of the response.
    pub fn body(&self) -> (r: &Vec<u8>)
        ensures
            r@ == self.spec_body(),
    {
        &self.body
    }

    /// The HTTP status of the response.
    pub fn status(&self) -> (r: u16)
        ensures
            r == self.spec_status(),
    {
        self.status
    }

    /// The body to send: none for a request that asks for the head
    /// only.
    pub fn body_to_send(&self, is_head: bool) -> (r: Option<&Vec<u8>>)
        ensures
            match r {
                Some(b) => !is_head && b@ == self.spec_body(),
                None => is_head,
            },
    {
        if is_head {
            None
        } else {
            Some(&self.body)
        }
    }
}

impl ApiError {
    /// The HTTP status code of the error.
    pub open spec fn spec_status(&self) -> u16 {
        match self {
            ApiError::NotFound => 404,
            ApiError::BadRequest => 400,
            ApiError::MethodNotAllowed => 405,
            ApiError::PayloadTooLarge => 413,
            ApiError::BadJson(_) => 400,
            ApiError::SdkNotFound => 404,
            ApiError::InternalServerError(_) => 500,
        }
    }

    /// The type of the error as a client is told it.
    pub open spec fn spec_type(&self) -> Seq<char> {
        match self {
            ApiError::NotFound => "not_found"@,
            ApiError::BadRequest => "bad_request"@,
            ApiError::MethodNotAllowed => "method_not_allowed"@,
            ApiError::PayloadTooLarge => "payload_too_large"@,
            ApiError::BadJson(_) => "bad_json"@,
            ApiError::SdkNotFound => "sdk_not_found"@,
            ApiError::InternalServerError(_) => "internal_server_error"@,
        }
    }

    /// The message of the error as a client is told it.
    pub open spec fn spec_message(&self) -> Seq<char> {
        match self {
            ApiError::NotFound => "The requested resource was not found"@,
            ApiError::BadRequest => "The client sent a bad request"@,
            ApiError::MethodNotAllowed => "This HTTP method is not supported here"@,
            ApiError::PayloadTooLarge => "The request payload is too large"@,
            ApiError::BadJson(err) => "The client sent bad json: "@ + err@,
            ApiError::SdkNotFound => "The requested SDK was not found"@,
            ApiError::InternalServerError(err) => "The server failed with an internal error: "@
                + err@,
        }
    }

    /// Returns the HTTP status code for this error.
    pub fn get_status(&self) -> (r: u16)
        ensures
            r == self.spec_status(),
    {
        match self {
            ApiError::NotFound => 404,
            ApiError::BadRequest => 400,
            ApiError::MethodNotAllowed => 405,
            ApiError::PayloadTooLarge => 413,
            ApiError::BadJson(_) => 400,
            ApiError::SdkNotFound => 404,
            ApiError::InternalServerError(_) => 500,
        }
    }

    /// What a client is told of the error: its type and a message.
    pub fn describe(&self) -> (r: ApiErrorDescription)
        ensures
            r.ty@ == self.spec_type(),
            r.message@ == self.spec_message(),
    {
        match self {
            ApiError::NotFound => ApiErrorDescription {
                ty: String::from_str("not_found"),
                message: String::from_str("The requested resource was not found"),
            },
            ApiError::BadRequest => ApiErrorDescription {
                ty: String::from_str("bad_request"),
                message: String::from_str("The client sent a bad request"),
            },
            ApiError::MethodNotAllowed => ApiErrorDescription {
                ty: String::from_str("method_not_allowed"),
                message: String::from_str("This HTTP method is not supported here"),
            },
            ApiError::PayloadTooLarge => ApiErrorDescription {
                ty: String::from_str("payload_too_large"),
                message: String::from_str("The request payload is too large"),
            },
            ApiError::BadJson(json_err) => {
                let mut message = String::from_str("The client sent bad json: ");
                message.append(json_err.as_str());
                ApiErrorDescription { ty: String::from_str("bad_json"), message }
            },
            ApiError::SdkNotFound => ApiErrorDescription {
                ty: String::from_str("sdk_not_found"),
                message: String::from_str("The requested SDK was not found"),
            },
            ApiError::InternalServerError(err) => {
                let mut message = String::from_str("The server failed with an internal error: ");
                message.append(err.as_str());
                ApiErrorDescription { ty: String::from_str("internal_server_error"), message }
            },
        }
    }

    /// The error that a client is told where the library fails: an
    /// internal server error with the message of the failure.
    pub fn from_error_kind(err: &ErrorKind) -> (r: ApiError)
        ensures
            r matches ApiError::InternalServerError(message) && message@ == err.spec_message(),
    {
        ApiError::InternalServerError(err.message())
    }
}

} // verus!
