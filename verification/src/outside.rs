//! Declarations of the outside types that the library carries.
use hyper::http::Error as HttpError;
use hyper::Error as HyperError;
use serde_json::Error as JsonError;
use vstd::prelude::*;

verus! {

/// An HTTP URI, as `hyper` parses it.
#[verifier::external_type_specification]
#[verifier::external_body]
pub struct ExUri(hyper::Uri);

/// An error of the `http` crate (an invalid URI, header or request).
#[verifier::external_type_specification]
#[verifier::external_body]
pub struct ExHttpError(HttpError);

/// An error of `hyper`'s HTTP client.
#[verifier::external_type_specification]
#[verifier::external_body]
pub struct ExHyperError(HyperError);

/// The body of an HTTP response, as `hyper` streams it.
#[verifier::external_type_specification]
#[verifier::external_body]
pub struct ExBody(hyper::Body);

/// A JSON deserialization error of `serde_json`.
#[verifier::external_type_specification]
#[verifier::external_body]
pub struct ExJsonError(JsonError);

} // verus!
