//! Data types for the HTTP server and HTTP client capabilities.

use std::collections::HashMap;

use vstd::prelude::*;
use vstd::string::StrSliceExecFns;
use vstd::string::StringSliceAdditionalSpecFns;

use crate::Sample;

verus! {

/// An HTTP request.
#[derive(Clone, Debug, PartialEq)]
pub struct Request {
    /// The HTTP method (e.g. GET, PUT, DELETE).
    pub method: String,
    /// The path or URL of the request; leading slashes may not be trimmed.
    pub path: String,
    /// The query-string portion of the URL.
    pub query_string: String,
    /// The request headers.
    pub header: HashMap<String, String>,
    /// The raw bytes of the request body.
    pub body: Vec<u8>,
}

impl Default for Request {
    /// All strings empty, no headers, an empty body.
    fn default() -> (r: Self)
        ensures
            r.method@ == Seq::<char>::empty(),
            r.path@ == Seq::<char>::empty(),
            r.query_string@ == Seq::<char>::empty(),
            r.header@ == Map::<String, String>::empty(),
            r.body@ == Seq::<u8>::empty(),
    {
        Request {
            method: String::new(),
            path: String::new(),
            query_string: String::new(),
            header: HashMap::new(),
            body: Vec::new(),
        }
    }
}

impl Sample for Request {
    /// A GET of `/foo` with a short query string, the two sample headers,
    /// and a small textual body.
    fn sample() -> (r: Self)
        ensures
            r.method@ == "GET"@,
            r.path@ == "/foo"@,
            r.query_string@ == "a=1&b=2"@,
            r.body@ == "This is the body of a request".spec_bytes(),
    {
        Request {
            method: "GET".to_owned(),
            path: "/foo".to_owned(),
            query_string: "a=1&b=2".to_owned(),
            header: sample_header(),
            body: "This is the body of a request".as_bytes_vec(),
        }
    }
}

/// A pair of representative header entries for fixture generation: an
/// accept header for JSON and a dummy entry.
fn sample_header() -> HashMap<String, String> {
    let mut hm = HashMap::new();
    hm.insert("accept".to_owned(), "application/json".to_owned());
    hm.insert("dummy".to_owned(), "value".to_owned());
    hm
}

/// An HTTP response.
#[derive(Clone, Debug, PartialEq)]
pub struct Response {
    /// The numerical status code (e.g. 200).
    pub status_code: u32,
    /// The string version of the status (e.g. `OK`).
    pub status: String,
    /// The response headers.
    pub header: HashMap<String, String>,
    /// The raw bytes of the body.
    pub body: Vec<u8>,
}

impl Default for Response {
    /// Status code zero, empty status, no headers, an empty body.
    fn default() -> (r: Self)
        ensures
            r.status_code == 0,
            r.status@ == Seq::<char>::empty(),
            r.header@ == Map::<String, String>::empty(),
            r.body@ == Seq::<u8>::empty(),
    {
        Response {
            status_code: 0,
            status: String::new(),
            header: HashMap::new(),
            body: Vec::new(),
        }
    }
}

impl Sample for Response {
    /// A 200 / OK response with the two sample headers and a small textual
    /// body.
    fn sample() -> (r: Self)
        ensures
            r.status_code == 200,
            r.status@ == "OK"@,
            r.body@ == "This is the body of a response".spec_bytes(),
    {
        Response {
            status_code: 200,
            status: "OK".to_owned(),
            header: sample_header(),
            body: "This is the body of a response".as_bytes_vec(),
        }
    }
}

impl Response {
    /// A 404 / Not Found response with no headers and an empty body.
    pub fn not_found() -> (r: Response)
        ensures
            r.status_code == 404,
            r.status@ == "Not Found"@,
            r.header@ == Map::<String, String>::empty(),
            r.body@ == Seq::<u8>::empty(),
    {
        Response {
            status: "Not Found".to_owned(),
            status_code: 404,
            header: HashMap::new(),
            body: Vec::new(),
        }
    }

    /// A 200 / OK response with no headers and an empty body.
    pub fn ok() -> (r: Response)
        ensures
            r.status_code == 200,
            r.status@ == "OK"@,
            r.header@ == Map::<String, String>::empty(),
            r.body@ == Seq::<u8>::empty(),
    {
        Response {
            status: "OK".to_owned(),
            status_code: 200,
            header: HashMap::new(),
            body: Vec::new(),
        }
    }

    /// A 500 / Internal Server Error response whose body carries `msg`.
    pub fn internal_server_error(msg: &str) -> (r: Response)
        ensures
            r.status_code == 500,
            r.status@ == "Internal Server Error"@,
            r.header@ == Map::<String, String>::empty(),
            r.body@ == msg.spec_bytes(),
    {
        Response {
            status: "Internal Server Error".to_owned(),
            status_code: 500,
            header: HashMap::new(),
            body: msg.as_bytes_vec(),
        }
    }

    /// A 400 / Bad Request response with no headers and an empty body.
    pub fn bad_request() -> (r: Response)
        ensures
            r.status_code == 400,
            r.status@ == "Bad Request"@,
            r.header@ == Map::<String, String>::empty(),
            r.body@ == Seq::<u8>::empty(),
    {
        Response {
            status: "Bad Request".to_owned(),
            status_code: 400,
            header: HashMap::new(),
            body: Vec::new(),
        }
    }
}

} // verus!
