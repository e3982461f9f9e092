use vstd::prelude::*;

use crate::bytes::{bytes_eq_ignore_case, eq_ignore_case};
use crate::version::Version;

verus! {

/// One header: its name with the casing it arrived in, and its value.
#[derive(Debug, Clone)]
pub struct Header {
    pub name: Vec<u8>,
    pub value: Vec<u8>,
}

impl View for Header {
    type V = (Seq<u8>, Seq<u8>);

    open spec fn view(&self) -> (Seq<u8>, Seq<u8>) {
        (self.name@, self.value@)
    }
}

/// The names and values of a list of headers, in order.
pub open spec fn headers_view(hs: Seq<Header>) -> Seq<(Seq<u8>, Seq<u8>)> {
    hs.map_values(|h: Header| h@)
}

/// The index of the first header named `name`, compared without regard to the
/// case of ASCII letters.
pub fn find_header(hs: &Vec<Header>, name: &[u8]) -> (r: Option<usize>)
    ensures
        match r {
            Some(i) => i < hs@.len() && eq_ignore_case(hs@[i as int].name@, name@) && forall|
                j: int,
            | 0 <= j < i ==> !eq_ignore_case(#[trigger] hs@[j].name@, name@),
            None => forall|j: int| 0 <= j < hs@.len() ==> !eq_ignore_case(#[trigger] hs@[j].name@, name@),
        },
{
    let mut i: usize = 0;
    while i < hs.len()
        invariant
            i <= hs@.len(),
            forall|j: int| 0 <= j < i ==> !eq_ignore_case(#[trigger] hs@[j].name@, name@),
        decreases hs@.len() - i,
    {
        if bytes_eq_ignore_case(hs[i].name.as_slice(), name) {
            return Some(i);
        }
        i = i + 1;
    }
    None
}

/// A request: method and target as they arrived, version, headers in order, body.
#[derive(Debug, Clone)]
pub struct Request {
    pub method: Vec<u8>,
    pub uri: Vec<u8>,
    pub version: Version,
    pub headers: Vec<Header>,
    pub body: Vec<u8>,
}

pub ghost struct RequestView {
    pub method: Seq<u8>,
    pub uri: Seq<u8>,
    pub version: Version,
    pub headers: Seq<(Seq<u8>, Seq<u8>)>,
    pub body: Seq<u8>,
}

impl View for Request {
    type V = RequestView;

    open spec fn view(&self) -> RequestView {
        RequestView {
            method: self.method@,
            uri: self.uri@,
            version: self.version,
            headers: headers_view(self.headers@),
            body: self.body@,
        }
    }
}

/// A response: version, status code with its reason phrase if any, headers in
/// order, body.
#[derive(Debug, Clone)]
pub struct Response {
    pub version: Version,
    pub status: u16,
    pub reason: Option<Vec<u8>>,
    pub headers: Vec<Header>,
    pub body: Vec<u8>,
}

pub ghost struct ResponseView {
    pub version: Version,
    pub status: u16,
    pub reason: Option<Seq<u8>>,
    pub headers: Seq<(Seq<u8>, Seq<u8>)>,
    pub body: Seq<u8>,
}

impl View for Response {
    type V = ResponseView;

    open spec fn view(&self) -> ResponseView {
        ResponseView {
            version: self.version,
            status: self.status,
            reason: match self.reason {
                Some(r) => Some(r@),
                None => None,
            },
            headers: headers_view(self.headers@),
            body: self.body@,
        }
    }
}

} // verus!
