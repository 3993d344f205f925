//! What a backend call returns.

use vstd::prelude::*;

use crate::headers::{as_map, names_sorted, HeaderMap};

verus! {

/// What both legs of a shadow call return.
#[derive(Debug, PartialEq, Eq)]
pub struct ResponseRecord {
    /// Whether the call completed normally. Backends that handle their own
    /// errors should leave this `true` and put any error payload in `body`.
    pub ok: bool,
    /// HTTP-ish status code (or 0 for non-HTTP calls). Diffed unless the
    /// caller ignores `IgnoreField::Status`.
    pub status: u16,
    /// Headers, sorted by name. Diffed unless `IgnoreField::Headers`.
    pub headers: HeaderMap,
    /// Response body, opaque.
    pub body: Vec<u8>,
}

impl ResponseRecord {
    /// Construct a success record from a body — handy in tests.
    pub fn ok(body: Vec<u8>) -> (r: Self)
        ensures
            r.ok,
            r.status == 200,
            r.headers@ == Seq::<(Seq<char>, Seq<char>)>::empty(),
            r.body@ == body@,
    {
        ResponseRecord { ok: true, status: 200, headers: HeaderMap::new(), body }
    }

    /// Construct a failure record.
    pub fn err(status: u16, body: Vec<u8>) -> (r: Self)
        ensures
            !r.ok,
            r.status == status,
            r.headers@ == Seq::<(Seq<char>, Seq<char>)>::empty(),
            r.body@ == body@,
    {
        ResponseRecord { ok: false, status, headers: HeaderMap::new(), body }
    }

    /// Convenience: set a header. Returns `self` for chaining.
    pub fn with_header(self, key: &str, value: &str) -> (r: Self)
        ensures
            r.ok == self.ok,
            r.status == self.status,
            r.body@ == self.body@,
            names_sorted(r.headers@),
            as_map(r.headers@) == as_map(self.headers@).insert(key@, value@),
    {
        let mut r = self;
        r.headers.insert(key.to_owned(), value.to_owned());
        r
    }
}

impl Clone for ResponseRecord {
    fn clone(&self) -> (r: Self)
        ensures
            r.ok == self.ok,
            r.status == self.status,
            r.headers@ == self.headers@,
            r.body@ == self.body@,
    {
        let body = self.body.clone();
        assert(body@ =~= self.body@);
        ResponseRecord { ok: self.ok, status: self.status, headers: self.headers.clone(), body }
    }
}

} // verus!
