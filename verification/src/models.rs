//! The record type held by the log, and its mathematical view.

use vstd::prelude::*;

verus! {

/// One captured inbound request.
#[derive(Debug, Clone)]
pub struct StoredRequest {
    pub id: u64,
    pub ts_ms: i64,
    pub method: String,
    pub path: String,
    pub headers: Vec<(String, String)>,
    pub body: Vec<u8>,
}

/// The mathematical value of a record: strings as character sequences,
/// the body as a byte sequence.
#[verifier::ext_equal]
pub struct RecordView {
    pub id: u64,
    pub ts_ms: i64,
    pub method: Seq<char>,
    pub path: Seq<char>,
    pub headers: Seq<(Seq<char>, Seq<char>)>,
    pub body: Seq<u8>,
}

/// The mathematical value of a header list.
pub open spec fn headers_view(h: Seq<(String, String)>) -> Seq<(Seq<char>, Seq<char>)> {
    h.map_values(|p: (String, String)| (p.0@, p.1@))
}

impl View for StoredRequest {
    type V = RecordView;

    open spec fn view(&self) -> RecordView {
        RecordView {
            id: self.id,
            ts_ms: self.ts_ms,
            method: self.method@,
            path: self.path@,
            headers: headers_view(self.headers@),
            body: self.body@,
        }
    }
}

/// The response shape served for a "latest records" query.
pub struct LatestResponse {
    pub count: usize,
    pub items: Vec<StoredRequest>,
}

impl LatestResponse {
    /// Packages a list of records with its length.
    pub fn of(items: Vec<StoredRequest>) -> (r: LatestResponse)
        ensures
            r.items == items,
            r.count == items.len(),
    {
        let count = items.len();
        LatestResponse { count, items }
    }
}

} // verus!
