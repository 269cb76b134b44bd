//! The per-broadcast record and the wire-level page envelope.

use vstd::prelude::*;

verus! {

/// One live broadcast as the listing endpoint describes it.  `user_name`
/// starts out as a placeholder and is resolved later; `started_at` begins
/// as a wire timestamp and is replaced, one way, by an elapsed-time text;
/// `uptime` is derived seconds; `user_tag_map` collects the cached labels
/// of the broadcast's tags, keyed by tag id.
#[derive(Debug)]
pub struct Stream {
    pub started_at: String,
    pub title: String,
    pub user_name: String,
    pub user_id: String,
    pub viewer_count: i64,
    pub language: String,
    pub tag_ids: Option<Vec<String>>,
    pub user_tag_map: Vec<(String, String)>,
    pub uptime: i64,
}

impl Stream {
    /// The views of the broadcast's tag ids; an absent list reads as empty.
    pub open spec fn tag_id_views(&self) -> Seq<Seq<char>> {
        match self.tag_ids {
            Some(ids) => ids.deep_view(),
            None => Seq::empty(),
        }
    }
}

/// A decoded page: the records and the pagination envelope.
pub struct Resp<T> {
    pub data: Vec<T>,
    pub pagination: Pagination,
}

/// The opaque pagination token that orders the listing pages.
pub struct Pagination {
    pub cursor: String,
}

} // verus!
