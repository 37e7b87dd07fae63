//! Messages that the synchronisation server sends to its clients.
use crate::text::str_equals;
use vstd::prelude::*;

verus! {

/// A kind of resource that the server can be asked about.
#[derive(Debug, Clone, Copy, PartialEq, Eq, Structural)]
pub enum ResourceKind {
    Assignment,
    Course,
    Submission,
}

/// The resource kind named `s`, if any.
pub open spec fn message_kind_named(s: Seq<char>) -> Option<ResourceKind> {
    if s == "assignment"@ {
        Some(ResourceKind::Assignment)
    } else if s == "course"@ {
        Some(ResourceKind::Course)
    } else if s == "submission"@ {
        Some(ResourceKind::Submission)
    } else {
        None
    }
}

impl ResourceKind {
    /// Reads a kind from its name; any other text is refused with an empty
    /// message.
    pub fn from_name(s: &str) -> (r: Result<ResourceKind, &'static str>)
        ensures
            match message_kind_named(s@) {
                Some(k) => r == Ok::<ResourceKind, &'static str>(k),
                None => r.is_err(),
            },
            r.is_err() ==> r->Err_0@ == ""@,
    {
        if str_equals(s, "assignment") {
            Ok(ResourceKind::Assignment)
        } else if str_equals(s, "course") {
            Ok(ResourceKind::Course)
        } else if str_equals(s, "submission") {
            Ok(ResourceKind::Submission)
        } else {
            Err("")
        }
    }
}

impl std::str::FromStr for ResourceKind {
    type Err = &'static str;

    fn from_str(s: &str) -> (r: Result<Self, Self::Err>)
        ensures
            match message_kind_named(s@) {
                Some(k) => r == Ok::<ResourceKind, &'static str>(k),
                None => r.is_err(),
            },
            r.is_err() ==> r->Err_0@ == ""@,
    {
        ResourceKind::from_name(s)
    }
}

/// A response to a fetch request.
#[derive(Debug, Clone, Copy, PartialEq, Eq, Structural)]
pub enum FetchResponse {
    /// Every resource of this kind has been fetched.
    Progress { resource_kind: ResourceKind },
}

/// A response to an update request.
#[derive(Debug, Clone)]
pub enum UpdateResponse {
    /// A serialised resource of which the client has no current copy.
    Resource(Vec<u8>),
    /// A stub for a resource of which the client has a current copy.
    Stub(Vec<u8>),
}

} // verus!
