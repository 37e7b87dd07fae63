//! The kinds of Canvas resources that the cache knows, and the plain
//! enumerations that Canvas resources carry.
use crate::text::str_equals;
use vstd::prelude::*;

verus! {

/// A kind of cached resource.
#[derive(Debug, Clone, Copy, PartialEq, Eq, Structural)]
pub enum ResourceKind {
    Assignment,
    Course,
}

/// The name of a resource kind, as it appears in keys and messages.
pub open spec fn kind_name(kind: ResourceKind) -> Seq<char> {
    match kind {
        ResourceKind::Assignment => "assignment"@,
        ResourceKind::Course => "course"@,
    }
}

/// The resource kind named `s`, if any.
pub open spec fn kind_named(s: Seq<char>) -> Option<ResourceKind> {
    if s == "assignment"@ {
        Some(ResourceKind::Assignment)
    } else if s == "course"@ {
        Some(ResourceKind::Course)
    } else {
        None
    }
}

impl ResourceKind {
    /// The name of this kind.
    pub fn as_str(&self) -> (s: &'static str)
        ensures
            s@ == kind_name(*self),
    {
        match self {
            ResourceKind::Assignment => "assignment",
            ResourceKind::Course => "course",
        }
    }

    /// Reads a kind from its name; any other text is refused.
    pub fn from_name(s: &str) -> (r: Result<ResourceKind, &'static str>)
        ensures
            match kind_named(s@) {
                Some(k) => r == Ok::<ResourceKind, &'static str>(k),
                None => r.is_err(),
            },
            r.is_err() ==> r->Err_0@ == "no such resource kind"@,
    {
        if str_equals(s, "assignment") {
            Ok(ResourceKind::Assignment)
        } else if str_equals(s, "course") {
            Ok(ResourceKind::Course)
        } else {
            Err("no such resource kind")
        }
    }
}

impl std::str::FromStr for ResourceKind {
    type Err = &'static str;

    fn from_str(s: &str) -> (r: Result<Self, Self::Err>)
        ensures
            match kind_named(s@) {
                Some(k) => r == Ok::<ResourceKind, &'static str>(k),
                None => r.is_err(),
            },
            r.is_err() ==> r->Err_0@ == "no such resource kind"@,
    {
        ResourceKind::from_name(s)
    }
}

/// Reading the name of a kind gives the kind back, and distinct kinds have
/// distinct names.
pub proof fn lemma_kind_name_roundtrip(kind: ResourceKind)
    ensures
        kind_named(kind_name(kind)) == Some(kind),
{
    reveal_strlit("assignment");
    reveal_strlit("course");
    assert("assignment"@ != "course"@) by {
        assert("assignment"@.len() != "course"@.len());
    }
}

/// How an assignment is graded.
#[derive(Debug, Clone, Copy, PartialEq, Eq, Hash, Structural)]
pub enum GradingType {
    PassFail,
    Percent,
    LetterGrade,
    GpaScale,
    Points,
    NotGraded,
}

/// A way in which a submission can be handed in.
#[derive(Debug, Clone, Copy, PartialEq, Eq, Hash, Structural)]
pub enum SubmissionType {
    DiscussionTopic,
    OnlineQuiz,
    OnPaper,
    /// Nothing is to be handed in.
    NoSubmission,
    ExternalTool,
    OnlineTextEntry,
    OnlineUrl,
    OnlineUpload,
    MediaRecording,
    StudentAnnotation,
    BasicLtiLaunch,
    NotGraded,
}

/// Where a submission stands in grading.
#[derive(Debug, Clone, Copy, PartialEq, Eq, Hash, Structural)]
pub enum SubmissionWorkflowState {
    Graded,
    Submitted,
    Unsubmitted,
    PendingReview,
}

/// The short name of a submission's workflow state.
pub type WorkflowState = SubmissionWorkflowState;

/// What the late policy says of a submission.
#[derive(Debug, Clone, Copy, PartialEq, Eq, Hash, Structural)]
pub enum LatePolicyStatus {
    Late,
    Missing,
    /// No late policy status applies.
    Unset,
}

/// Where a course stands in its life.
#[derive(Debug, Clone, Copy, PartialEq, Eq, Hash, Structural)]
pub enum CourseWorkflowState {
    Unpublished,
    Available,
    Completed,
    Deleted,
}

/// The page a course opens on.
#[derive(Debug, Clone, Copy, PartialEq, Eq, Hash, Structural)]
pub enum CourseView {
    Feed,
    Wiki,
    Modules,
    Assignments,
    Syllabus,
}

/// How a course is taught.
#[derive(Debug, Clone, Copy, PartialEq, Eq, Hash, Structural)]
pub enum CourseFormat {
    OnCampus,
    Online,
    Blended,
}

/// What the current user may do with an item.
#[derive(Debug, Clone, Copy, PartialEq, Eq, Hash, Structural)]
pub struct Permissions {
    pub attach: bool,
    pub update: bool,
    pub reply: bool,
    pub delete: bool,
}

/// Declarations, each followed by a blank line, one after another.
pub open spec fn declarations_text(declarations: Seq<Seq<char>>) -> Seq<char>
    decreases declarations.len(),
{
    if declarations.len() == 0 {
        Seq::empty()
    } else {
        declarations_text(declarations.drop_last()) + declarations.last() + "\n\n"@
    }
}

/// The TypeScript declarations of the Canvas types, given the declaration of
/// each type: each one followed by a blank line, inside
/// `declare namespace Canvas {` and `}`.
pub fn definitions(declarations: &Vec<String>) -> (s: String)
    ensures
        s@ == "declare namespace Canvas {"@ + declarations_text(
            declarations@.map_values(|d: String| d@),
        ) + "}\n"@,
{
    let ghost ds = declarations@.map_values(|d: String| d@);
    let mut s = String::from_str("declare namespace Canvas {");
    let mut i: usize = 0;
    while i < declarations.len()
        invariant
            i <= declarations.len(),
            ds == declarations@.map_values(|d: String| d@),
            s@ == "declare namespace Canvas {"@ + declarations_text(ds.take(i as int)),
        decreases declarations.len() - i,
    {
        s.append(declarations[i].as_str());
        s.append("\n\n");
        proof {
            assert(ds.take(i + 1).drop_last() =~= ds.take(i as int));
            assert(ds[i as int] == declarations@[i as int]@);
        }
        i = i + 1;
    }
    assert(ds.take(i as int) =~= ds);
    s.append("}\n");
    s
}

} // verus!
