use paint::message::{self, FetchResponse, UpdateResponse};
use paint::resource::{
    CourseFormat, GradingType, LatePolicyStatus, Permissions, ResourceKind, SubmissionType,
    SubmissionWorkflowState, WorkflowState,
};

#[test]
fn resource_kind_names() {
    assert_eq!(ResourceKind::Assignment.as_str(), "assignment");
    assert_eq!(ResourceKind::Course.as_str(), "course");
}

#[test]
fn resource_kind_from_names() {
    assert_eq!("assignment".parse::<ResourceKind>(), Ok(ResourceKind::Assignment));
    assert_eq!("course".parse::<ResourceKind>(), Ok(ResourceKind::Course));
    assert_eq!("submission".parse::<ResourceKind>(), Err("no such resource kind"));
    assert_eq!(ResourceKind::from_name("Course"), Err("no such resource kind"));
    for k in [ResourceKind::Assignment, ResourceKind::Course] {
        assert_eq!(k.as_str().parse::<ResourceKind>(), Ok(k));
    }
}

#[test]
fn message_resource_kinds() {
    assert_eq!("assignment".parse::<message::ResourceKind>(), Ok(message::ResourceKind::Assignment));
    assert_eq!("course".parse::<message::ResourceKind>(), Ok(message::ResourceKind::Course));
    assert_eq!("submission".parse::<message::ResourceKind>(), Ok(message::ResourceKind::Submission));
    assert_eq!("user".parse::<message::ResourceKind>(), Err(""));
}

#[test]
fn plain_resource_values() {
    let p = Permissions { attach: true, update: false, reply: true, delete: false };
    assert_eq!(p, p.clone());
    assert_ne!(GradingType::Points, GradingType::Percent);
    assert_ne!(SubmissionType::NoSubmission, SubmissionType::OnPaper);
    assert_ne!(LatePolicyStatus::Unset, LatePolicyStatus::Late);
    let w: WorkflowState = SubmissionWorkflowState::Graded;
    assert_eq!(w, SubmissionWorkflowState::Graded);
    assert_ne!(CourseFormat::Online, CourseFormat::Blended);
    let f = FetchResponse::Progress { resource_kind: message::ResourceKind::Course };
    assert_eq!(f, FetchResponse::Progress { resource_kind: message::ResourceKind::Course });
    match UpdateResponse::Stub(vec![1]) {
        UpdateResponse::Stub(b) => assert_eq!(b, vec![1]),
        UpdateResponse::Resource(_) => panic!("expected a stub"),
    }
}
