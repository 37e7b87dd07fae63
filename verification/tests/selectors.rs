use paint::id::Id as CanvasId;
use paint::selector::{All, And, DSelector, ExclusiveOr, Id, Ids, Not, Nothing, Or, Selectable, Selector};

fn course(id: u64) -> Selectable {
    Selectable::Course(CanvasId::new(id))
}

#[test]
fn trivial_selectors() {
    assert!(All.matches(&course(1)));
    assert!(All.matches(&Selectable::Submission));
    assert!(!Nothing.matches(&course(1)));
}

#[test]
fn id_selectors() {
    assert!(Id(CanvasId::new(3)).matches(&course(3)));
    assert!(!Id(CanvasId::new(3)).matches(&course(4)));
    assert!(!Id(CanvasId::new(3)).matches(&Selectable::Submission));
    assert!(Id(CanvasId::new(3)).matches(&Selectable::User(CanvasId::new(3))));
    let ids = Ids(vec![CanvasId::new(1), CanvasId::new(5)]);
    assert!(ids.matches(&Selectable::Assignment(CanvasId::new(5))));
    assert!(!ids.matches(&Selectable::GradingPeriod(CanvasId::new(2))));
    assert!(!Ids(vec![]).matches(&course(1)));
    assert!(!ids.matches(&Selectable::Submission));
}

#[test]
fn combinators() {
    let one = Id(CanvasId::new(1));
    let two = Id(CanvasId::new(2));
    assert!(Or(one, two).matches(&course(2)));
    assert!(!And(one, two).matches(&course(2)));
    assert!(And(All, one).matches(&course(1)));
    assert!(ExclusiveOr(All, one).matches(&course(2)));
    assert!(!ExclusiveOr(All, one).matches(&course(1)));
    assert!(Not(Nothing).matches(&course(9)));
    assert!(Not(Not(one)).matches(&course(1)));
}

#[test]
fn de_morgan_on_examples() {
    let a = Id(CanvasId::new(1));
    let b = Ids(vec![CanvasId::new(2)]);
    for r in [course(1), course(2), course(3), Selectable::Submission] {
        assert_eq!(
            Not(Or(a, b.clone())).matches(&r),
            And(Not(a), Not(b.clone())).matches(&r)
        );
    }
}

#[test]
fn discriminated_selectors() {
    let sel = DSelector::Or(Box::new(Or(
        DSelector::Id(Id(CanvasId::new(1))),
        DSelector::Not(Box::new(Not(DSelector::Ids(Ids(vec![CanvasId::new(1), CanvasId::new(2)]))))),
    )));
    assert!(sel.matches(&course(1)));
    assert!(!sel.matches(&course(2)));
    assert!(sel.matches(&course(3)));
    assert!(sel.matches(&Selectable::Submission));
    let x = DSelector::ExclusiveOr(Box::new(ExclusiveOr(DSelector::All(All), DSelector::Nothing(Nothing))));
    assert!(x.matches(&Selectable::Submission));
    let y = DSelector::And(Box::new(And(DSelector::All(All), DSelector::Nothing(Nothing))));
    assert!(!y.picks_resource(&course(1)));
}
