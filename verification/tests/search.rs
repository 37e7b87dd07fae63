use paint::search::{Query, QueryResult, QueryTargets, Score};
use paint::selector::{Selectable, Selector};
use paint::id::Id;

fn ok(xs: &[u32]) -> Vec<Result<u32, String>> {
    xs.iter().map(|x| Ok(*x)).collect()
}

fn resources(rs: &[QueryResult<u32>]) -> Vec<u32> {
    rs.iter().map(|r| r.resource).collect()
}

fn query(limit: Option<usize>, sorted: bool) -> Query {
    Query { limit, sorted, targets: QueryTargets::default(), text: None }
}

#[test]
fn query_defaults() {
    let q = Query::default();
    assert_eq!(q.limit, None);
    assert!(!q.sorted);
    assert!(q.targets.course && q.targets.assignment && q.targets.submission);
    assert_eq!(q.text, None);
}

#[test]
fn query_scores_and_selects_everything() {
    let q = Query::default();
    assert_eq!(q.score(&"anything"), 0);
    assert!(q.matches(&Selectable::Submission));
    assert!(q.matches(&Selectable::Course(Id::new(1))));
}

#[test]
fn unsorted_query_takes_newest_first() {
    let q = query(Some(3), false);
    let r = q.execute(ok(&[1, 2]), ok(&[10, 11, 12]), ok(&[20])).unwrap();
    // submissions are read first (newest first), then courses while there is room;
    // the results are then given in reverse
    assert_eq!(resources(&r), vec![12, 1, 2]);
    assert!(r.iter().all(|x| x.score == 0));
}

#[test]
fn unsorted_query_without_limit_takes_all() {
    let q = query(None, false);
    let r = q.execute(ok(&[1, 2]), ok(&[3]), ok(&[4, 5])).unwrap();
    assert_eq!(resources(&r), vec![4, 5, 3, 1, 2]);
}

#[test]
fn untargeted_stores_are_not_read() {
    let mut q = query(None, false);
    q.targets = QueryTargets { course: false, assignment: true, submission: false };
    let r = q.execute(ok(&[1]), vec![Err("broken".to_string())], ok(&[7])).unwrap();
    assert_eq!(resources(&r), vec![7]);
}

#[test]
fn failed_resource_fails_the_query() {
    let q = query(None, false);
    let r = q.execute(ok(&[1]), vec![Ok(2), Err("bad".to_string())], ok(&[3]));
    assert_eq!(r.err(), Some("bad".to_string()));
}

#[test]
fn unsorted_query_ignores_resources_beyond_its_room() {
    let q = query(Some(1), false);
    let r = q.execute(vec![Err("old".to_string()), Ok(2)], ok(&[]), ok(&[])).unwrap();
    assert_eq!(resources(&r), vec![2]);
}

#[test]
fn sorted_query_keeps_the_newest_of_equal_scores() {
    let q = query(Some(2), true);
    let r = q.execute(ok(&[1, 2, 3]), ok(&[4]), ok(&[])).unwrap();
    assert_eq!(r.len(), 2);
    assert_eq!(resources(&r), vec![4, 3]);
}

#[test]
fn sorted_query_stops_at_first_failure() {
    let q = query(Some(5), true);
    let r = q.execute(vec![Ok(1), Err("x".to_string()), Ok(3)], ok(&[]), ok(&[]));
    assert_eq!(r.err(), Some("x".to_string()));
}

#[test]
fn sorted_query_without_limit() {
    let q = query(None, true);
    let r = q.execute(ok(&[1, 2]), ok(&[3]), ok(&[])).unwrap();
    assert_eq!(r.len(), 3);
}

#[test]
fn sorted_query_with_limit_zero() {
    let q = query(Some(0), true);
    assert!(q.evicts_from_nothing(&ok(&[1]), &ok(&[]), &ok(&[])));
    assert!(q.evicts_from_nothing(&ok(&[]), &ok(&[2]), &ok(&[])));
    assert!(!q.evicts_from_nothing(&vec![Err("e".to_string())], &ok(&[2]), &ok(&[])));
    assert!(!q.evicts_from_nothing(&ok(&[]), &ok(&[]), &ok(&[])));
    assert_eq!(q.execute(ok(&[]), ok(&[]), ok(&[])).unwrap().len(), 0);
    assert!(!query(Some(0), false).evicts_from_nothing(&ok(&[1]), &ok(&[]), &ok(&[])));
    assert!(query(Some(0), false).execute(ok(&[1]), ok(&[]), ok(&[])).unwrap().is_empty());
}
