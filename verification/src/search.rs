//! Search queries over the cached resources: which stores a query reads, how
//! it scores resources, and which results it keeps.
use crate::paging::reversed;
use crate::selector::{Selectable, Selector};
use vstd::prelude::*;

verus! {

/// The stores that a query reads.
#[derive(Debug, Clone, Copy, PartialEq, Eq, Hash, Structural)]
pub struct QueryTargets {
    pub course: bool,
    pub assignment: bool,
    pub submission: bool,
}

impl Default for QueryTargets {
    /// Every store.
    fn default() -> (t: QueryTargets)
        ensures
            t.course && t.assignment && t.submission,
    {
        QueryTargets { course: true, assignment: true, submission: true }
    }
}

/// A search query.
#[derive(Debug, Clone)]
pub struct Query {
    /// How many results to keep at most; no bound where absent.
    pub limit: Option<usize>,
    /// Whether to keep the best-scoring results rather than the newest.
    pub sorted: bool,
    /// The stores to read.
    pub targets: QueryTargets,
    /// The text searched for.
    pub text: Option<String>,
}

impl Default for Query {
    /// A query without limit or text that keeps the newest resources of every
    /// store.
    fn default() -> (q: Query)
        ensures
            q.limit is None,
            !q.sorted,
            q.targets.course && q.targets.assignment && q.targets.submission,
            q.text is None,
    {
        Query { limit: None, sorted: false, targets: QueryTargets::default(), text: None }
    }
}

/// A resource with its score.
#[derive(Debug, Clone)]
pub struct QueryResult<T> {
    pub score: isize,
    pub resource: T,
}

/// How a query scores a resource.
pub trait Score<R> {
    /// The score of `resource`.
    spec fn scored(&self, resource: R) -> isize;

    /// The score of `resource`.
    fn score(&self, resource: &R) -> (s: isize)
        ensures
            s == self.scored(*resource),
    ;
}

impl<R> Score<R> for Query {
    /// Every resource scores the same.
    open spec fn scored(&self, resource: R) -> isize {
        0
    }

    fn score(&self, resource: &R) -> (s: isize) {
        0
    }
}

impl Selector for Query {
    /// A query picks every resource.
    open spec fn selects(&self, resource: Selectable) -> bool {
        true
    }

    fn matches(&self, resource: &Selectable) -> (b: bool) {
        true
    }
}

/// The most results a query keeps.
pub open spec fn capacity(q: Query) -> nat {
    match q.limit {
        Some(n) => n as nat,
        None => usize::MAX as nat,
    }
}

/// A resource with the score the query gives it.
pub open spec fn scored_result<T>(q: Query, resource: T) -> QueryResult<T> {
    QueryResult { score: Score::<T>::scored(&q, resource), resource }
}

/// Whether results are in ascending order of score.
pub open spec fn sorted_by_score<T>(rs: Seq<QueryResult<T>>) -> bool {
    forall|i: int, j: int| 0 <= i <= j < rs.len() ==> rs[i].score <= rs[j].score
}

/// The lowest score among sorted results, or the lowest `isize` where there
/// are none.
pub open spec fn worst_score<T>(rs: Seq<QueryResult<T>>) -> int {
    if rs.len() == 0 {
        isize::MIN as int
    } else {
        rs[0].score as int
    }
}

/// Where a result with score `s` goes among sorted results: after every
/// result that scores no higher.
pub open spec fn insert_at<T>(rs: Seq<QueryResult<T>>, s: isize) -> int
    decreases rs.len(),
{
    if rs.len() == 0 || rs.last().score <= s {
        rs.len() as int
    } else {
        insert_at(rs.drop_last(), s)
    }
}

/// Sorted results after `r` is offered to them: it is refused where it scores
/// below the worst of them; else, where `cap` results are kept already, the
/// first worst one leaves, and `r` goes in after every result that scores no
/// higher.
pub open spec fn offered<T>(rs: Seq<QueryResult<T>>, r: QueryResult<T>, cap: nat) -> Seq<
    QueryResult<T>,
> {
    if (r.score as int) < worst_score(rs) {
        rs
    } else {
        let base = if rs.len() == cap {
            rs.drop_first()
        } else {
            rs
        };
        base.insert(insert_at(base, r.score), r)
    }
}

/// The index of the first failed entry, or the number of entries where none
/// failed.
pub open spec fn first_failed<T, E>(entries: Seq<Result<T, E>>) -> int
    decreases entries.len(),
{
    if entries.len() == 0 {
        0
    } else if entries[0] is Err {
        0
    } else {
        1 + first_failed(entries.drop_first())
    }
}

/// The results of entries that did not fail, scored by the query.
pub open spec fn results_of<T, E>(q: Query, entries: Seq<Result<T, E>>) -> Seq<QueryResult<T>> {
    Seq::new(entries.len(), |i: int| scored_result(q, entries[i]->Ok_0))
}

/// Sorted results after each entry that did not fail is offered in turn.
pub open spec fn sorted_pass<T, E>(
    q: Query,
    rs: Seq<QueryResult<T>>,
    entries: Seq<Result<T, E>>,
) -> Seq<QueryResult<T>>
    decreases entries.len(),
{
    if entries.len() == 0 {
        rs
    } else {
        let before = sorted_pass(q, rs, entries.drop_last());
        match entries.last() {
            Ok(x) => offered(before, scored_result(q, x), capacity(q)),
            Err(_) => before,
        }
    }
}

/// The entries that an unsorted query reads from a store: the last ones
/// first, as many as the results still have room for.
pub open spec fn newest<T, E>(q: Query, rs: Seq<QueryResult<T>>, entries: Seq<Result<T, E>>) -> Seq<
    Result<T, E>,
> {
    if rs.len() < capacity(q) {
        let room = capacity(q) - rs.len();
        entries.reverse().take(if room < entries.len() {
            room as int
        } else {
            entries.len() as int
        })
    } else {
        Seq::empty()
    }
}

/// The error of the entry at `k`, if there is one.
pub open spec fn failure_at<T, E>(entries: Seq<Result<T, E>>, k: int) -> Option<E> {
    if k < entries.len() {
        Some(entries[k]->Err_0)
    } else {
        None
    }
}

/// The results after a query reads one store, and the error that stopped it,
/// if any. A sorted query offers the store's resources in order; an unsorted
/// one adds the newest resources while there is room. Reading stops at the
/// first resource that failed to load.
pub open spec fn store_pass<T, E>(q: Query, rs: Seq<QueryResult<T>>, entries: Seq<Result<T, E>>) -> (
    Seq<QueryResult<T>>,
    Option<E>,
) {
    if q.sorted {
        let k = first_failed(entries);
        (sorted_pass(q, rs, entries.take(k)), failure_at(entries, k))
    } else {
        let taken = newest(q, rs, entries);
        let k = first_failed(taken);
        (rs + results_of(q, taken.take(k)), failure_at(taken, k))
    }
}

/// Whether reading one store would evict a result from no results at all: a
/// sorted query with room for none, whose first resource loads.
pub open spec fn pass_panics<T, E>(
    q: Query,
    rs: Seq<QueryResult<T>>,
    entries: Seq<Result<T, E>>,
) -> bool {
    &&& q.sorted
    &&& capacity(q) == 0
    &&& rs.len() == 0
    &&& entries.len() > 0
    &&& entries[0] is Ok
}

/// The results after reading the store `entries` if `target` asks for it.
pub open spec fn target_pass<T, E>(
    q: Query,
    target: bool,
    rs: Seq<QueryResult<T>>,
    entries: Seq<Result<T, E>>,
) -> (Seq<QueryResult<T>>, Option<E>) {
    if target {
        store_pass(q, rs, entries)
    } else {
        (rs, None)
    }
}

/// What a query gives: the results of the submissions, the courses and the
/// assignments that it targets, read in that order, best or newest first; or
/// the first error.
pub open spec fn query_outcome<T, E>(
    q: Query,
    submissions: Seq<Result<T, E>>,
    courses: Seq<Result<T, E>>,
    assignments: Seq<Result<T, E>>,
) -> Result<Seq<QueryResult<T>>, E> {
    let (r1, e1) = target_pass(q, q.targets.submission, Seq::empty(), submissions);
    let (r2, e2) = target_pass(q, q.targets.course, r1, courses);
    let (r3, e3) = target_pass(q, q.targets.assignment, r2, assignments);
    if e1 is Some {
        Err(e1->Some_0)
    } else if e2 is Some {
        Err(e2->Some_0)
    } else if e3 is Some {
        Err(e3->Some_0)
    } else {
        Ok(r3.reverse())
    }
}

/// Whether a query would evict a result from no results at all.
pub open spec fn query_panics<T, E>(
    q: Query,
    submissions: Seq<Result<T, E>>,
    courses: Seq<Result<T, E>>,
    assignments: Seq<Result<T, E>>,
) -> bool {
    let (r1, e1) = target_pass(q, q.targets.submission, Seq::empty(), submissions);
    let (r2, e2) = target_pass(q, q.targets.course, r1, courses);
    ||| q.targets.submission && pass_panics(q, Seq::<QueryResult<T>>::empty(), submissions)
    ||| e1 is None && q.targets.course && pass_panics(q, r1, courses)
    ||| e1 is None && e2 is None && q.targets.assignment && pass_panics(q, r2, assignments)
}

/// The position after every result that scores no higher than `s`.
fn find_insert_at<T>(results: &Vec<QueryResult<T>>, s: isize) -> (p: usize)
    ensures
        p == insert_at(results@, s),
{
    let mut p = results.len();
    assert(results@.take(p as int) =~= results@);
    while p > 0 && results[p - 1].score > s
        invariant
            p <= results.len(),
            insert_at(results@, s) == insert_at(results@.take(p as int), s),
        decreases p,
    {
        assert(results@.take(p as int).drop_last() =~= results@.take(p - 1));
        p = p - 1;
    }
    assert(results@.take(p as int).len() == p);
    p
}

/// Inserting a result where `insert_at` puts it keeps results sorted.
proof fn lemma_insert_sorted<T>(rs: Seq<QueryResult<T>>, r: QueryResult<T>)
    requires
        sorted_by_score(rs),
    ensures
        0 <= insert_at(rs, r.score) <= rs.len(),
        sorted_by_score(rs.insert(insert_at(rs, r.score), r)),
    decreases rs.len(),
{
    if rs.len() > 0 && rs.last().score > r.score {
        let d = rs.drop_last();
        assert(sorted_by_score(d));
        lemma_insert_sorted(d, r);
        let p = insert_at(d, r.score);
        assert(rs.insert(p, r) =~= d.insert(p, r).push(rs.last()));
        let t = d.insert(p, r);
        assert forall|i: int| 0 <= i < t.len() implies t[i].score <= rs.last().score by {
            if i < p {
                assert(t[i] == d[i]);
            } else if i > p {
                assert(t[i] == d[i - 1]);
            }
        }
    }
}

/// Offers `result` to sorted results, keeping at most `cap` of them.
fn offer<T>(results: &mut Vec<QueryResult<T>>, result: QueryResult<T>, cap: usize)
    requires
        sorted_by_score(old(results)@),
        !(cap == 0 && old(results)@.len() == 0),
    ensures
        final(results)@ == offered(old(results)@, result, cap as nat),
        sorted_by_score(final(results)@),
{
    let worst: isize = if results.len() > 0 {
        results[0].score
    } else {
        isize::MIN
    };
    if result.score >= worst {
        if results.len() == cap {
            results.remove(0);
            assert(results@ =~= old(results)@.drop_first());
        }
        let p = find_insert_at(results, result.score);
        proof {
            lemma_insert_sorted(results@, result);
        }
        results.insert(p, result);
    }
}

/// Successive sorted passes fold one entry at a time.
proof fn lemma_sorted_pass_step<T, E>(
    q: Query,
    rs: Seq<QueryResult<T>>,
    entries: Seq<Result<T, E>>,
    i: int,
)
    requires
        0 <= i < entries.len(),
        entries[i] is Ok,
    ensures
        sorted_pass(q, rs, entries.take(i + 1)) == offered(
            sorted_pass(q, rs, entries.take(i)),
            scored_result(q, entries[i]->Ok_0),
            capacity(q),
        ),
{
    assert(entries.take(i + 1).drop_last() =~= entries.take(i));
}

/// The first failed entry is the first one that is an error.
proof fn lemma_first_failed<T, E>(entries: Seq<Result<T, E>>, k: int)
    requires
        0 <= k <= entries.len(),
        forall|j: int| 0 <= j < k ==> entries[j] is Ok,
        k < entries.len() ==> entries[k] is Err,
    ensures
        first_failed(entries) == k,
    decreases k,
{
    if k > 0 {
        let t = entries.drop_first();
        assert forall|j: int| 0 <= j < k - 1 implies t[j] is Ok by {
            assert(t[j] == entries[j + 1]);
        }
        if k < entries.len() {
            assert(t[k - 1] == entries[k]);
        }
        lemma_first_failed(t, k - 1);
    }
}

impl Query {
    /// Reads one store's resources into `results`; `entries` are the store's
    /// resources in the order of their keys, each as it loaded.
    fn execute_individual<T, E>(&self, results: &mut Vec<QueryResult<T>>, entries: Vec<
        Result<T, E>,
    >) -> (r: Result<(), E>)
        requires
            self.sorted ==> sorted_by_score(old(results)@),
            !pass_panics(*self, old(results)@, entries@),
        ensures
            final(results)@ == store_pass(*self, old(results)@, entries@).0,
            match store_pass(*self, old(results)@, entries@).1 {
                Some(e) => r == Err::<(), E>(e),
                None => r is Ok,
            },
            self.sorted ==> sorted_by_score(final(results)@),
    {
        let cap: usize = match self.limit {
            Some(n) => n,
            None => usize::MAX,
        };
        let ghost whole = entries@;
        if self.sorted {
            let mut rest = reversed(entries);
            let mut i: usize = 0;
            assert(rest.len() == whole.len());
            assert(whole.take(0) =~= Seq::<Result<T, E>>::empty());
            loop
                invariant
                    cap == capacity(*self),
                    self.sorted,
                    whole == entries@,
                    whole.len() <= usize::MAX,
                    i <= whole.len(),
                    rest@ == whole.skip(i as int).reverse(),
                    forall|j: int| 0 <= j < i ==> whole[j] is Ok,
                    results@ == sorted_pass(*self, old(results)@, whole.take(i as int)),
                    sorted_by_score(results@),
                    cap == 0 && results@.len() == 0 ==> i == 0,
                    !pass_panics(*self, old(results)@, whole),
                    i == 0 ==> results@ == old(results)@,
                decreases whole.len() - i,
            {
                assert(rest@.len() == whole.len() - i);
                match rest.pop() {
                    None => {
                        proof {
                            assert(whole.take(i as int) =~= whole);
                            lemma_first_failed(whole, i as int);
                            assert(store_pass(*self, old(results)@, whole).0 == sorted_pass(
                                *self,
                                old(results)@,
                                whole.take(i as int),
                            ));
                        }
                        return Ok(());
                    },
                    Some(Err(e)) => {
                        proof {
                            assert(whole[i as int] == Err::<T, E>(e));
                            lemma_first_failed(whole, i as int);
                            assert(store_pass(*self, old(results)@, whole).0 == sorted_pass(
                                *self,
                                old(results)@,
                                whole.take(i as int),
                            ));
                        }
                        return Err(e);
                    },
                    Some(Ok(x)) => {
                        proof {
                            assert(whole[i as int] == Ok::<T, E>(x));
                            lemma_sorted_pass_step(*self, old(results)@, whole, i as int);
                            assert(rest@ =~= whole.skip(i + 1).reverse());
                        }
                        let score = self.score(&x);
                        offer(results, QueryResult { score, resource: x }, cap);
                        i = i + 1;
                    },
                }
            }
        } else if results.len() < cap {
            let room = cap - results.len();
            let ghost taken = newest(*self, old(results)@, whole);
            let mut rest = entries;
            let mut n: usize = 0;
            assert(taken.len() == if room < whole.len() { room as int } else { whole.len() as int });
            while n < room && rest.len() > 0
                invariant
                    !self.sorted,
                    whole == entries@,
                    room == capacity(*self) - old(results)@.len(),
                    old(results)@.len() < capacity(*self),
                    taken == newest(*self, old(results)@, whole),
                    taken.len() == if room < whole.len() { room as int } else { whole.len() as int },
                    n <= taken.len(),
                    rest@ == whole.take(whole.len() - n),
                    forall|j: int| 0 <= j < n ==> taken[j] is Ok,
                    results@ == old(results)@ + results_of(*self, taken.take(n as int)),
                decreases rest.len(),
            {
                let ghost k = rest.len();
                match rest.pop() {
                    None => {
                        proof {
                            assert(false);
                        }
                    },
                    Some(Err(e)) => {
                        proof {
                            assert(taken[n as int] == whole[k - 1]);
                            lemma_first_failed(taken, n as int);
                        }
                        return Err(e);
                    },
                    Some(Ok(x)) => {
                        proof {
                            assert(taken[n as int] == whole[k - 1]);
                        }
                        let score = self.score(&x);
                        results.push(QueryResult { score, resource: x });
                        proof {
                            assert(rest@ =~= whole.take(whole.len() - (n + 1)));
                            assert(results_of(*self, taken.take(n + 1)) =~= results_of(
                                *self,
                                taken.take(n as int),
                            ).push(scored_result(*self, x)));
                        }
                        n = n + 1;
                    },
                }
            }
            proof {
                assert(n == taken.len());
                assert(taken.take(n as int) =~= taken);
                lemma_first_failed(taken, n as int);
            }
            Ok(())
        } else {
            proof {
                assert(newest(*self, old(results)@, whole) =~= Seq::<Result<T, E>>::empty());
                assert(results_of(*self, Seq::<Result<T, E>>::empty()) =~= Seq::<
                    QueryResult<T>,
                >::empty());
                assert(old(results)@ + Seq::<QueryResult<T>>::empty() =~= old(results)@);
            }
            Ok(())
        }
    }
    /// Whether running the query over these resources would evict a result
    /// from no results at all (a sorted query with a limit of zero whose
    /// first resource read loads), which `execute` does not allow.
    pub fn evicts_from_nothing<T, E>(
        &self,
        submissions: &Vec<Result<T, E>>,
        courses: &Vec<Result<T, E>>,
        assignments: &Vec<Result<T, E>>,
    ) -> (b: bool)
        ensures
            b == query_panics(*self, submissions@, courses@, assignments@),
    {
        let zero = match self.limit {
            Some(n) => n == 0,
            None => false,
        };
        if !self.sorted || !zero {
            return false;
        }
        let ghost e = Seq::<QueryResult<T>>::empty();
        proof {
            assert(Seq::<Result<T, E>>::empty().take(0) =~= Seq::<Result<T, E>>::empty());
        }
        if self.targets.submission && submissions.len() > 0 {
            return submissions[0].is_ok();
        }
        proof {
            if self.targets.submission {
                assert(submissions@ =~= Seq::<Result<T, E>>::empty());
                assert(submissions@.take(0) =~= submissions@);
            }
        }
        if self.targets.course && courses.len() > 0 {
            return courses[0].is_ok();
        }
        proof {
            if self.targets.course {
                assert(courses@ =~= Seq::<Result<T, E>>::empty());
                assert(courses@.take(0) =~= courses@);
            }
        }
        if self.targets.assignment && assignments.len() > 0 {
            return assignments[0].is_ok();
        }
        false
    }

    /// Runs the query over the resources of the three stores (each in the
    /// order of its keys, as it loaded): the results of the submissions, the
    /// courses and the assignments that it targets, best or newest first, or
    /// the first error.
    pub fn execute<T, E>(
        &self,
        submissions: Vec<Result<T, E>>,
        courses: Vec<Result<T, E>>,
        assignments: Vec<Result<T, E>>,
    ) -> (r: Result<Vec<QueryResult<T>>, E>)
        requires
            !query_panics(*self, submissions@, courses@, assignments@),
        ensures
            match query_outcome(*self, submissions@, courses@, assignments@) {
                Ok(rs) => r matches Ok(v) && v@ == rs,
                Err(e) => r == Err::<Vec<QueryResult<T>>, E>(e),
            },
    {
        let mut results: Vec<QueryResult<T>> = Vec::new();
        let ghost r0 = results@;
        if self.targets.submission {
            match self.execute_individual(&mut results, submissions) {
                Ok(()) => {},
                Err(e) => {
                    return Err(e);
                },
            }
        }
        let ghost r1 = results@;
        assert(r1 == target_pass(*self, self.targets.submission, r0, submissions@).0);
        if self.targets.course {
            match self.execute_individual(&mut results, courses) {
                Ok(()) => {},
                Err(e) => {
                    return Err(e);
                },
            }
        }
        let ghost r2 = results@;
        assert(r2 == target_pass(*self, self.targets.course, r1, courses@).0);
        if self.targets.assignment {
            match self.execute_individual(&mut results, assignments) {
                Ok(()) => {},
                Err(e) => {
                    return Err(e);
                },
            }
        }
        Ok(reversed(results))
    }
}

/// Whether results are in descending order of score.
pub open spec fn best_first<T>(rs: Seq<QueryResult<T>>) -> bool {
    forall|i: int, j: int| 0 <= i <= j < rs.len() ==> rs[i].score >= rs[j].score
}

/// Whether `r` is one of the results `rs`, or the scored result of an entry
/// of `entries` that loaded.
pub open spec fn from_pass<T, E>(
    q: Query,
    rs: Seq<QueryResult<T>>,
    entries: Seq<Result<T, E>>,
    r: QueryResult<T>,
) -> bool {
    ||| rs.contains(r)
    ||| exists|i: int|
        0 <= i < entries.len() && #[trigger] entries[i] is Ok && r == scored_result(
            q,
            entries[i]->Ok_0,
        )
}

/// Offering a result to at most `cap` sorted results, `cap` positive, keeps
/// them sorted and at most `cap`, loses none unless `cap` are kept already,
/// and brings in nothing but the result offered.
proof fn lemma_offered_bounded<T>(rs: Seq<QueryResult<T>>, r: QueryResult<T>, cap: nat)
    requires
        sorted_by_score(rs),
        rs.len() <= cap,
        cap > 0,
    ensures
        sorted_by_score(offered(rs, r, cap)),
        rs.len() <= offered(rs, r, cap).len() <= cap,
        forall|x: QueryResult<T>| #[trigger]
            offered(rs, r, cap).contains(x) ==> rs.contains(x) || x == r,
{
    if (r.score as int) >= worst_score(rs) {
        let base = if rs.len() == cap {
            rs.drop_first()
        } else {
            rs
        };
        assert(sorted_by_score(base));
        lemma_insert_sorted(base, r);
        let p = insert_at(base, r.score);
        let out = base.insert(p, r);
        assert forall|x: QueryResult<T>| #[trigger] out.contains(x) implies rs.contains(x) || x
            == r by {
            let j = choose|j: int| 0 <= j < out.len() && out[j] == x;
            if j < p {
                assert(out[j] == base[j]);
                if rs.len() == cap {
                    assert(base[j] == rs[j + 1]);
                }
            } else if j > p {
                assert(out[j] == base[j - 1]);
                if rs.len() == cap {
                    assert(base[j - 1] == rs[j]);
                }
            }
        }
    }
}

/// A sorted pass keeps at most `cap` sorted results sorted and at most `cap`,
/// loses none unless the results are full, and brings in only the scored
/// results of entries that loaded.
proof fn lemma_sorted_pass_bounded<T, E>(
    q: Query,
    rs: Seq<QueryResult<T>>,
    entries: Seq<Result<T, E>>,
)
    requires
        sorted_by_score(rs),
        rs.len() <= capacity(q),
        capacity(q) > 0,
    ensures
        sorted_by_score(sorted_pass(q, rs, entries)),
        rs.len() <= sorted_pass(q, rs, entries).len() <= capacity(q),
        forall|x: QueryResult<T>| #[trigger]
            sorted_pass(q, rs, entries).contains(x) ==> from_pass(q, rs, entries, x),
    decreases entries.len(),
{
    if entries.len() > 0 {
        let d = entries.drop_last();
        lemma_sorted_pass_bounded(q, rs, d);
        let before = sorted_pass(q, rs, d);
        assert forall|x: QueryResult<T>| from_pass(q, rs, d, x) implies from_pass(
            q,
            rs,
            entries,
            x,
        ) by {
            if !rs.contains(x) {
                let i = choose|i: int|
                    0 <= i < d.len() && #[trigger] d[i] is Ok && x == scored_result(q, d[i]->Ok_0);
                assert(entries[i] == d[i]);
            }
        }
        if let Ok(y) = entries.last() {
            lemma_offered_bounded(before, scored_result(q, y), capacity(q));
            assert(entries[entries.len() - 1] is Ok);
        }
    }
}

/// Reading one store keeps at most as many results as the query asks for,
/// loses none of those read before (unless a sorted query's results are
/// full), and brings in only the scored results of the store's resources;
/// a sorted query keeps them sorted. (The sorted query keeps its results
/// worst first until it hands them out.)
pub proof fn lemma_store_pass_bounded<T, E>(
    q: Query,
    rs: Seq<QueryResult<T>>,
    entries: Seq<Result<T, E>>,
)
    requires
        rs.len() <= capacity(q),
        q.sorted ==> sorted_by_score(rs),
        !pass_panics(q, rs, entries),
    ensures
        rs.len() <= store_pass(q, rs, entries).0.len() <= capacity(q),
        q.sorted ==> sorted_by_score(store_pass(q, rs, entries).0),
        forall|x: QueryResult<T>| #[trigger]
            store_pass(q, rs, entries).0.contains(x) ==> from_pass(q, rs, entries, x),
{
    if q.sorted {
        let k = first_failed(entries);
        lemma_first_failed_prefix(entries);
        let t = entries.take(k);
        if capacity(q) > 0 {
            lemma_sorted_pass_bounded(q, rs, t);
        } else {
            assert(k == 0);
            assert(t =~= Seq::<Result<T, E>>::empty());
        }
        assert forall|x: QueryResult<T>| from_pass(q, rs, t, x) implies from_pass(
            q,
            rs,
            entries,
            x,
        ) by {
            if !rs.contains(x) {
                let i = choose|i: int|
                    0 <= i < t.len() && #[trigger] t[i] is Ok && x == scored_result(q, t[i]->Ok_0);
                assert(entries[i] == t[i]);
            }
        }
    } else {
        let taken = newest(q, rs, entries);
        lemma_first_failed_prefix(taken);
        let k = first_failed(taken);
        let got = results_of(q, taken.take(k));
        assert forall|x: QueryResult<T>| #[trigger] (rs + got).contains(x) implies from_pass(
            q,
            rs,
            entries,
            x,
        ) by {
            let j = choose|j: int| 0 <= j < (rs + got).len() && (rs + got)[j] == x;
            if j >= rs.len() {
                let i = j - rs.len();
                assert(taken[i] is Ok);
                let n = entries.len() - 1 - i;
                assert(taken[i] == entries.reverse()[i]);
                assert(entries[n] is Ok && x == scored_result(q, entries[n]->Ok_0));
            } else {
                assert(rs[j] == x);
            }
        }
    }
}

/// The entries before the first failed one did not fail.
proof fn lemma_first_failed_prefix<T, E>(entries: Seq<Result<T, E>>)
    ensures
        0 <= first_failed(entries) <= entries.len(),
        forall|j: int| 0 <= j < first_failed(entries) ==> entries[j] is Ok,
        first_failed(entries) < entries.len() ==> entries[first_failed(entries)] is Err,
    decreases entries.len(),
{
    if entries.len() > 0 && entries[0] is Ok {
        let t = entries.drop_first();
        lemma_first_failed_prefix(t);
        assert forall|j: int| 0 <= j < first_failed(entries) implies entries[j] is Ok by {
            if j > 0 {
                assert(entries[j] == t[j - 1]);
            }
        }
    }
}

/// A query gives at most as many results as its limit allows, and a sorted
/// query gives them best first.
pub proof fn lemma_query_bounded<T, E>(
    q: Query,
    submissions: Seq<Result<T, E>>,
    courses: Seq<Result<T, E>>,
    assignments: Seq<Result<T, E>>,
)
    requires
        !query_panics(q, submissions, courses, assignments),
    ensures
        query_outcome(q, submissions, courses, assignments) matches Ok(rs) ==> rs.len()
            <= capacity(q) && (q.sorted ==> best_first(rs)),
{
    let r0 = Seq::<QueryResult<T>>::empty();
    let (r1, e1) = target_pass(q, q.targets.submission, r0, submissions);
    let (r2, e2) = target_pass(q, q.targets.course, r1, courses);
    let (r3, e3) = target_pass(q, q.targets.assignment, r2, assignments);
    if q.targets.submission {
        lemma_store_pass_bounded(q, r0, submissions);
    }
    if e1 is None {
        if q.targets.course {
            lemma_store_pass_bounded(q, r1, courses);
        }
        if e2 is None && q.targets.assignment {
            lemma_store_pass_bounded(q, r2, assignments);
        }
    }
    if e1 is None && e2 is None && e3 is None && q.sorted {
        let out = r3.reverse();
        assert forall|i: int, j: int| 0 <= i <= j < out.len() implies out[i].score
            >= out[j].score by {
            assert(out[i] == r3[r3.len() - 1 - i]);
            assert(out[j] == r3[r3.len() - 1 - j]);
        }
    }
}

} // verus!
