//! Selectors: predicates over resources, built from trivial selectors and
//! boolean combinators, and a discriminated form that can be sent over the
//! wire.
use vstd::prelude::*;

verus! {

/// What a selector reads of a resource: its kind and, for the kinds that
/// selectors can pick by id, its id.
#[derive(Debug, Clone, Copy, PartialEq, Eq, Structural)]
pub enum Selectable {
    Assignment(crate::id::Id),
    Course(crate::id::Id),
    GradingPeriod(crate::id::Id),
    User(crate::id::Id),
    Submission,
}

impl Selectable {
    /// The id by which selectors can pick this resource.
    pub open spec fn selectable_id(self) -> Option<crate::id::Id> {
        match self {
            Selectable::Assignment(id) => Some(id),
            Selectable::Course(id) => Some(id),
            Selectable::GradingPeriod(id) => Some(id),
            Selectable::User(id) => Some(id),
            Selectable::Submission => None,
        }
    }

    /// The id by which selectors can pick this resource.
    pub fn id(&self) -> (r: Option<crate::id::Id>)
        ensures
            r == self.selectable_id(),
    {
        match self {
            Selectable::Assignment(id) => Some(*id),
            Selectable::Course(id) => Some(*id),
            Selectable::GradingPeriod(id) => Some(*id),
            Selectable::User(id) => Some(*id),
            Selectable::Submission => None,
        }
    }
}

/// A predicate over resources.
pub trait Selector {
    /// Whether the selector picks `resource`.
    spec fn selects(&self, resource: Selectable) -> bool;

    /// Whether the selector picks `resource`.
    fn matches(&self, resource: &Selectable) -> (b: bool)
        ensures
            b == self.selects(*resource),
    ;
}

/// Picks every resource.
#[derive(Debug, Default, Clone, Copy)]
pub struct All;

impl Selector for All {
    open spec fn selects(&self, resource: Selectable) -> bool {
        true
    }

    fn matches(&self, resource: &Selectable) -> (b: bool) {
        true
    }
}

/// Picks no resource.
#[derive(Debug, Default, Clone, Copy)]
pub struct Nothing;

impl Selector for Nothing {
    open spec fn selects(&self, resource: Selectable) -> bool {
        false
    }

    fn matches(&self, resource: &Selectable) -> (b: bool) {
        false
    }
}

/// Picks the resource with this id.
#[derive(Debug, Clone, Copy)]
pub struct Id(pub crate::id::Id);

impl Selector for Id {
    open spec fn selects(&self, resource: Selectable) -> bool {
        resource.selectable_id() == Some(self.0)
    }

    fn matches(&self, resource: &Selectable) -> (b: bool) {
        match resource.id() {
            Some(id) => id == self.0,
            Option::None => false,
        }
    }
}

/// Picks the resources whose id is one of these.
#[derive(Debug, Clone)]
pub struct Ids(pub Vec<crate::id::Id>);

impl Selector for Ids {
    open spec fn selects(&self, resource: Selectable) -> bool {
        match resource.selectable_id() {
            Some(id) => self.0@.contains(id),
            Option::None => false,
        }
    }

    fn matches(&self, resource: &Selectable) -> (b: bool) {
        let id = match resource.id() {
            Some(id) => id,
            Option::None => {
                return false;
            },
        };
        let mut i: usize = 0;
        while i < self.0.len()
            invariant
                i <= self.0.len(),
                resource.selectable_id() == Some(id),
                forall|j: int| 0 <= j < i ==> self.0@[j] != id,
            decreases self.0.len() - i,
        {
            if self.0[i] == id {
                proof {
                    assert(self.0@[i as int] == id);
                }
                return true;
            }
            i = i + 1;
        }
        false
    }
}

/// Picks what the inner selector does not.
#[derive(Debug, Default, Clone, Copy)]
pub struct Not<A>(pub A);

impl<A: Selector> Selector for Not<A> {
    open spec fn selects(&self, resource: Selectable) -> bool {
        !self.0.selects(resource)
    }

    fn matches(&self, resource: &Selectable) -> (b: bool) {
        !self.0.matches(resource)
    }
}

/// Picks what either selector picks.
#[derive(Debug, Default, Clone, Copy)]
pub struct Or<A, B>(pub A, pub B);

impl<A: Selector, B: Selector> Selector for Or<A, B> {
    open spec fn selects(&self, resource: Selectable) -> bool {
        self.0.selects(resource) || self.1.selects(resource)
    }

    fn matches(&self, resource: &Selectable) -> (b: bool) {
        self.0.matches(resource) || self.1.matches(resource)
    }
}

/// Picks what both selectors pick.
#[derive(Debug, Default, Clone, Copy)]
pub struct And<A, B>(pub A, pub B);

impl<A: Selector, B: Selector> Selector for And<A, B> {
    open spec fn selects(&self, resource: Selectable) -> bool {
        self.0.selects(resource) && self.1.selects(resource)
    }

    fn matches(&self, resource: &Selectable) -> (b: bool) {
        self.0.matches(resource) && self.1.matches(resource)
    }
}

/// Picks what exactly one of the selectors picks.
#[derive(Debug, Default, Clone, Copy)]
pub struct ExclusiveOr<A, B>(pub A, pub B);

impl<A: Selector, B: Selector> Selector for ExclusiveOr<A, B> {
    open spec fn selects(&self, resource: Selectable) -> bool {
        self.0.selects(resource) != self.1.selects(resource)
    }

    fn matches(&self, resource: &Selectable) -> (b: bool) {
        let a = self.0.matches(resource);
        let b = self.1.matches(resource);
        a != b
    }
}

/// A selector in one type, built from the trivial selectors and the
/// combinators.
#[derive(Debug)]
pub enum DSelector {
    All(All),
    Nothing(Nothing),
    Id(Id),
    Ids(Ids),
    Not(Box<Not<DSelector>>),
    Or(Box<Or<DSelector, DSelector>>),
    And(Box<And<DSelector, DSelector>>),
    ExclusiveOr(Box<ExclusiveOr<DSelector, DSelector>>),
}

impl DSelector {
    /// Whether this selector picks `resource`.
    pub open spec fn picks(self, resource: Selectable) -> bool
        decreases self,
    {
        match self {
            DSelector::All(_) => true,
            DSelector::Nothing(_) => false,
            DSelector::Id(sel) => resource.selectable_id() == Some(sel.0),
            DSelector::Ids(sel) => match resource.selectable_id() {
                Some(id) => sel.0@.contains(id),
                Option::None => false,
            },
            DSelector::Not(sel) => !sel.0.picks(resource),
            DSelector::Or(sel) => sel.0.picks(resource) || sel.1.picks(resource),
            DSelector::And(sel) => sel.0.picks(resource) && sel.1.picks(resource),
            DSelector::ExclusiveOr(sel) => sel.0.picks(resource) != sel.1.picks(resource),
        }
    }

    /// Whether this selector picks `resource`.
    pub fn picks_resource(&self, resource: &Selectable) -> (b: bool)
        ensures
            b == self.picks(*resource),
        decreases self,
    {
        match self {
            DSelector::All(sel) => sel.matches(resource),
            DSelector::Nothing(sel) => sel.matches(resource),
            DSelector::Id(sel) => sel.matches(resource),
            DSelector::Ids(sel) => sel.matches(resource),
            DSelector::Not(sel) => !sel.0.picks_resource(resource),
            DSelector::Or(sel) => sel.0.picks_resource(resource) || sel.1.picks_resource(
                resource,
            ),
            DSelector::And(sel) => sel.0.picks_resource(resource) && sel.1.picks_resource(
                resource,
            ),
            DSelector::ExclusiveOr(sel) => {
                let a = sel.0.picks_resource(resource);
                let b = sel.1.picks_resource(resource);
                a != b
            },
        }
    }
}

impl Selector for DSelector {
    open spec fn selects(&self, resource: Selectable) -> bool {
        self.picks(resource)
    }

    fn matches(&self, resource: &Selectable) -> (b: bool) {
        self.picks_resource(resource)
    }
}

/// Negating a selector twice picks what it picks.
pub proof fn lemma_not_not<A: Selector>(a: A, resource: Selectable)
    ensures
        Not(Not(a)).selects(resource) == a.selects(resource),
{
}

/// Negating a disjunction picks what the conjunction of the negations picks.
pub proof fn lemma_not_or<A: Selector, B: Selector>(a: A, b: B, resource: Selectable)
    ensures
        Not(Or(a, b)).selects(resource) == And(Not(a), Not(b)).selects(resource),
{
}

/// An exclusive or picks what the disjunction picks and the conjunction does
/// not.
pub proof fn lemma_exclusive_or<A: Selector, B: Selector>(a: A, b: B, resource: Selectable)
    ensures
        ExclusiveOr(a, b).selects(resource) == And(Or(a, b), Not(And(a, b))).selects(resource),
{
}

/// `All` is neutral for conjunction and `Nothing` for disjunction.
pub proof fn lemma_trivial_neutral<A: Selector>(a: A, resource: Selectable)
    ensures
        And(All, a).selects(resource) == a.selects(resource),
        Or(Nothing, a).selects(resource) == a.selects(resource),
{
}

/// A list of ids picks a resource exactly when one of the single-id
/// selectors of its ids, at any position of the list, picks it.
pub proof fn lemma_ids_as_single_ids(sel: Ids, resource: Selectable)
    ensures
        sel.selects(resource) <==> exists|i: int|
            0 <= i < sel.0@.len() && #[trigger] Id(sel.0@[i]).selects(resource),
{
    if sel.selects(resource) {
        let id = resource.selectable_id()->Some_0;
        let i = choose|i: int| 0 <= i < sel.0@.len() && sel.0@[i] == id;
        assert(Id(sel.0@[i]).selects(resource));
    }
    if exists|i: int| 0 <= i < sel.0@.len() && #[trigger] Id(sel.0@[i]).selects(resource) {
        let i = choose|i: int| 0 <= i < sel.0@.len() && #[trigger] Id(sel.0@[i]).selects(resource);
        assert(sel.0@[i] == resource.selectable_id()->Some_0);
    }
}

/// A list of ids picks every resource whose id stands anywhere in the list,
/// the first position included, and no resource whose id stands nowhere in
/// it; the selector in one type picks the same.
pub proof fn lemma_ids_picks_listed(sel: Ids, resource: Selectable, i: int)
    ensures
        0 <= i < sel.0@.len() && resource.selectable_id() == Some(sel.0@[i]) ==> sel.selects(
            resource,
        ) && DSelector::Ids(sel).picks(resource),
        (forall|j: int| 0 <= j < sel.0@.len() ==> resource.selectable_id() != Some(
            #[trigger] sel.0@[j],
        )) ==> !sel.selects(resource) && !DSelector::Ids(sel).picks(resource),
{
    if 0 <= i < sel.0@.len() && resource.selectable_id() == Some(sel.0@[i]) {
        assert(sel.0@.contains(sel.0@[i]));
    }
    if sel.selects(resource) || DSelector::Ids(sel).picks(resource) {
        let id = resource.selectable_id()->Some_0;
        let j = choose|j: int| 0 <= j < sel.0@.len() && sel.0@[j] == id;
        assert(resource.selectable_id() == Some(sel.0@[j]));
    }
}

/// The selector in one type picks what the selector it holds picks.
pub proof fn lemma_dselector_as_held(resource: Selectable, id: Id, ids: Ids)
    ensures
        DSelector::All(All).picks(resource) == All.selects(resource),
        DSelector::Nothing(Nothing).picks(resource) == Nothing.selects(resource),
        DSelector::Id(id).picks(resource) == id.selects(resource),
        DSelector::Ids(ids).picks(resource) == ids.selects(resource),
{
}

} // verus!
