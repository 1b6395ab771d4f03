//! The registry of renderers: record types with a routine of their own,
//! and the choice of how to render a record of a given type.

use vstd::prelude::*;

verus! {

/// How a record gets drawn.
#[derive(Clone, Copy, PartialEq, Eq, Structural, Debug)]
pub enum Route {
    /// By the routine registered in this slot.
    Specific(usize),
    /// By the generic reflection-driven renderer.
    Reflective,
    /// Not at all: the record is shown as not inspectable.
    Unavailable,
}

/// What the operator sees for a record.
#[derive(Clone, Copy, PartialEq, Eq, Structural, Debug)]
pub enum RenderOutcome {
    Rendered,
    Unavailable,
}

/// The route chosen for a type name, given the registrations and whether
/// the reflection registry describes the type.
pub open spec fn route_for<R>(regs: Seq<(Seq<char>, R)>, name: Seq<char>, reflectable: bool) -> Route {
    if exists|j: int| 0 <= j < regs.len() && #[trigger] regs[j].0 == name {
        Route::Specific((choose|j: int| 0 <= j < regs.len() && #[trigger] regs[j].0 == name) as usize)
    } else if reflectable {
        Route::Reflective
    } else {
        Route::Unavailable
    }
}

pub open spec fn outcome_of(route: Route) -> RenderOutcome {
    match route {
        Route::Unavailable => RenderOutcome::Unavailable,
        _ => RenderOutcome::Rendered,
    }
}

/// A type with a registered routine is always drawn by that routine, also
/// when reflection could describe it.
pub proof fn lemma_registered_routine_wins<R>(regs: Seq<(Seq<char>, R)>, name: Seq<char>, reflectable: bool)
    requires
        regs.len() <= usize::MAX,
        exists|j: int| 0 <= j < regs.len() && #[trigger] regs[j].0 == name,
    ensures
        route_for(regs, name, reflectable) is Specific,
        regs[route_for(regs, name, reflectable)->Specific_0 as int].0 == name,
        outcome_of(route_for(regs, name, reflectable)) == RenderOutcome::Rendered,
{
    let j = choose|j: int| 0 <= j < regs.len() && #[trigger] regs[j].0 == name;
    assert(j as usize as int == j);
}

/// A type with no routine that reflection cannot describe is reported as
/// unavailable, not drawn.
pub proof fn lemma_unknown_type_unavailable<R>(regs: Seq<(Seq<char>, R)>, name: Seq<char>)
    requires
        forall|j: int| 0 <= j < regs.len() ==> #[trigger] regs[j].0 != name,
    ensures
        route_for(regs, name, false) == Route::Unavailable,
        outcome_of(route_for(regs, name, false)) == RenderOutcome::Unavailable,
{
}

/// The registrations after registering `routine` for `name`: it replaces
/// the routine of that name in its slot, or takes a new slot at the end.
pub open spec fn after_register<R>(regs: Seq<(Seq<char>, R)>, name: Seq<char>, routine: R) -> Seq<(Seq<char>, R)> {
    if exists|j: int| 0 <= j < regs.len() && #[trigger] regs[j].0 == name {
        regs.update(choose|j: int| 0 <= j < regs.len() && #[trigger] regs[j].0 == name, (name, routine))
    } else {
        regs.push((name, routine))
    }
}

/// No type name is registered twice.
pub open spec fn names_unique<R>(regs: Seq<(Seq<char>, R)>) -> bool {
    forall|i: int, j: int|
        0 <= i < regs.len() && 0 <= j < regs.len() && #[trigger] regs[i].0 == #[trigger] regs[j].0 ==> i == j
}

impl Route {
    pub fn outcome(&self) -> (r: RenderOutcome)
        ensures
            r == outcome_of(*self),
    {
        match self {
            Route::Unavailable => RenderOutcome::Unavailable,
            _ => RenderOutcome::Rendered,
        }
    }
}

/// Routines for the record types that have one, keyed by full type name.
pub struct InspectGenerator<R> {
    impls: Vec<(String, R)>,
}

impl<R> View for InspectGenerator<R> {
    type V = Seq<(Seq<char>, R)>;

    closed spec fn view(&self) -> Seq<(Seq<char>, R)> {
        self.impls@.map_values(|x: (String, R)| (x.0@, x.1))
    }
}

impl<R> InspectGenerator<R> {
    pub open spec fn wf(&self) -> bool {
        names_unique(self@)
    }

    /// A registry with no routines.
    pub fn new() -> (r: Self)
        ensures
            r.wf(),
            r@.len() == 0,
    {
        let r = InspectGenerator { impls: Vec::new() };
        assert(r@ =~= Seq::<(Seq<char>, R)>::empty());
        r
    }

    /// Finds the slot registered for `name`.
    fn slot_of(&self, name: &String) -> (r: Option<usize>)
        requires
            self.wf(),
        ensures
            match r {
                Some(j) => j < self@.len() && self@[j as int].0 == name@,
                None => forall|j: int| 0 <= j < self@.len() ==> #[trigger] self@[j].0 != name@,
            },
    {
        let mut i: usize = 0;
        while i < self.impls.len()
            invariant
                i <= self@.len(),
                self@.len() == self.impls@.len(),
                forall|j: int| 0 <= j < i ==> #[trigger] self@[j].0 != name@,
            decreases self.impls.len() - i,
        {
            assert(self@[i as int].0 == self.impls@[i as int].0@);
            if self.impls[i].0 == *name {
                return Some(i);
            }
            i = i + 1;
        }
        None
    }

    /// Registers `routine` for the type called `name`, replacing the one it
    /// had.
    pub fn register(&mut self, name: String, routine: R)
        requires
            old(self).wf(),
        ensures
            final(self).wf(),
            final(self)@ == after_register(old(self)@, name@, routine),
    {
        let ghost n = name@;
        let ghost before = self@;
        match self.slot_of(&name) {
            Some(j) => {
                proof {
                    let c = choose|c: int| 0 <= c < before.len() && #[trigger] before[c].0 == n;
                    assert(c == j);
                }
                self.impls.set(j, (name, routine));
                assert(self@ =~= before.update(j as int, (n, routine)));
            },
            None => {
                self.impls.push((name, routine));
                assert(self@ =~= before.push((n, routine)));
            },
        }
    }

    /// Chooses how to render a record of the type called `name`: its own
    /// routine when one is registered, whether or not reflection describes
    /// the type; else the reflective renderer when it does; else nothing.
    pub fn generate(&self, name: &String, reflectable: bool) -> (r: Route)
        requires
            self.wf(),
        ensures
            r == route_for(self@, name@, reflectable),
    {
        match self.slot_of(name) {
            Some(j) => {
                proof {
                    let c = choose|c: int| 0 <= c < self@.len() && #[trigger] self@[c].0 == name@;
                    assert(c == j);
                }
                Route::Specific(j)
            },
            None => {
                if reflectable {
                    Route::Reflective
                } else {
                    Route::Unavailable
                }
            },
        }
    }

    /// The routine in slot `j`.
    pub fn routine(&self, j: usize) -> (r: &R)
        requires
            j < self@.len(),
        ensures
            *r == self@[j as int].1,
    {
        &self.impls[j].1
    }

    /// The number of registered routines.
    pub fn len(&self) -> (r: usize)
        ensures
            r == self@.len(),
    {
        self.impls.len()
    }
}

} // verus!
