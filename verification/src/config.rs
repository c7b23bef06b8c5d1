//! Filter policy: decides, per application class, whether a feature of the
//! daemon applies to that class.

use vstd::prelude::*;

verus! {

/// Whether a filter list names the classes that take part (`Include`) or the
/// classes that are left out (`Exclude`).
#[derive(Clone, Copy, Debug, PartialEq, Eq, Structural)]
pub enum FilterMode {
    Include,
    Exclude,
}

/// A participation filter: a list of application classes together with the
/// mode that says how membership is read.
#[derive(Debug)]
pub struct ProgramFilter {
    pub mode: FilterMode,
    pub programs: Vec<String>,
}

/// Settings for the floating-geometry poll: which classes are tracked and how
/// many seconds pass between polls of the compositor's client list.
#[derive(Debug)]
pub struct FloatingConfig {
    pub filter: ProgramFilter,
    pub frequency: u64,
}

/// True iff `class` occurs in `list`.
pub open spec fn list_contains(list: Seq<Seq<char>>, class: Seq<char>) -> bool {
    exists|i: int| 0 <= i < list.len() && list[i] == class
}

/// The participation rule: under `Include` a class takes part iff it is on
/// the list; under `Exclude` iff it is not.
pub open spec fn filter_applies(class: Seq<char>, list: Seq<Seq<char>>, mode: FilterMode) -> bool {
    match mode {
        FilterMode::Include => list_contains(list, class),
        FilterMode::Exclude => !list_contains(list, class),
    }
}

/// Membership test over the class list.
fn contains_class(list: &Vec<String>, class: &String) -> (r: bool)
    ensures
        r == list_contains(list.deep_view(), class@),
{
    let mut i: usize = 0;
    while i < list.len()
        invariant
            0 <= i <= list.len(),
            forall|j: int| 0 <= j < i ==> list.deep_view()[j] != class@,
        decreases list.len() - i,
    {
        if list[i] == *class {
            assert(list.deep_view()[i as int] == class@);
            return true;
        }
        i = i + 1;
    }
    false
}

/// Decides whether `class` takes part under the given list and mode.
pub fn applies(class: &String, list: &Vec<String>, mode: FilterMode) -> (r: bool)
    ensures
        r == filter_applies(class@, list.deep_view(), mode),
{
    let member = contains_class(list, class);
    match mode {
        FilterMode::Include => member,
        FilterMode::Exclude => !member,
    }
}

impl ProgramFilter {
    /// Decides whether `class` takes part under this filter.
    pub fn applies(&self, class: &String) -> (r: bool)
        ensures
            r == filter_applies(class@, self.programs.deep_view(), self.mode),
    {
        applies(class, &self.programs, self.mode)
    }
}

} // verus!
