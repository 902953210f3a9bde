//! The schedule of a frame: named units of work, the units each of them has
//! to wait for, and an order that respects all of that.
//!
//! Units are registered with a [`ScheduleBuilder`] in any order. Building
//! checks the registrations as a whole and fixes the order once: a unit runs
//! after every unit it depends on, and among the units that could run next
//! the one registered first runs first.

use vstd::prelude::*;

verus! {

/// A unit of work as the contracts see it: its name and the names of the
/// units it depends on.
pub struct UnitView {
    pub name: Seq<char>,
    pub dependencies: Seq<Seq<char>>,
}

/// A unit of work to register: its name and the names of the units that have
/// to finish before it starts.
#[derive(Clone, Debug, PartialEq, Eq)]
pub struct UnitOfWork {
    pub name: String,
    pub dependencies: Vec<String>,
}

impl View for UnitOfWork {
    type V = UnitView;

    open spec fn view(&self) -> UnitView {
        UnitView {
            name: self.name@,
            dependencies: Seq::new(self.dependencies@.len(), |j: int| self.dependencies@[j]@),
        }
    }
}

/// The views of `units`, in their order.
pub open spec fn unit_views(units: Seq<UnitOfWork>) -> Seq<UnitView> {
    Seq::new(units.len(), |i: int| units[i]@)
}

/// The names that `names` holds, as the contracts see them.
pub open spec fn name_views(names: Seq<&str>) -> Seq<Seq<char>> {
    Seq::new(names.len(), |j: int| names[j]@)
}

impl UnitOfWork {
    /// The unit named `name` that depends on the units named in
    /// `dependencies`.
    pub fn new(name: &str, dependencies: &[&str]) -> (unit: Self)
        ensures
            unit@ == (UnitView { name: name@, dependencies: name_views(dependencies@) }),
    {
        let mut owned: Vec<String> = Vec::new();
        let mut j: usize = 0;
        while j < dependencies.len()
            invariant
                j <= dependencies@.len(),
                owned@.len() == j,
                forall|b: int| 0 <= b < j ==> (#[trigger] owned@[b])@ == dependencies@[b]@,
            decreases dependencies@.len() - j,
        {
            owned.push(dependencies[j].to_owned());
            j += 1;
        }
        let unit = UnitOfWork { name: name.to_owned(), dependencies: owned };
        assert(unit@.dependencies =~= name_views(dependencies@));
        unit
    }

    /// A copy of the unit.
    pub fn copy(&self) -> (unit: Self)
        ensures
            unit@ == self@,
    {
        let mut dependencies: Vec<String> = Vec::new();
        let mut j: usize = 0;
        while j < self.dependencies.len()
            invariant
                j <= self.dependencies@.len(),
                dependencies@.len() == j,
                forall|b: int|
                    0 <= b < j ==> (#[trigger] dependencies@[b])@ == self.dependencies@[b]@,
            decreases self.dependencies@.len() - j,
        {
            dependencies.push(self.dependencies[j].clone());
            j += 1;
        }
        let unit = UnitOfWork { name: self.name.clone(), dependencies };
        assert(unit@.dependencies =~= self@.dependencies);
        unit
    }

    /// A copy of the unit that depends on the unit named `dependency` as
    /// well.
    pub fn with_dependency(&self, dependency: &str) -> (unit: Self)
        ensures
            unit@ == (UnitView {
                name: self@.name,
                dependencies: self@.dependencies.push(dependency@),
            }),
    {
        let mut unit = self.copy();
        let ghost copied = unit@;
        unit.dependencies.push(dependency.to_owned());
        assert(unit@.dependencies =~= copied.dependencies.push(dependency@));
        unit
    }
}

/// Why a schedule cannot be built.
#[derive(Clone, Debug, PartialEq, Eq)]
pub enum ConfigError {
    /// A unit of this name is registered already.
    DuplicateUnit { name: String },
    /// `unit` depends on `dependency`, and no unit of that name is registered.
    UnknownDependency { unit: String, dependency: String },
    /// The dependencies form a cycle: no order lets every unit run after the
    /// units it depends on.
    CyclicDependency,
}

/// A configuration error as the contracts see it.
pub enum ConfigErrorView {
    DuplicateUnit { name: Seq<char> },
    UnknownDependency { unit: Seq<char>, dependency: Seq<char> },
    CyclicDependency,
}

impl View for ConfigError {
    type V = ConfigErrorView;

    open spec fn view(&self) -> ConfigErrorView {
        match *self {
            ConfigError::DuplicateUnit { name } => ConfigErrorView::DuplicateUnit { name: name@ },
            ConfigError::UnknownDependency { unit, dependency } => {
                ConfigErrorView::UnknownDependency { unit: unit@, dependency: dependency@ }
            },
            ConfigError::CyclicDependency => ConfigErrorView::CyclicDependency,
        }
    }
}

/// A unit named `name` is among `units`.
pub open spec fn registered(units: Seq<UnitView>, name: Seq<char>) -> bool {
    exists|i: int| 0 <= i < units.len() && (#[trigger] units[i]).name == name
}

/// No two of `units` have the same name.
pub open spec fn distinct_names(units: Seq<UnitView>) -> bool {
    forall|i: int, j: int|
        0 <= i < j < units.len() ==> (#[trigger] units[i]).name != (#[trigger] units[j]).name
}

/// The name of `new[k]` is taken: a unit of `before` or an earlier one of
/// `new` has it.
pub open spec fn taken_at(before: Seq<UnitView>, new: Seq<UnitView>, k: int) -> bool {
    &&& 0 <= k < new.len()
    &&& registered(before + new.take(k), new[k].name)
}

/// `new[k]` is the first unit of `new` whose name is taken.
pub open spec fn first_taken_at(before: Seq<UnitView>, new: Seq<UnitView>, k: int) -> bool {
    &&& taken_at(before, new, k)
    &&& forall|m: int| 0 <= m < k ==> !taken_at(before, new, m)
}

/// The dependency number `j` of unit number `i` names no registered unit.
pub open spec fn unknown_at(units: Seq<UnitView>, i: int, j: int) -> bool {
    &&& 0 <= i < units.len()
    &&& 0 <= j < units[i].dependencies.len()
    &&& !registered(units, units[i].dependencies[j])
}

/// Every dependency names a registered unit.
pub open spec fn dependencies_registered(units: Seq<UnitView>) -> bool {
    forall|i: int, j: int| !unknown_at(units, i, j)
}

/// The dependency number `j` of unit number `i` is the first that names no
/// registered unit, going through the units as registered and through the
/// dependencies of each as listed.
pub open spec fn first_unknown_at(units: Seq<UnitView>, i: int, j: int) -> bool {
    &&& unknown_at(units, i, j)
    &&& forall|a: int, b: int| unknown_at(units, a, b) ==> i < a || (i == a && j <= b)
}

/// One of the units numbered in `among` is named `name`.
pub open spec fn named_among(units: Seq<UnitView>, among: Seq<usize>, name: Seq<char>) -> bool {
    exists|q: int|
        0 <= q < among.len() && (#[trigger] among[q]) < units.len()
            && units[among[q] as int].name == name
}

/// Every unit that unit number `i` depends on is among those numbered in
/// `earlier`.
pub open spec fn ready_after(units: Seq<UnitView>, earlier: Seq<usize>, i: int) -> bool {
    forall|j: int|
        0 <= j < units[i].dependencies.len() ==> named_among(
            units,
            earlier,
            #[trigger] units[i].dependencies[j],
        )
}

/// `order` lists every unit's number once, each after the numbers of all the
/// units it depends on.
pub open spec fn topological(units: Seq<UnitView>, order: Seq<usize>) -> bool {
    &&& order.len() == units.len()
    &&& order.no_duplicates()
    &&& forall|p: int| 0 <= p < order.len() ==> #[trigger] order[p] < units.len()
    &&& forall|p: int|
        0 <= p < order.len() ==> ready_after(units, order.take(p), #[trigger] order[p] as int)
}

/// At every position of `order` stands the unit registered first among those
/// that are not placed yet and depend on placed units only.
pub open spec fn earliest_first(units: Seq<UnitView>, order: Seq<usize>) -> bool {
    forall|p: int, i: usize|
        0 <= p < order.len() && i < order[p] && !order.take(p).contains(i)
            ==> !#[trigger] ready_after(units, order.take(p), i as int)
}

/// Some order lets every unit run after the units it depends on.
pub open spec fn acyclic(units: Seq<UnitView>) -> bool {
    exists|order: Seq<usize>| topological(units, order)
}

/// The registrations from which a schedule is built.
#[derive(Debug)]
pub struct ScheduleBuilder {
    units: Vec<UnitOfWork>,
}

impl View for ScheduleBuilder {
    type V = Seq<UnitView>;

    closed spec fn view(&self) -> Seq<UnitView> {
        unit_views(self.units@)
    }
}

impl ScheduleBuilder {
    /// The builder's invariant: no two registered units have the same name.
    pub open spec fn wf(&self) -> bool {
        distinct_names(self@)
    }

    /// A builder without registrations.
    pub fn new() -> (builder: Self)
        ensures
            builder.wf(),
            builder@ == Seq::<UnitView>::empty(),
    {
        let builder = ScheduleBuilder { units: Vec::new() };
        assert(builder@ =~= Seq::<UnitView>::empty());
        builder
    }

    /// The number of registered units.
    pub fn len(&self) -> (count: usize)
        ensures
            count == self@.len(),
    {
        self.units.len()
    }

    /// Whether a unit named `name` is registered.
    pub fn contains(&self, name: &str) -> (present: bool)
        ensures
            present == registered(self@, name@),
    {
        let wanted = name.to_owned();
        find_unit(&self.units, &wanted).is_some()
    }

    /// Registers `unit` behind the units registered so far. A unit whose name
    /// is taken is refused, and the builder stays as it was. The
    /// dependencies may name units that are registered later, or never:
    /// [`Self::build`] checks them.
    pub fn register(&mut self, unit: UnitOfWork) -> (result: Result<(), ConfigError>)
        requires
            old(self).wf(),
        ensures
            final(self).wf(),
            registered(old(self)@, unit@.name) ==> {
                &&& result is Err
                &&& result.unwrap_err()@ == (ConfigErrorView::DuplicateUnit { name: unit@.name })
                &&& final(self)@ == old(self)@
            },
            !registered(old(self)@, unit@.name) ==> {
                &&& result is Ok
                &&& final(self)@ == old(self)@.push(unit@)
            },
    {
        if find_unit(&self.units, &unit.name).is_some() {
            return Err(ConfigError::DuplicateUnit { name: unit.name });
        }
        let ghost before = self@;
        self.units.push(unit);
        assert(self@ =~= before.push(unit@));
        Ok(())
    }

    /// Registers a unit named `name` that depends on the units named in
    /// `dependencies`; see [`Self::register`].
    pub fn add(&mut self, name: &str, dependencies: &[&str]) -> (result: Result<(), ConfigError>)
        requires
            old(self).wf(),
        ensures
            final(self).wf(),
            registered(old(self)@, name@) ==> {
                &&& result is Err
                &&& result.unwrap_err()@ == (ConfigErrorView::DuplicateUnit { name: name@ })
                &&& final(self)@ == old(self)@
            },
            !registered(old(self)@, name@) ==> {
                &&& result is Ok
                &&& final(self)@ == old(self)@.push(
                    UnitView { name: name@, dependencies: name_views(dependencies@) },
                )
            },
    {
        self.register(UnitOfWork::new(name, dependencies))
    }

    /// Registers `units` in their order, all or none: where one of their
    /// names is taken, by a unit registered before or by an earlier one of
    /// `units`, the first such name is reported and the builder stays as it
    /// was.
    pub fn register_all(&mut self, units: &Vec<UnitOfWork>) -> (result: Result<(), ConfigError>)
        requires
            old(self).wf(),
        ensures
            final(self).wf(),
            result is Ok <==> distinct_names(old(self)@ + unit_views(units@)),
            result is Ok ==> final(self)@ == old(self)@ + unit_views(units@),
            result matches Err(error) ==> {
                &&& final(self)@ == old(self)@
                &&& exists|k: int|
                    #[trigger] first_taken_at(old(self)@, unit_views(units@), k) && error@ == (
                    ConfigErrorView::DuplicateUnit { name: units@[k]@.name })
            },
    {
        let ghost before = self@;
        let ghost new = unit_views(units@);
        let start = self.units.len();
        let mut k: usize = 0;
        while k < units.len()
            invariant
                k <= units@.len(),
                before == old(self)@,
                new == unit_views(units@),
                distinct_names(before),
                self.wf(),
                self.units@.len() == start + k,
                self@ == before + new.take(k as int),
                forall|m: int| 0 <= m < k ==> !taken_at(before, new, m),
            decreases units@.len() - k,
        {
            let ghost so_far = self@;
            match self.register(units[k].copy()) {
                Ok(()) => {
                    assert(new.take(k + 1) =~= new.take(k as int).push(new[k as int]));
                    assert(self@ =~= before + new.take(k + 1));
                },
                Err(error) => {
                    proof {
                        assert(first_taken_at(before, new, k as int));
                        lemma_taken_is_duplicate(before, new, k as int);
                    }
                    self.units.truncate(start);
                    assert(self@ =~= before) by {
                        assert forall|i: int| 0 <= i < start implies self@[i] == before[i] by {
                            assert(self@[i] == so_far[i]);
                        }
                    }
                    return Err(error);
                },
            }
            k += 1;
        }
        assert(new.take(k as int) =~= new);
        Ok(())
    }

    /// Builds the schedule.
    ///
    /// It fails with `UnknownDependency` where a dependency names no
    /// registered unit, and reports the first such dependency. It fails with
    /// `CyclicDependency` where all dependencies are registered and no order
    /// respects them. Otherwise it succeeds, and the schedule runs the units
    /// in the one order that respects the dependencies and lets, at every
    /// position, the unit registered first run first.
    pub fn build(self) -> (result: Result<Schedule, ConfigError>)
        requires
            self.wf(),
        ensures
            result is Ok <==> dependencies_registered(self@) && acyclic(self@),
            result matches Ok(schedule) ==> schedule.wf() && schedule.units() == self@,
            result matches Err(error) ==> match error@ {
                ConfigErrorView::DuplicateUnit { .. } => false,
                ConfigErrorView::UnknownDependency { unit, dependency } => exists|i: int, j: int|
                    #[trigger] first_unknown_at(self@, i, j) && unit == self@[i].name
                        && dependency == self@[i].dependencies[j],
                ConfigErrorView::CyclicDependency => {
                    dependencies_registered(self@) && !acyclic(self@)
                },
            },
    {
        let resolved = match resolve(&self.units) {
            Ok(resolved) => resolved,
            Err(error) => {
                return Err(error);
            },
        };
        match arrange(&resolved, Ghost(self@)) {
            Some(order) => Ok(Schedule { units: self.units, order }),
            None => Err(ConfigError::CyclicDependency),
        }
    }
}

/// The units of a frame and the order in which they run.
#[derive(Debug)]
pub struct Schedule {
    units: Vec<UnitOfWork>,
    order: Vec<usize>,
}

impl Schedule {
    /// The units, as they were registered.
    pub closed spec fn units(&self) -> Seq<UnitView> {
        unit_views(self.units@)
    }

    /// The numbers of the units, by registration, in the order in which they
    /// run.
    pub closed spec fn order(&self) -> Seq<usize> {
        self.order@
    }

    /// The names of the units in the order in which they run.
    pub open spec fn names(&self) -> Seq<Seq<char>> {
        Seq::new(self.order().len(), |p: int| self.units()[self.order()[p] as int].name)
    }

    /// The schedule's invariant: the units have different names, every
    /// dependency names one of them, each runs once and after the units it
    /// depends on, and at every position the unit registered first among
    /// those that can run does.
    pub open spec fn wf(&self) -> bool {
        &&& distinct_names(self.units())
        &&& dependencies_registered(self.units())
        &&& topological(self.units(), self.order())
        &&& earliest_first(self.units(), self.order())
    }

    /// The number of units.
    pub fn len(&self) -> (count: usize)
        requires
            self.wf(),
        ensures
            count == self.units().len(),
            count == self.order().len(),
    {
        self.order.len()
    }

    /// The name of the unit that runs at `position`, counted from 0; `None`
    /// beyond the last unit.
    pub fn name_at(&self, position: usize) -> (name: Option<&str>)
        requires
            self.wf(),
        ensures
            position < self.order().len() ==> name is Some && name.unwrap()@
                == self.names()[position as int],
            position >= self.order().len() ==> name is None,
    {
        if position < self.order.len() {
            Some(self.units[self.order[position]].name.as_str())
        } else {
            None
        }
    }

    /// The position, counted from 0, at which the unit named `name` runs;
    /// `None` where the schedule has no such unit.
    pub fn position_of(&self, name: &str) -> (position: Option<usize>)
        requires
            self.wf(),
        ensures
            position matches Some(p) ==> p < self.order().len() && self.names()[p as int] == name@,
            position is None <==> !registered(self.units(), name@),
    {
        let wanted = name.to_owned();
        let mut p: usize = 0;
        while p < self.order.len()
            invariant
                self.wf(),
                wanted@ == name@,
                p <= self.order().len(),
                forall|q: int| 0 <= q < p ==> #[trigger] self.names()[q] != name@,
            decreases self.order().len() - p,
        {
            if self.units[self.order[p]].name == wanted {
                assert(self.units()[self.order()[p as int] as int].name == name@);
                return Some(p);
            }
            p += 1;
        }
        proof {
            if registered(self.units(), name@) {
                let i = choose|i: int|
                    0 <= i < self.units().len() && (#[trigger] self.units()[i]).name == name@;
                assert(self.units@.len() == self.units.len());
                lemma_order_is_complete(self.order(), self.units.len(), i as usize);
                let q = choose|q: int| 0 <= q < self.order().len() && self.order()[q] == i as usize;
                assert(self.names()[q] == name@);
            }
        }
        None
    }
}

/// In a schedule every registered unit runs, once.
pub proof fn lemma_every_unit_runs(schedule: Schedule, i: int)
    requires
        schedule.wf(),
        0 <= i < schedule.units().len(),
    ensures
        exists|p: int|
            0 <= p < schedule.order().len() && #[trigger] schedule.order()[p] == i
                && forall|q: int|
                0 <= q < schedule.order().len() && schedule.order()[q] == i ==> q == p,
{
    assert(schedule.units@.len() == schedule.units.len());
    lemma_order_is_complete(schedule.order(), schedule.units.len(), i as usize);
    let p = choose|p: int| 0 <= p < schedule.order().len() && schedule.order()[p] == i as usize;
    assert(schedule.order()[p] == i);
}

/// In a schedule a unit runs after every unit it depends on: where the unit
/// at position `p` depends on a unit of some name, a unit of that name runs
/// at an earlier position.
pub proof fn lemma_dependencies_run_first(schedule: Schedule, p: int, j: int)
    requires
        schedule.wf(),
        0 <= p < schedule.order().len(),
        0 <= j < schedule.units()[schedule.order()[p] as int].dependencies.len(),
    ensures
        exists|q: int|
            0 <= q < p && #[trigger] schedule.names()[q]
                == schedule.units()[schedule.order()[p] as int].dependencies[j],
{
    let units = schedule.units();
    let earlier = schedule.order().take(p);
    let dependency = units[schedule.order()[p] as int].dependencies[j];
    assert(ready_after(units, earlier, schedule.order()[p] as int));
    assert(named_among(units, earlier, dependency));
    let q = choose|q: int|
        0 <= q < earlier.len() && (#[trigger] earlier[q]) < units.len()
            && units[earlier[q] as int].name == dependency;
    assert(earlier[q] == schedule.order()[q]);
    assert(schedule.names()[q] == dependency);
}

/// Registrations have one schedule at most: two orders that both respect the
/// dependencies and both let the unit registered first run first are the
/// same order.
pub proof fn lemma_order_is_unique(units: Seq<UnitView>, first: Seq<usize>, second: Seq<usize>)
    requires
        topological(units, first),
        earliest_first(units, first),
        topological(units, second),
        earliest_first(units, second),
    ensures
        first == second,
{
    lemma_orders_agree(units, first, second, units.len() as int);
    assert(first.take(first.len() as int) =~= first);
    assert(second.take(second.len() as int) =~= second);
}

/// Two such orders agree on their first `upto` positions.
proof fn lemma_orders_agree(units: Seq<UnitView>, first: Seq<usize>, second: Seq<usize>, upto: int)
    requires
        topological(units, first),
        earliest_first(units, first),
        topological(units, second),
        earliest_first(units, second),
        0 <= upto <= units.len(),
    ensures
        first.take(upto) == second.take(upto),
    decreases upto,
{
    if upto == 0 {
        assert(first.take(0) =~= second.take(0));
    } else {
        let p = upto - 1;
        lemma_orders_agree(units, first, second, p);
        let a = first[p];
        let b = second[p];
        assert(ready_after(units, first.take(p), a as int));
        assert(ready_after(units, second.take(p), b as int));
        if a < b {
            assert(!second.take(p).contains(a)) by {
                if first.take(p).contains(a) {
                    let q = choose|q: int| 0 <= q < p && first.take(p)[q] == a;
                    assert(first[q] == first[p]);
                }
            }
            assert(!ready_after(units, second.take(p), a as int));
        }
        if b < a {
            assert(!first.take(p).contains(b)) by {
                if second.take(p).contains(b) {
                    let q = choose|q: int| 0 <= q < p && second.take(p)[q] == b;
                    assert(second[q] == second[p]);
                }
            }
            assert(!ready_after(units, first.take(p), b as int));
        }
        assert(first.take(upto) =~= first.take(p).push(a));
        assert(second.take(upto) =~= second.take(p).push(b));
    }
}

/// Where a name of `new` is taken, the names of `before` and `new` together
/// are not distinct.
proof fn lemma_taken_is_duplicate(before: Seq<UnitView>, new: Seq<UnitView>, k: int)
    requires
        taken_at(before, new, k),
    ensures
        !distinct_names(before + new),
{
    let earlier = before + new.take(k);
    let i = choose|i: int| 0 <= i < earlier.len() && (#[trigger] earlier[i]).name == new[k].name;
    let all = before + new;
    assert(all[i] == earlier[i]);
    assert(all[before.len() + k] == new[k]);
    assert(all[i].name == all[before.len() + k].name);
}

/// A sequence that lists `n` different numbers below `n` lists every number
/// below `n`.
proof fn lemma_order_is_complete(order: Seq<usize>, n: usize, i: usize)
    requires
        order.len() == n,
        order.no_duplicates(),
        forall|p: int| 0 <= p < order.len() ==> #[trigger] order[p] < n,
        i < n,
    ensures
        order.contains(i),
{
    let all = Seq::new(n as nat, |k: int| k as usize);
    assert(all.no_duplicates());
    all.unique_seq_to_set();
    order.unique_seq_to_set();
    assert(order.to_set().subset_of(all.to_set())) by {
        assert forall|x: usize| order.to_set().contains(x) implies all.to_set().contains(x) by {
            assert(all[x as int] == x);
        }
    }
    vstd::seq_lib::seq_to_set_is_finite(all);
    vstd::seq_lib::seq_to_set_is_finite(order);
    vstd::set_lib::lemma_subset_equality(order.to_set(), all.to_set());
    assert(all[i as int] == i);
    assert(all.to_set().contains(i));
}

/// Different numbers that are all listed in `inside` are no more than
/// `inside` is long.
proof fn lemma_no_room(listed: Seq<usize>, inside: Seq<usize>)
    requires
        listed.no_duplicates(),
        forall|p: int| 0 <= p < listed.len() ==> inside.contains(#[trigger] listed[p]),
    ensures
        listed.len() <= inside.len(),
{
    listed.unique_seq_to_set();
    inside.lemma_cardinality_of_set();
    vstd::seq_lib::seq_to_set_is_finite(inside);
    assert(listed.to_set().subset_of(inside.to_set())) by {
        assert forall|x: usize| listed.to_set().contains(x) implies inside.to_set().contains(x) by {
            let p = choose|p: int| 0 <= p < listed.len() && listed[p] == x;
            assert(inside.contains(listed[p]));
        }
    }
    vstd::set_lib::lemma_len_subset(listed.to_set(), inside.to_set());
}

/// A unit that is ready after some units is ready after any units that
/// include them.
proof fn lemma_ready_grows(units: Seq<UnitView>, fewer: Seq<usize>, more: Seq<usize>, i: int)
    requires
        ready_after(units, fewer, i),
        forall|q: int| 0 <= q < fewer.len() ==> more.contains(#[trigger] fewer[q]),
    ensures
        ready_after(units, more, i),
{
    assert forall|j: int| 0 <= j < units[i].dependencies.len() implies named_among(
        units,
        more,
        #[trigger] units[i].dependencies[j],
    ) by {
        let name = units[i].dependencies[j];
        assert(named_among(units, fewer, name));
        let q = choose|q: int|
            0 <= q < fewer.len() && (#[trigger] fewer[q]) < units.len()
                && units[fewer[q] as int].name == name;
        assert(more.contains(fewer[q]));
        let r = choose|r: int| 0 <= r < more.len() && more[r] == fewer[q];
        assert(more[r] < units.len() && units[more[r] as int].name == name);
    }
}

/// No unit outside `placed` is ready after `placed`.
spec fn stuck(units: Seq<UnitView>, placed: Seq<usize>) -> bool {
    forall|i: usize|
        i < units.len() ==> placed.contains(i) || !#[trigger] ready_after(units, placed, i as int)
}

/// Where no unit outside `placed` is ready, every unit up to position `upto`
/// of an order that respects the dependencies is in `placed`.
proof fn lemma_stuck_prefix(units: Seq<UnitView>, placed: Seq<usize>, order: Seq<usize>, upto: int)
    requires
        topological(units, order),
        stuck(units, placed),
        0 <= upto <= order.len(),
    ensures
        forall|p: int| 0 <= p < upto ==> placed.contains(#[trigger] order[p]),
    decreases upto,
{
    if upto > 0 {
        lemma_stuck_prefix(units, placed, order, upto - 1);
        let last = order[upto - 1];
        let earlier = order.take(upto - 1);
        assert(ready_after(units, earlier, last as int));
        assert forall|q: int| 0 <= q < earlier.len() implies placed.contains(
            #[trigger] earlier[q],
        ) by {
            assert(earlier[q] == order[q]);
        }
        lemma_ready_grows(units, earlier, placed, last as int);
    }
}

/// Where fewer units are placed than there are, and none of the others is
/// ready, the dependencies form a cycle.
proof fn lemma_stuck_is_cyclic(units: Seq<UnitView>, placed: Seq<usize>)
    requires
        placed.len() < units.len(),
        stuck(units, placed),
    ensures
        !acyclic(units),
{
    if acyclic(units) {
        let order = choose|order: Seq<usize>| topological(units, order);
        lemma_stuck_prefix(units, placed, order, order.len() as int);
        lemma_no_room(order, placed);
    }
}

/// The number of the unit named `name` among `units`, if there is one.
fn find_unit(units: &Vec<UnitOfWork>, name: &String) -> (found: Option<usize>)
    ensures
        found is Some == registered(unit_views(units@), name@),
        found matches Some(k) ==> k < units@.len() && units@[k as int]@.name == name@,
{
    let mut k: usize = 0;
    while k < units.len()
        invariant
            k <= units@.len(),
            forall|i: int| 0 <= i < k ==> (#[trigger] unit_views(units@)[i]).name != name@,
        decreases units@.len() - k,
    {
        if units[k].name == *name {
            assert(unit_views(units@)[k as int].name == name@);
            return Some(k);
        }
        k += 1;
    }
    None
}

/// `resolved` holds, for every dependency of every one of the first `count`
/// units, the number of the unit that the dependency names.
spec fn resolution(units: Seq<UnitView>, resolved: Seq<Vec<usize>>, count: int) -> bool {
    &&& resolved.len() == count
    &&& forall|a: int|
        0 <= a < count ==> target_numbers(
            units,
            a,
            (#[trigger] resolved[a])@,
            units[a].dependencies.len() as int,
        )
}

/// `targets` holds, for each of the first `count` dependencies of unit number
/// `a`, the number of the unit that the dependency names.
spec fn target_numbers(units: Seq<UnitView>, a: int, targets: Seq<usize>, count: int) -> bool {
    &&& targets.len() == count
    &&& forall|b: int|
        0 <= b < count ==> (#[trigger] targets[b]) < units.len() && units[targets[b] as int].name
            == units[a].dependencies[b]
}

/// Finds, for every dependency of every unit, the number of the unit that it
/// names; fails at the first dependency that names none.
fn resolve(units: &Vec<UnitOfWork>) -> (result: Result<Vec<Vec<usize>>, ConfigError>)
    ensures
        result matches Ok(resolved) ==> {
            &&& dependencies_registered(unit_views(units@))
            &&& resolution(unit_views(units@), resolved@, units@.len() as int)
        },
        result matches Err(error) ==> exists|i: int, j: int|
            #[trigger] first_unknown_at(unit_views(units@), i, j) && error@ == (
            ConfigErrorView::UnknownDependency {
                unit: unit_views(units@)[i].name,
                dependency: unit_views(units@)[i].dependencies[j],
            }),
{
    let ghost views = unit_views(units@);
    let mut resolved: Vec<Vec<usize>> = Vec::new();
    let mut i: usize = 0;
    while i < units.len()
        invariant
            i <= units@.len(),
            views == unit_views(units@),
            resolution(views, resolved@, i as int),
            forall|a: int, b: int| 0 <= a < i ==> !unknown_at(views, a, b),
        decreases units@.len() - i,
    {
        let mut targets: Vec<usize> = Vec::new();
        let mut j: usize = 0;
        while j < units[i].dependencies.len()
            invariant
                i < units@.len(),
                views == unit_views(units@),
                j <= units@[i as int].dependencies@.len(),
                target_numbers(views, i as int, targets@, j as int),
                forall|a: int, b: int| 0 <= a < i ==> !unknown_at(views, a, b),
                forall|b: int| 0 <= b < j ==> !unknown_at(views, i as int, b),
            decreases units@[i as int].dependencies@.len() - j,
        {
            match find_unit(units, &units[i].dependencies[j]) {
                Some(k) => {
                    assert(views[k as int].name == views[i as int].dependencies[j as int]);
                    targets.push(k);
                },
                None => {
                    assert(first_unknown_at(views, i as int, j as int));
                    return Err(
                        ConfigError::UnknownDependency {
                            unit: units[i].name.clone(),
                            dependency: units[i].dependencies[j].clone(),
                        },
                    );
                },
            }
            j += 1;
        }
        resolved.push(targets);
        i += 1;
    }
    Ok(resolved)
}

/// `placed` marks the units that `order` lists.
spec fn placement(placed: Seq<bool>, order: Seq<usize>, count: int) -> bool {
    &&& placed.len() == count
    &&& forall|p: int| 0 <= p < order.len() ==> #[trigger] order[p] < count
    &&& forall|a: usize| a < count ==> #[trigger] placed[a as int] == order.contains(a)
}

/// Whether every unit numbered in `targets`, the dependencies of unit number
/// `i`, is placed.
fn is_ready(
    targets: &Vec<usize>,
    placed: &Vec<bool>,
    Ghost(units): Ghost<Seq<UnitView>>,
    Ghost(order): Ghost<Seq<usize>>,
    Ghost(i): Ghost<usize>,
) -> (ready: bool)
    requires
        distinct_names(units),
        i < units.len(),
        placement(placed@, order, units.len() as int),
        target_numbers(units, i as int, targets@, units[i as int].dependencies.len() as int),
    ensures
        ready == ready_after(units, order, i as int),
{
    let mut b: usize = 0;
    while b < targets.len()
        invariant
            b <= targets@.len(),
            distinct_names(units),
            i < units.len(),
            placement(placed@, order, units.len() as int),
            target_numbers(units, i as int, targets@, units[i as int].dependencies.len() as int),
            forall|c: int|
                0 <= c < b ==> named_among(
                    units,
                    order,
                    #[trigger] units[i as int].dependencies[c],
                ),
        decreases targets@.len() - b,
    {
        let target = targets[b];
        if !placed[target] {
            proof {
                if ready_after(units, order, i as int) {
                    let name = units[i as int].dependencies[b as int];
                    assert(named_among(units, order, name));
                    let q = choose|q: int|
                        0 <= q < order.len() && (#[trigger] order[q]) < units.len()
                            && units[order[q] as int].name == name;
                    assert(order[q] == target);
                }
            }
            return false;
        }
        proof {
            let q = choose|q: int| 0 <= q < order.len() && order[q] == target;
            assert(order[q] < units.len());
        }
        b += 1;
    }
    true
}

/// The unit registered first among those that are not placed and whose
/// dependencies are all placed; `None` where there is no such unit.
fn first_ready(
    resolved: &Vec<Vec<usize>>,
    placed: &Vec<bool>,
    Ghost(units): Ghost<Seq<UnitView>>,
    Ghost(order): Ghost<Seq<usize>>,
) -> (next: Option<usize>)
    requires
        distinct_names(units),
        resolution(units, resolved@, units.len() as int),
        placement(placed@, order, units.len() as int),
    ensures
        next matches Some(i) ==> {
            &&& i < units.len()
            &&& !order.contains(i)
            &&& ready_after(units, order, i as int)
            &&& forall|a: usize|
                a < i ==> order.contains(a) || !#[trigger] ready_after(units, order, a as int)
        },
        next is None ==> stuck(units, order),
{
    let mut candidate: usize = 0;
    while candidate < placed.len()
        invariant
            candidate <= placed@.len(),
            distinct_names(units),
            resolution(units, resolved@, units.len() as int),
            placement(placed@, order, units.len() as int),
            forall|a: usize|
                a < candidate ==> order.contains(a) || !#[trigger] ready_after(
                    units,
                    order,
                    a as int,
                ),
        decreases placed@.len() - candidate,
    {
        if !placed[candidate] {
            let ready = is_ready(
                &resolved[candidate],
                placed,
                Ghost(units),
                Ghost(order),
                Ghost(candidate),
            );
            if ready {
                return Some(candidate);
            }
        }
        candidate += 1;
    }
    None
}

/// Puts the units in order: again and again the unit registered first among
/// those whose dependencies are all placed. `None` where that comes to a halt
/// before every unit is placed.
fn arrange(resolved: &Vec<Vec<usize>>, Ghost(units): Ghost<Seq<UnitView>>) -> (result: Option<
    Vec<usize>,
>)
    requires
        distinct_names(units),
        resolution(units, resolved@, units.len() as int),
    ensures
        result matches Some(order) ==> topological(units, order@) && earliest_first(units, order@),
        result is None ==> !acyclic(units),
{
    let count = resolved.len();
    let mut placed: Vec<bool> = Vec::new();
    while placed.len() < count
        invariant
            placed@.len() <= count,
            forall|a: int| 0 <= a < placed@.len() ==> !#[trigger] placed@[a],
        decreases count - placed@.len(),
    {
        placed.push(false);
    }
    let mut order: Vec<usize> = Vec::new();
    while order.len() < count
        invariant
            count == units.len(),
            distinct_names(units),
            resolution(units, resolved@, count as int),
            placement(placed@, order@, count as int),
            order@.len() <= count,
            order@.no_duplicates(),
            forall|p: int|
                0 <= p < order@.len() ==> ready_after(
                    units,
                    order@.take(p),
                    #[trigger] order@[p] as int,
                ),
            earliest_first(units, order@),
        decreases count - order@.len(),
    {
        let next = match first_ready(resolved, &placed, Ghost(units), Ghost(order@)) {
            Some(next) => next,
            None => {
                proof {
                    lemma_stuck_is_cyclic(units, order@);
                }
                return None;
            },
        };
        let ghost before = order@;
        placed[next] = true;
        order.push(next);
        proof {
            assert forall|p: int| 0 <= p <= before.len() implies #[trigger] order@.take(p)
                == before.take(p) by {
                assert(order@.take(p) =~= before.take(p));
            }
            assert(before.take(before.len() as int) =~= before);
            assert forall|a: usize| a < count implies #[trigger] placed@[a as int]
                == order@.contains(a) by {
                if a == next {
                    assert(order@[before.len() as int] == next);
                } else if before.contains(a) {
                    let p = choose|p: int| 0 <= p < before.len() && before[p] == a;
                    assert(order@[p] == a);
                }
            }
            assert forall|p: int| 0 <= p < order@.len() implies ready_after(
                units,
                order@.take(p),
                #[trigger] order@[p] as int,
            ) by {
                if p < before.len() {
                    assert(order@[p] == before[p]);
                }
            }
            assert forall|p: int, a: usize|
                0 <= p < order@.len() && a < order@[p] && !order@.take(p).contains(
                    a,
                ) implies !#[trigger] ready_after(units, order@.take(p), a as int) by {
                if p < before.len() {
                    assert(order@[p] == before[p]);
                }
            }
        }
    }
    Some(order)
}

} // verus!
