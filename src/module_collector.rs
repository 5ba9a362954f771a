//! Registration of units, their configuration order, and the configuration run.
use vstd::prelude::*;
use vstd::string::StringExecFns;
use crate::configurator::{ConfigError, Configurator};
use crate::module_binder::ModuleBinder;
use crate::resolver::{declares, graph_wf, is_config_order, is_stuck_set, lists_each_once, must_precede, resolve, waits_within};
use crate::server_health::ServerHealth;

verus! {

/// Why configuration stopped before any worker ran.
#[derive(Debug, PartialEq, Eq)]
pub enum StartError {
    /// `unit` declared that it needs `needs`, which nobody registered.
    UnknownDependency { unit: String, needs: String },
    /// The declared needs form a cycle: the units that could not be ordered, each
    /// with the units among them that it waits on.
    Cycle(Vec<Blocked>),
    /// The value of this unit was gone when its turn came.
    MissingValue(String),
    /// The configurator of `unit` failed.
    Config { unit: String, error: ConfigError },
}

/// A unit left unordered, and the units that must be configured before it.
#[derive(Debug, PartialEq, Eq)]
pub struct Blocked {
    pub unit: String,
    pub blocked_by: Vec<String>,
}

/// The units that `entries` names.
pub open spec fn units_of(entries: Seq<Blocked>) -> Seq<Seq<char>> {
    entries.map_values(|b: Blocked| b.unit@)
}

/// The names in `names` as character sequences.
pub open spec fn names_view(names: Seq<String>) -> Seq<Seq<char>> {
    names.map_values(|s: String| s@)
}

/// The unit registered as `keys[w]` is one of `units` and declared that it needs `x`.
pub open spec fn blocks_within(keys: Seq<Seq<char>>, d: Seq<Seq<Seq<char>>>, units: Seq<Seq<char>>, w: int, x: Seq<char>) -> bool {
    0 <= w < keys.len() && w < d.len() && units.contains(keys[w]) && d[w].contains(x)
}

/// `name` is the key of one of the first `upto` units of `stuck` that must precede `v`.
pub open spec fn named_blocker(deps: Seq<Vec<usize>>, stuck: Seq<usize>, keys: Seq<Seq<char>>, v: usize, upto: int, name: Seq<char>) -> bool {
    exists|jj: int| 0 <= jj < upto && jj < stuck.len() && #[trigger] must_precede(deps, stuck[jj] as int, v as int) && name == keys[stuck[jj] as int]
}

/// `name` is the key of a unit of `units` that declared that it needs `x`.
pub open spec fn is_blocker(keys: Seq<Seq<char>>, d: Seq<Seq<Seq<char>>>, units: Seq<Seq<char>>, x: Seq<char>, name: Seq<char>) -> bool {
    exists|w: int| #[trigger] blocks_within(keys, d, units, w, x) && keys[w] == name
}

/// `entry` lists exactly the units of `units` that wait for it, and at least one.
pub open spec fn lists_blockers(keys: Seq<Seq<char>>, d: Seq<Seq<Seq<char>>>, units: Seq<Seq<char>>, entry: Blocked) -> bool {
    &&& keys.contains(entry.unit@)
    &&& entry.blocked_by@.len() > 0
    &&& forall|b: int|
        0 <= b < entry.blocked_by@.len() ==> is_blocker(keys, d, units, entry.unit@, #[trigger] entry.blocked_by@[b]@)
    &&& forall|w: int|
        #[trigger] blocks_within(keys, d, units, w, entry.unit@) ==> names_view(entry.blocked_by@).contains(keys[w])
}

/// A cycle report: a non-empty set of units, each with all the units of the set it waits on.
pub open spec fn reports_cycle(keys: Seq<Seq<char>>, d: Seq<Seq<Seq<char>>>, entries: Seq<Blocked>) -> bool {
    &&& entries.len() > 0
    &&& forall|i: int| 0 <= i < entries.len() ==> lists_blockers(keys, d, units_of(entries), #[trigger] entries[i])
}

/// The units registered so far: a key, a module value and a configurator each.
pub struct ModuleCollector<M, C> {
    modules: ModuleBinder<M>,
    configurators: Vec<C>,
    needs: Vec<Vec<&'static str>>,
}

/// The registrations after `(key, value, conf)` is offered: unchanged when `key` is
/// already there, else with the new unit at the end.
pub open spec fn registered<M, C>(
    keys: Seq<Seq<char>>,
    values: Seq<M>,
    confs: Seq<C>,
    key: Seq<char>,
    value: M,
    conf: C,
) -> (Seq<Seq<char>>, Seq<M>, Seq<C>) {
    if keys.contains(key) {
        (keys, values, confs)
    } else {
        (keys.push(key), values.push(value), confs.push(conf))
    }
}

/// Registering a key a second time is a no-op: the first value and configurator stay.
pub proof fn lemma_first_registration_wins<M, C>(
    keys: Seq<Seq<char>>,
    values: Seq<M>,
    confs: Seq<C>,
    key: Seq<char>,
    first: M,
    first_conf: C,
    second: M,
    second_conf: C,
)
    ensures
        ({
            let once = registered(keys, values, confs, key, first, first_conf);
            &&& registered(once.0, once.1, once.2, key, second, second_conf) == once
            &&& once.0.contains(key)
            &&& !keys.contains(key) ==> once.1.last() == first && once.2.last() == first_conf
                && once.0.last() == key
        }),
{
    let once = registered(keys, values, confs, key, first, first_conf);
    if !keys.contains(key) {
        assert(once.0[keys.len() as int] == key);
    }
}


/// The declared needs as character sequences: `d[u][j]` is the `j`-th key unit `u` names.
pub open spec fn declared_view(declared: Seq<Vec<&'static str>>) -> Seq<Seq<Seq<char>>> {
    declared.map_values(|d: Vec<&'static str>| d@.map_values(|s: &'static str| s@))
}

/// Unit `u` names unit `v` among the units it needs, so `u` is configured first.
pub open spec fn needs(keys: Seq<Seq<char>>, d: Seq<Seq<Seq<char>>>, u: int, v: int) -> bool {
    0 <= u < d.len() && 0 <= v < keys.len() && d[u].contains(keys[v])
}

/// Every name in `d` is one of `keys`.
pub open spec fn names_known(keys: Seq<Seq<char>>, d: Seq<Seq<Seq<char>>>) -> bool {
    forall|u: int, j: int| 0 <= u < d.len() && 0 <= j < d[u].len() ==> keys.contains(#[trigger] d[u][j])
}

/// `order` lists every unit once and puts each before the units it needs.
pub open spec fn is_order_for(keys: Seq<Seq<char>>, d: Seq<Seq<Seq<char>>>, order: Seq<usize>) -> bool {
    &&& lists_each_once(order, keys.len())
    &&& forall|i: int, j: int|
        0 <= i < order.len() && 0 <= j < order.len() && #[trigger] needs(
            keys,
            d,
            order[i] as int,
            order[j] as int,
        ) ==> i < j
}

/// `deps[u]` holds the positions of the keys that `d[u]` names, in the same order.
pub open spec fn indexes_names(keys: Seq<Seq<char>>, d: Seq<Seq<Seq<char>>>, deps: Seq<Vec<usize>>) -> bool {
    &&& deps.len() == d.len()
    &&& forall|u: int|
        0 <= u < d.len() ==> (#[trigger] deps[u])@.len() == d[u].len() && forall|j: int|
            0 <= j < d[u].len() ==> #[trigger] deps[u]@[j] < keys.len() && keys[deps[u]@[j] as int]
                == d[u][j]
}

/// Some unit named in `names` declared that it needs `x`.
pub open spec fn needed_within(keys: Seq<Seq<char>>, d: Seq<Seq<Seq<char>>>, names: Seq<Seq<char>>, x: Seq<char>) -> bool {
    exists|u: int| 0 <= u < keys.len() && u < d.len() && names.contains(keys[u]) && #[trigger] d[u].contains(x)
}

/// A configuration order exists for these needs.
pub open spec fn orderable(keys: Seq<Seq<char>>, d: Seq<Seq<Seq<char>>>) -> bool {
    exists|o: Seq<usize>| is_order_for(keys, d, o)
}

/// With distinct keys, an edge of the index graph is exactly a declared need.
proof fn lemma_edges_are_needs(keys: Seq<Seq<char>>, d: Seq<Seq<Seq<char>>>, deps: Seq<Vec<usize>>)
    requires
        keys.no_duplicates(),
        keys.len() <= usize::MAX,
        indexes_names(keys, d, deps),
    ensures
        forall|u: int, v: int| 0 <= v < keys.len() ==> (#[trigger] must_precede(deps, u, v) <==> needs(keys, d, u, v)),
{
    assert forall|u: int, v: int| 0 <= v < keys.len() implies (#[trigger] must_precede(deps, u, v) <==> needs(keys, d, u, v)) by {
        if must_precede(deps, u, v) {
            let j = choose|j: int| 0 <= j < deps[u]@.len() && deps[u]@[j] == v as usize;
            assert(deps[u]@[j] as int == v);
            assert(d[u][j] == keys[v]);
        }
        if needs(keys, d, u, v) {
            let j = choose|j: int| 0 <= j < d[u].len() && d[u][j] == keys[v];
            let w = deps[u]@[j];
            assert(keys[w as int] == keys[v]);
            assert(deps[u]@[j] == v as usize);
        }
    }
}

impl<M, C> ModuleCollector<M, C> {
    /// The keys, in order of registration.
    pub closed spec fn keys(&self) -> Seq<Seq<char>> {
        self.modules.keys()
    }

    /// The module values, in order of registration.
    pub closed spec fn values(&self) -> Seq<M> {
        self.modules.slots().map_values(|o: Option<M>| o->Some_0)
    }

    /// The configurators, in order of registration.
    pub closed spec fn configurators(&self) -> Seq<C> {
        self.configurators@
    }

    /// What each unit declared that it needs when it was registered.
    pub closed spec fn declared(&self) -> Seq<Seq<Seq<char>>> {
        declared_view(self.needs@)
    }

    /// Each key has its value, its configurator and its needs, and no key is there twice.
    pub closed spec fn wf(&self) -> bool {
        &&& self.modules.wf()
        &&& self.needs@.len() == self.modules.keys().len()
        &&& self.configurators@.len() == self.modules.keys().len()
        &&& forall|i: int| 0 <= i < self.modules.slots().len() ==> #[trigger] self.modules.slots()[i] is Some
    }

    /// No units yet.
    pub fn new() -> (r: Self)
        ensures
            r.wf(),
            r.keys().len() == 0,
            r.values().len() == 0,
            r.configurators().len() == 0,
            r.declared().len() == 0,
    {
        ModuleCollector { modules: ModuleBinder::new(), configurators: Vec::new(), needs: Vec::new() }
    }

    /// The number of units registered.
    pub fn len(&self) -> (n: usize)
        requires
            self.wf(),
        ensures
            n == self.keys().len(),
    {
        self.modules.len()
    }

    /// Registers a unit under `key`, with the needs its configurator declares. A key
    /// that is already registered keeps its first value and configurator, and this
    /// call changes nothing.
    pub fn register<F>(&mut self, key: &str, value: M, configurator: C)
        where
            C: Configurator<M, F>,
        requires
            old(self).wf(),
        ensures
            final(self).wf(),
            old(self).keys().contains(key@) ==> final(self).declared() == old(self).declared(),
            !old(self).keys().contains(key@) ==> final(self).declared().len() == old(self).declared().len() + 1
                && final(self).declared().subrange(0, old(self).declared().len() as int) == old(self).declared(),
            (final(self).keys(), final(self).values(), final(self).configurators()) == registered(
                old(self).keys(),
                old(self).values(),
                old(self).configurators(),
                key@,
                value,
                configurator,
            ),
    {
        let ghost old_values = self.values();
        let ghost old_declared = self.declared();
        let needs = configurator.depends_on();
        if self.modules.insert(key, value) {
            self.configurators.push(configurator);
            self.needs.push(needs);
            assert(self.values() =~= old_values.push(value));
            assert(self.declared().subrange(0, old_declared.len() as int) =~= old_declared);
        } else {
            assert(self.values() =~= old_values);
        }
    }

    /// The units, as positions in order of registration, in an order in which each
    /// unit comes before every unit whose value it declared it needs.
    pub fn config_order(&self) -> (r: Result<Vec<usize>, StartError>)
        requires
            self.wf(),
        ensures
            r is Ok || r matches Err(StartError::UnknownDependency { .. }) || r matches Err(StartError::Cycle(_)),
            (r matches Err(StartError::UnknownDependency { .. })) <==> (!names_known(self.keys(), self.declared())),
            (r matches Err(StartError::Cycle(_))) <==> (names_known(self.keys(), self.declared()) && !orderable(self.keys(), self.declared())),
            r is Ok ==> is_order_for(self.keys(), self.declared(), r->Ok_0@),
            r matches Err(StartError::UnknownDependency { unit, needs }) ==> exists|u: int, j: int|
                    0 <= u < self.keys().len() && 0 <= j < self.declared()[u].len() && self.keys()[u] == unit@
                        && #[trigger] self.declared()[u][j] == needs@ && !self.keys().contains(needs@),
            r matches Err(StartError::Cycle(entries)) ==> reports_cycle(self.keys(), self.declared(), entries@),
    {
        self.order_for(&self.needs)
    }

    /// The configuration order when unit `u` declared the names in `declared[u]`:
    /// an unknown name is reported, else an order exists or the needs form a cycle.
    pub fn order_for(&self, declared: &Vec<Vec<&'static str>>) -> (r: Result<Vec<usize>, StartError>)
        requires
            self.wf(),
            declared@.len() == self.keys().len(),
        ensures
            r is Ok || r matches Err(StartError::UnknownDependency { .. }) || r matches Err(StartError::Cycle(_)),
            r matches Err(StartError::UnknownDependency { .. }) <==> !names_known(self.keys(), declared_view(declared@)),
            r matches Err(StartError::UnknownDependency { unit, needs }) ==> exists|u: int, j: int|
                0 <= u < self.keys().len() && 0 <= j < declared_view(declared@)[u].len()
                    && self.keys()[u] == unit@ && #[trigger] declared_view(declared@)[u][j] == needs@
                    && !self.keys().contains(needs@),
            r is Ok ==> is_order_for(self.keys(), declared_view(declared@), r->Ok_0@),
            r matches Err(StartError::Cycle(_)) ==> forall|o: Seq<usize>| !#[trigger] is_order_for(self.keys(), declared_view(declared@), o),
            r matches Err(StartError::Cycle(entries)) ==> reports_cycle(self.keys(), declared_view(declared@), entries@),
    {
        let ghost keys = self.keys();
        let ghost d = declared_view(declared@);
        let n = self.modules.len();
        let mut deps: Vec<Vec<usize>> = Vec::new();
        let mut u: usize = 0;
        while u < n
            invariant
                self.wf(),
                keys == self.keys(),
                d == declared_view(declared@),
                n == keys.len(),
                declared@.len() == n,
                u <= n,
                indexes_names(keys, d.subrange(0, u as int), deps@),
                forall|a: int, j: int| 0 <= a < u && 0 <= j < d[a].len() ==> keys.contains(#[trigger] d[a][j]),
            decreases n - u,
        {
            match self.needs_of(&declared[u]) {
                Ok(ix) => {
                    let ghost before = deps@;
                    deps.push(ix);
                    proof {
                        assert(d[u as int] =~= declared@[u as int]@.map_values(|s: &'static str| s@));
                        assert forall|a: int| 0 <= a < u + 1 implies (#[trigger] deps@[a])@.len() == d.subrange(0, u + 1)[a].len()
                            && forall|j: int| 0 <= j < d.subrange(0, u + 1)[a].len() ==> #[trigger] deps@[a]@[j] < keys.len()
                                && keys[deps@[a]@[j] as int] == d.subrange(0, u + 1)[a][j] by {
                            if a < u {
                                assert(deps@[a] == before[a]);
                                assert(d.subrange(0, u + 1)[a] == d.subrange(0, u as int)[a]);
                            }
                        }
                        assert forall|a: int, j: int| 0 <= a < u + 1 && 0 <= j < d[a].len() implies keys.contains(#[trigger] d[a][j]) by {
                            if a == u {
                                assert(keys[ix@[j] as int] == d[a][j]);
                            }
                        }
                    }
                },
                Err(needs) => {
                    let unit = self.modules.key_at(u);
                    proof {
                        assert(d[u as int] =~= declared@[u as int]@.map_values(|s: &'static str| s@));
                        let j = choose|j: int|
                            0 <= j < declared@[u as int]@.len() && #[trigger] declared@[u as int]@[j]@ == needs@
                                && !self.keys().contains(needs@);
                        assert(d[u as int][j] == needs@);
                        assert(self.keys().contains(unit@)) by {
                            assert(self.keys()[u as int] == unit@);
                        }
                    }
                    return Err(StartError::UnknownDependency { unit, needs });
                },
            }
            u = u + 1;
        }
        proof {
            assert(d.subrange(0, n as int) =~= d);
            lemma_edges_are_needs(keys, d, deps@);
            assert forall|a: int, j: int| 0 <= a < deps@.len() && 0 <= j < deps@[a]@.len() implies #[trigger] deps@[a]@[j] < deps@.len() by {
                assert(deps@[a]@[j] < keys.len());
            }
            assert forall|o: Seq<usize>| #[trigger] is_order_for(keys, d, o) <==> is_config_order(deps@, o) by {
                if is_order_for(keys, d, o) {
                    assert forall|i: int, j: int|
                        0 <= i < o.len() && 0 <= j < o.len() && #[trigger] must_precede(deps@, o[i] as int, o[j] as int) implies i < j by {
                        assert(needs(keys, d, o[i] as int, o[j] as int));
                    }
                }
                if is_config_order(deps@, o) {
                    assert forall|i: int, j: int|
                        0 <= i < o.len() && 0 <= j < o.len() && #[trigger] needs(keys, d, o[i] as int, o[j] as int) implies i < j by {
                        assert(must_precede(deps@, o[i] as int, o[j] as int));
                    }
                }
            }
        }
        match resolve(&deps) {
            Ok(order) => Ok(order),
            Err(stuck) => {
                let mut names: Vec<String> = Vec::new();
                let mut k: usize = 0;
                while k < stuck.len()
                    invariant
                        self.wf(),
                        keys == self.keys(),
                        n == keys.len(),
                        forall|a: int| 0 <= a < stuck@.len() ==> #[trigger] stuck@[a] < n,
                        k <= stuck.len(),
                        names@.len() == k,
                        forall|i: int| 0 <= i < k ==> #[trigger] names@[i]@ == keys[stuck@[i] as int],
                    decreases stuck.len() - k,
                {
                    names.push(self.modules.key_at(stuck[k]));
                    k = k + 1;
                }
                let ghost units = names_view(names@);
                let mut entries: Vec<Blocked> = Vec::new();
                let mut k: usize = 0;
                while k < stuck.len()
                    invariant
                        keys == self.keys(),
                        keys.no_duplicates(),
                        n == keys.len(),
                        d == declared_view(declared@),
                        graph_wf(deps@),
                        deps@.len() == n,
                        is_stuck_set(deps@, stuck@),
                        forall|u: int, v: int| 0 <= v < keys.len() ==> (#[trigger] must_precede(deps@, u, v) <==> needs(keys, d, u, v)),
                        names@.len() == stuck@.len(),
                        units == names_view(names@),
                        forall|i: int| 0 <= i < names@.len() ==> #[trigger] names@[i]@ == keys[stuck@[i] as int],
                        k <= stuck.len(),
                        entries@.len() == k,
                        forall|i: int| 0 <= i < k ==> #[trigger] entries@[i].unit@ == names@[i]@
                            && lists_blockers(keys, d, units, entries@[i]),
                    decreases stuck.len() - k,
                {
                    let v = stuck[k];
                    let mut blocked_by: Vec<String> = Vec::new();
                    let mut j: usize = 0;
                    while j < stuck.len()
                        invariant
                            n == deps@.len(),
                            forall|a: int| 0 <= a < stuck@.len() ==> #[trigger] stuck@[a] < n,
                            names@.len() == stuck@.len(),
                            forall|i: int| 0 <= i < names@.len() ==> #[trigger] names@[i]@ == keys[stuck@[i] as int],
                            j <= stuck.len(),
                            forall|b: int| 0 <= b < blocked_by@.len() ==> named_blocker(
                                deps@,
                                stuck@,
                                keys,
                                v,
                                j as int,
                                #[trigger] blocked_by@[b]@,
                            ),
                            forall|jj: int| 0 <= jj < j && #[trigger] must_precede(deps@, stuck@[jj] as int, v as int)
                                ==> names_view(blocked_by@).contains(keys[stuck@[jj] as int]),
                        decreases stuck.len() - j,
                    {
                        if declares(&deps, stuck[j], v) {
                            let ghost prev = blocked_by@;
                            blocked_by.push(names[j].clone());
                            proof {
                                assert(names_view(blocked_by@)[prev.len() as int] == keys[stuck@[j as int] as int]);
                                assert forall|jj: int| 0 <= jj < j + 1 && #[trigger] must_precede(deps@, stuck@[jj] as int, v as int)
                                    implies names_view(blocked_by@).contains(keys[stuck@[jj] as int]) by {
                                    if jj < j {
                                        let q = choose|q: int| 0 <= q < names_view(prev).len() && names_view(prev)[q] == keys[stuck@[jj] as int];
                                        assert(names_view(blocked_by@)[q] == names_view(prev)[q]);
                                    }
                                }
                                assert forall|b: int| 0 <= b < blocked_by@.len() implies named_blocker(
                                    deps@,
                                    stuck@,
                                    keys,
                                    v,
                                    j + 1,
                                    #[trigger] blocked_by@[b]@,
                                ) by {
                                    if b < prev.len() {
                                        assert(blocked_by@[b] == prev[b]);
                                        assert(named_blocker(deps@, stuck@, keys, v, j as int, prev[b]@));
                                    } else {
                                        assert(must_precede(deps@, stuck@[j as int] as int, v as int));
                                    }
                                }
                            }
                        }
                        j = j + 1;
                    }
                    let entry = Blocked { unit: names[k].clone(), blocked_by };
                    proof {
                        let bl = entry.blocked_by@;
                        let unit = entry.unit@;
                        assert(unit == keys[v as int]);
                        assert(keys.contains(unit));
                        // the stuck set gives the unit a blocker, so the list is not empty
                        assert(waits_within(deps@, stuck@, stuck@[k as int]));
                        let j0 = choose|j0: int| 0 <= j0 < stuck@.len() && #[trigger] must_precede(deps@, stuck@[j0] as int, stuck@[k as int] as int);
                        assert(names_view(bl).contains(keys[stuck@[j0] as int]));
                        assert(bl.len() > 0);
                        assert forall|b: int| 0 <= b < bl.len() implies is_blocker(keys, d, units, unit, #[trigger] bl[b]@) by {
                            assert(named_blocker(deps@, stuck@, keys, v, stuck@.len() as int, bl[b]@));
                            let jj = choose|jj: int| 0 <= jj < stuck@.len() && #[trigger] must_precede(deps@, stuck@[jj] as int, v as int)
                                && bl[b]@ == keys[stuck@[jj] as int];
                            let w = stuck@[jj] as int;
                            assert(needs(keys, d, w, v as int));
                            assert(units[jj] == keys[w]);
                            assert(blocks_within(keys, d, units, w, unit));
                        }
                        assert forall|w: int| #[trigger] blocks_within(keys, d, units, w, unit)
                            implies names_view(bl).contains(keys[w]) by {
                            let jj = choose|jj: int| 0 <= jj < units.len() && units[jj] == keys[w];
                            assert(names@[jj]@ == keys[stuck@[jj] as int]);
                            assert(stuck@[jj] as int == w);
                            assert(needs(keys, d, w, v as int));
                            assert(must_precede(deps@, stuck@[jj] as int, v as int));
                        }
                    }
                    entries.push(entry);
                    proof {
                        assert forall|i: int| 0 <= i < k + 1 implies #[trigger] entries@[i].unit@ == names@[i]@
                            && lists_blockers(keys, d, units, entries@[i]) by {
                            if i < k {
                                assert(entries@[i] == entries@.drop_last()[i]);
                            }
                        }
                    }
                    k = k + 1;
                }
                proof {
                    assert(units_of(entries@) =~= units);
                }
                Err(StartError::Cycle(entries))
            },
        }
    }

    /// Configures every unit in configuration order: each unit's configurator gets
    /// the unit's own value, the values of the units not configured yet, and the
    /// callbacks registered so far. The first failure stops the run and no worker
    /// starts; on success the registered callbacks come back.
    pub fn start<F>(self) -> (r: Result<ServerHealth<F>, StartError>)
        where
            C: Configurator<M, F>,
        requires
            self.wf(),
        ensures
            (r matches Err(StartError::UnknownDependency { .. })) <==> (!names_known(self.keys(), self.declared())),
            (r matches Err(StartError::Cycle(_))) <==> (names_known(self.keys(), self.declared()) && !orderable(self.keys(), self.declared())),
            !(r matches Err(StartError::UnknownDependency { .. })) && !(r matches Err(StartError::Cycle(_)))
                    ==> names_known(self.keys(), self.declared()) && orderable(self.keys(), self.declared()),
            r matches Err(StartError::UnknownDependency { unit, needs }) ==> exists|u: int, j: int|
                    0 <= u < self.keys().len() && 0 <= j < self.declared()[u].len() && self.keys()[u] == unit@
                        && #[trigger] self.declared()[u][j] == needs@ && !self.keys().contains(needs@),
            r matches Err(StartError::Cycle(entries)) ==> reports_cycle(self.keys(), self.declared(), entries@),
            r matches Err(StartError::MissingValue(unit)) ==> self.keys().contains(unit@),
            r matches Err(StartError::Config { unit, error }) ==> self.keys().contains(unit@),
    {
        let order = match self.config_order() {
            Ok(order) => order,
            Err(e) => return Err(e),
        };
        self.configure_in(&order)
    }

    /// Runs the configurators one at a time in `order`, an order valid for the needs
    /// they declare: each gets its unit's own value, the values of the units not
    /// configured yet, and the callbacks registered so far. The first failure stops
    /// the run; on success the registered callbacks come back.
    pub fn configure_in<F>(self, order: &Vec<usize>) -> (r: Result<ServerHealth<F>, StartError>)
        where
            C: Configurator<M, F>,
        requires
            self.wf(),
            is_order_for(self.keys(), self.declared(), order@),
        ensures
            r is Ok || r matches Err(StartError::MissingValue(_)) || r matches Err(StartError::Config { .. }),
            r matches Err(StartError::MissingValue(unit)) ==> self.keys().contains(unit@),
            r matches Err(StartError::Config { unit, error }) ==> self.keys().contains(unit@),
    {
        let ghost keys = self.keys();
        let n = self.modules.len();
        let mut names: Vec<String> = Vec::new();
        let mut i: usize = 0;
        while i < n
            invariant
                self.wf(),
                keys == self.keys(),
                n == keys.len(),
                i <= n,
                names@.len() == i,
                forall|a: int| 0 <= a < i ==> #[trigger] names@[a]@ == keys[a],
            decreases n - i,
        {
            names.push(self.modules.key_at(i));
            i = i + 1;
        }
        let ModuleCollector { mut modules, mut configurators, .. } = self;
        let mut server: ServerHealth<F> = ServerHealth::new();
        let mut k: usize = 0;
        while k < order.len()
            invariant
                keys == self.keys(),
                n == keys.len(),
                names@.len() == n,
                forall|a: int| 0 <= a < n ==> #[trigger] names@[a]@ == keys[a],
                configurators@.len() == n,
                forall|a: int| 0 <= a < order@.len() ==> #[trigger] order@[a] < n,
                k <= order.len(),
            decreases order.len() - k,
        {
            let u = order[k];
            let unit = names[u].clone();
            assert(keys.contains(unit@)) by {
                assert(keys[u as int] == unit@);
            }
            // a configurator holds the store mutably, so its shape is checked again here
            let module = match modules.take(u) {
                Some(m) => m,
                None => return Err(StartError::MissingValue(unit)),
            };
            match configurators[u].configure(module, &mut modules, &mut server) {
                Ok(()) => {},
                Err(error) => return Err(StartError::Config { unit, error }),
            }
            k = k + 1;
        }
        Ok(server)
    }

    /// The positions of the units named in `declared`, or the first name that no
    /// unit is registered under.
    pub fn needs_of(&self, declared: &Vec<&'static str>) -> (r: Result<Vec<usize>, String>)
        requires
            self.wf(),
        ensures
            match r {
                Ok(ix) => ix@.len() == declared@.len() && forall|j: int|
                    0 <= j < ix@.len() ==> #[trigger] ix@[j] < self.keys().len() && self.keys()[ix@[j] as int]
                        == declared@[j]@,
                Err(name) => exists|j: int|
                    0 <= j < declared@.len() && #[trigger] declared@[j]@ == name@ && !self.keys().contains(name@),
            },
    {
        let mut ix: Vec<usize> = Vec::new();
        let mut j: usize = 0;
        while j < declared.len()
            invariant
                self.wf(),
                j <= declared.len(),
                ix@.len() == j,
                forall|a: int|
                    0 <= a < j ==> #[trigger] ix@[a] < self.keys().len() && self.keys()[ix@[a] as int]
                        == declared@[a]@,
            decreases declared.len() - j,
        {
            match self.modules.position(declared[j]) {
                Some(i) => ix.push(i),
                None => {
                    let name = String::from_str(declared[j]);
                    assert(declared@[j as int]@ == name@);
                    return Err(name);
                },
            }
            j = j + 1;
        }
        Ok(ix)
    }
}

} // verus!
