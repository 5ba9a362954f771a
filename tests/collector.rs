use microservice_rs::{
    resolve, BindError, Blocked, ConfigError, Configurator, Context, Exit, ModuleBinder, ModuleCollector,
    Phase, RunError, ServerHealth, StartError, Step, Supervisor,
};

const MOD1: &str = "mod1";
const MOD2: &str = "mod2";

type Callback = Box<dyn FnOnce(&mut Context) -> Result<(), String>>;

struct Mod1 {
    routes: Vec<&'static str>,
}
struct Mod2 {}

enum Module {
    One(Mod1),
    Two(Mod2),
}

struct Mod1Config {}
struct Mod2Config {
    needs: Vec<&'static str>,
}

enum Conf {
    One(Mod1Config),
    Two(Mod2Config),
}

impl Configurator<Module, Callback> for Conf {
    fn depends_on(&self) -> Vec<&'static str> {
        match self {
            Conf::One(_) => vec![],
            Conf::Two(c) => c.needs.clone(),
        }
    }

    fn configure(
        &mut self,
        module: Module,
        binder: &mut ModuleBinder<Module>,
        server: &mut ServerHealth<Callback>,
    ) -> Result<(), ConfigError> {
        match (self, module) {
            (Conf::One(_), Module::One(m)) => {
                if m.routes.is_empty() {
                    return Err(ConfigError::Failed("no route".to_string()));
                }
                server.register_on_healthy(Box::new(|_ctx: &mut Context| Ok(())));
                Ok(())
            }
            (Conf::Two(c), Module::Two(_)) => {
                for key in c.needs.clone() {
                    match binder.get(key).map_err(ConfigError::Lookup)? {
                        Module::One(m) => m.routes.push("/hello"),
                        Module::Two(_) => return Err(ConfigError::Failed("wrong type".to_string())),
                    }
                }
                Ok(())
            }
            _ => Err(ConfigError::Failed("wrong type".to_string())),
        }
    }
}

/// Runs the callbacks one after another in place of worker threads, driving the
/// supervisor the way a threaded runner does.
fn exit_of(r: Result<(), String>) -> Exit {
    match r {
        Ok(()) => Exit::Finished,
        Err(e) => Exit::Failed(e),
    }
}

fn run_in_place(server: ServerHealth<Callback>, ctx: &mut Context) -> Result<(), RunError> {
    let mut sup = Supervisor::new(server.healthy_len());
    let (healthy, shutdown) = server.into_callbacks();
    sup.launched();
    let mut reaped = vec![];
    for cb in healthy {
        reaped.push(exit_of(cb(ctx)));
    }
    let mut step = sup.poll(ctx, &reaped);
    while step == Step::Wait {
        ctx.cancel();
        step = sup.poll(ctx, &vec![]);
    }
    assert_eq!(sup.current_phase(), Phase::Draining);
    let mut shutdown_ctx = sup.drained(&vec![]);
    let mut ends = vec![];
    for cb in shutdown {
        ends.push(exit_of(cb(&mut shutdown_ctx)));
    }
    sup.finish(&ends)
}

fn collector_with_dependency() -> ModuleCollector<Module, Conf> {
    let mut collector = ModuleCollector::new();
    collector.register(MOD1, Module::One(Mod1 { routes: vec![] }), Conf::One(Mod1Config {}));
    collector.register(MOD2, Module::Two(Mod2 {}), Conf::Two(Mod2Config { needs: vec![MOD1] }));
    collector
}

#[test]
fn register_modules() {
    let mut collector: ModuleCollector<Module, Conf> = ModuleCollector::new();
    collector.register(MOD1, Module::One(Mod1 { routes: vec!["/"] }), Conf::One(Mod1Config {}));
    collector.register(MOD2, Module::Two(Mod2 {}), Conf::Two(Mod2Config { needs: vec![MOD1] }));

    assert_eq!(collector.len(), 2);

    let mut ctx = Context::new();
    ctx.cancel();

    let server = collector.start().unwrap();
    run_in_place(server, &mut ctx).unwrap();
}

#[test]
fn resolve_orders_every_unit_after_its_predecessors() {
    // 0 before 2, 1 before 0, 3 before 2
    let deps = vec![vec![2], vec![0], vec![], vec![2]];
    let order = resolve(&deps).unwrap();
    assert_eq!(order.len(), 4);
    let pos = |u: usize| order.iter().position(|&x| x == u).unwrap();
    for u in 0..4 {
        for &v in &deps[u] {
            assert!(pos(u) < pos(v));
        }
    }
    // passes take all units unblocked at once, in index order
    assert_eq!(order, vec![1, 3, 0, 2]);
}

#[test]
fn resolve_empty_graph() {
    assert_eq!(resolve(&vec![]).unwrap(), Vec::<usize>::new());
}

#[test]
fn resolve_reports_cycle_remainder() {
    // 0 -> 1 -> 2 -> 1, and 3 stands free
    let deps = vec![vec![1], vec![2], vec![1], vec![]];
    assert_eq!(resolve(&deps), Err(vec![1, 2]));
}

#[test]
fn resolve_self_edge_is_a_cycle() {
    assert_eq!(resolve(&vec![vec![0]]), Err(vec![0]));
}

#[test]
fn register_same_key_twice_keeps_first() {
    let mut collector: ModuleCollector<Module, Conf> = ModuleCollector::new();
    collector.register(MOD1, Module::One(Mod1 { routes: vec!["/first"] }), Conf::One(Mod1Config {}));
    collector.register(MOD1, Module::Two(Mod2 {}), Conf::Two(Mod2Config { needs: vec![MOD2] }));
    assert_eq!(collector.len(), 1);
    // the second configurator would have needed an unknown unit
    assert_eq!(collector.config_order().unwrap(), vec![0]);
    let server = collector.start().unwrap();
    // the first configurator ran on the first value, which had a route
    assert_eq!(server.healthy_len(), 1);
}

#[test]
fn context_done_only_after_cancel() {
    let mut ctx = Context::new();
    assert!(!ctx.is_done());
    let child = ctx.with_cancel();
    assert_eq!(child, 0);
    assert!(!ctx.is_done());
    assert!(!ctx.child(0).is_done());
    ctx.cancel();
    assert!(ctx.is_done());
    assert!(ctx.child(0).is_done());
    let _ = ctx.with_cancel();
    assert!(ctx.is_done());
    ctx.cancel();
    assert!(ctx.is_done());
}

#[test]
fn worker_failure_cancels_and_drains() {
    let mut ctx = Context::new();
    let _ = ctx.with_cancel();
    let mut sup = Supervisor::new(3);
    sup.launched();
    assert_eq!(sup.poll(&mut ctx, &vec![]), Step::Wait);
    assert!(!ctx.is_done());
    assert_eq!(sup.poll(&mut ctx, &vec![Exit::Finished, Exit::Failed("boom".to_string())]), Step::Drain);
    assert!(ctx.is_done());
    assert!(ctx.child(0).is_done());
    assert_eq!(sup.current_phase(), Phase::Draining);
    let shutdown_ctx = sup.drained(&vec![Exit::Finished]);
    assert!(!shutdown_ctx.is_done());
    assert_eq!(sup.current_phase(), Phase::ShuttingDown);
    let r = sup.finish(&vec![Exit::Failed("late".to_string())]);
    assert_eq!(sup.current_phase(), Phase::Stopped);
    let e = r.unwrap_err();
    assert_eq!(e.worker_errors, vec!["boom".to_string()]);
    assert_eq!(e.shutdown_errors, vec!["late".to_string()]);
}

#[test]
fn dependent_unit_mutates_value_before_its_owner_is_configured() {
    let collector = collector_with_dependency();
    assert_eq!(collector.config_order().unwrap(), vec![1, 0]);
    // mod1 fails without a route; mod2 added one before mod1 was configured
    let server = collector.start().unwrap();
    assert_eq!(server.healthy_len(), 1);
    let mut ctx = Context::new();
    run_in_place(server, &mut ctx).unwrap();
}

#[test]
fn mutual_dependency_is_a_cycle_naming_both() {
    let mut collector: ModuleCollector<Module, Conf> = ModuleCollector::new();
    collector.register("a", Module::Two(Mod2 {}), Conf::Two(Mod2Config { needs: vec!["b"] }));
    collector.register("b", Module::Two(Mod2 {}), Conf::Two(Mod2Config { needs: vec!["a"] }));
    match collector.start() {
        Err(StartError::Cycle(entries)) => assert_eq!(
            entries,
            vec![
                Blocked { unit: "a".to_string(), blocked_by: vec!["b".to_string()] },
                Blocked { unit: "b".to_string(), blocked_by: vec!["a".to_string()] },
            ]
        ),
        _ => panic!("expected a cycle"),
    }
}

#[test]
fn worker_that_cancels_ends_run_without_error() {
    let mut server: ServerHealth<Callback> = ServerHealth::new();
    server.register_on_healthy(Box::new(|ctx: &mut Context| {
        ctx.cancel();
        Ok(())
    }));
    assert_eq!(server.shutdown_len(), 0);
    let mut ctx = Context::new();
    let mut sup = Supervisor::new(1);
    let (healthy, shutdown) = server.into_callbacks();
    sup.launched();
    let mut reaped = vec![];
    for cb in healthy {
        reaped.push(exit_of(cb(&mut ctx)));
    }
    assert_eq!(sup.poll(&mut ctx, &reaped), Step::Drain);
    let _ = sup.drained(&vec![]);
    assert!(shutdown.is_empty());
    assert!(sup.finish(&vec![]).is_ok());
}

#[test]
fn unknown_dependency_is_reported() {
    let mut collector: ModuleCollector<Module, Conf> = ModuleCollector::new();
    collector.register(MOD2, Module::Two(Mod2 {}), Conf::Two(Mod2Config { needs: vec!["ghost"] }));
    assert_eq!(
        collector.start().err(),
        Some(StartError::UnknownDependency { unit: MOD2.to_string(), needs: "ghost".to_string() })
    );
}

#[test]
fn configurator_failure_stops_start() {
    let mut collector: ModuleCollector<Module, Conf> = ModuleCollector::new();
    collector.register(MOD1, Module::One(Mod1 { routes: vec![] }), Conf::One(Mod1Config {}));
    assert_eq!(
        collector.start().err(),
        Some(StartError::Config {
            unit: MOD1.to_string(),
            error: ConfigError::Failed("no route".to_string())
        })
    );
}

#[test]
fn binder_lookup_missing_key() {
    let mut binder: ModuleBinder<u32> = ModuleBinder::new();
    assert_eq!(binder.get("x").err(), Some(BindError::NotFound("x".to_string())));
    assert_eq!(binder.position("x"), None);
    assert_eq!(binder.len(), 0);
}

#[test]
fn deadline_child_expires_with_clock() {
    let mut ctx = Context::new();
    let plain = ctx.with_cancel();
    let timed = ctx.with_deadline(100);
    assert_eq!((plain, timed), (0, 1));
    ctx.expire(99);
    assert!(!ctx.child(1).is_done());
    ctx.expire(100);
    assert!(ctx.child(1).is_done());
    assert!(!ctx.child(0).is_done());
    assert!(!ctx.is_done());
    ctx.expire(0);
    assert!(ctx.child(1).is_done());
}

#[test]
fn order_for_declared_needs() {
    let collector = collector_with_dependency();
    assert_eq!(collector.order_for(&vec![vec![], vec![MOD1]]).unwrap(), vec![1, 0]);
    assert_eq!(collector.order_for(&vec![vec![MOD2], vec![]]).unwrap(), vec![0, 1]);
    assert_eq!(
        collector.order_for(&vec![vec![MOD2], vec![MOD1]]).err(),
        Some(StartError::Cycle(vec![
            Blocked { unit: MOD1.to_string(), blocked_by: vec![MOD2.to_string()] },
            Blocked { unit: MOD2.to_string(), blocked_by: vec![MOD1.to_string()] },
        ]))
    );
    assert_eq!(
        collector.order_for(&vec![vec!["zzz"], vec![]]).err(),
        Some(StartError::UnknownDependency { unit: MOD1.to_string(), needs: "zzz".to_string() })
    );
}

#[test]
fn needs_of_maps_names_to_positions() {
    let collector = collector_with_dependency();
    assert_eq!(collector.needs_of(&vec![MOD2, MOD1, MOD2]), Ok(vec![1, 0, 1]));
    assert_eq!(collector.needs_of(&vec![MOD1, "nope"]), Err("nope".to_string()));
}

#[test]
fn cycle_report_leaves_out_units_that_could_be_placed() {
    let mut collector: ModuleCollector<Module, Conf> = ModuleCollector::new();
    collector.register("x", Module::Two(Mod2 {}), Conf::Two(Mod2Config { needs: vec!["y"] }));
    collector.register("y", Module::Two(Mod2 {}), Conf::Two(Mod2Config { needs: vec!["z"] }));
    collector.register("z", Module::Two(Mod2 {}), Conf::Two(Mod2Config { needs: vec!["y"] }));
    collector.register("free", Module::Two(Mod2 {}), Conf::Two(Mod2Config { needs: vec![] }));
    assert_eq!(
        collector.config_order().err(),
        Some(StartError::Cycle(vec![
            Blocked { unit: "y".to_string(), blocked_by: vec!["z".to_string()] },
            Blocked { unit: "z".to_string(), blocked_by: vec!["y".to_string()] },
        ]))
    );
}

#[test]
fn derived_child_cancels_on_its_own() {
    let mut ctx = Context::new();
    let a = ctx.with_cancel();
    let b = ctx.with_cancel();
    let grandchild = ctx.child_mut(a).with_cancel();
    ctx.child_mut(a).cancel();
    assert!(ctx.child(a).is_done());
    assert!(ctx.child(a).child(grandchild).is_done());
    assert!(!ctx.child(b).is_done());
    assert!(!ctx.is_done());
}

#[test]
fn configure_in_follows_given_order() {
    let collector = collector_with_dependency();
    let server = collector.configure_in::<Callback>(&vec![1, 0]).unwrap();
    assert_eq!(server.healthy_len(), 1);
}
