use std::sync::Arc;
use std::sync::Mutex;

use sora::graph::depths_of;
use sora::graph::node_depths;
use sora::graph::sort_nodes;
use sora::manager::declaration_of;
use sora::plan_stages;
use sora::plugin::last_segment;
use sora::Dispatcher;
use sora::Hello;
use sora::Loader;
use sora::PlanError;
use sora::Plugin;
use sora::PluginDecl;
use sora::PluginLoadError;
use sora::PluginManager;

/// What the plugins `A` and `B` have written, in the order in which they ran.
static WRITTEN: Mutex<String> = Mutex::new(String::new());

struct A;
struct B;

impl Plugin for A {
    fn name(&self) -> String {
        String::from("A")
    }

    fn run(&self) {
        WRITTEN.lock().unwrap().push_str("A\n");
    }
}

impl Plugin for B {
    fn name(&self) -> String {
        String::from("B")
    }

    fn dependencies(&self) -> Vec<String> {
        vec![String::from("A")]
    }

    fn run(&self) {
        WRITTEN.lock().unwrap().push_str("B\n");
    }
}

struct CycleA;
struct CycleB;

impl Plugin for CycleA {
    fn name(&self) -> String {
        String::from("A")
    }

    fn dependencies(&self) -> Vec<String> {
        vec![String::from("B")]
    }

    fn run(&self) {}
}

impl Plugin for CycleB {
    fn name(&self) -> String {
        String::from("B")
    }

    fn dependencies(&self) -> Vec<String> {
        vec![String::from("A")]
    }

    fn run(&self) {}
}

struct PluginLoader;

impl Loader for PluginLoader {
    type Library = ();

    fn load(filename: &str) -> Result<((), Box<dyn Plugin>), PluginLoadError> {
        let plugin: Box<dyn Plugin> = match filename {
            "A" => Box::new(A),
            "B" => Box::new(B),
            "missing" => return Err(PluginLoadError::Library(libloading::Error::DlOpenUnknown)),
            _ => return Err(PluginLoadError::Plugin(libloading::Error::DlSymUnknown)),
        };
        Ok(((), plugin))
    }
}

struct CycleLoader;

impl Loader for CycleLoader {
    type Library = ();

    fn load(filename: &str) -> Result<((), Box<dyn Plugin>), PluginLoadError> {
        let plugin: Box<dyn Plugin> = match filename {
            "A" => Box::new(CycleA),
            "B" => Box::new(CycleB),
            _ => return Err(PluginLoadError::Plugin(libloading::Error::DlSymUnknown)),
        };
        Ok(((), plugin))
    }
}

/// A plugin that writes its name into a shared log when it runs.
struct Logged {
    name: String,
    dependencies: Vec<String>,
    log: Arc<Mutex<Vec<String>>>,
}

impl Plugin for Logged {
    fn name(&self) -> String {
        self.name.clone()
    }

    fn dependencies(&self) -> Vec<String> {
        self.dependencies.clone()
    }

    fn run(&self) {
        self.log.lock().unwrap().push(self.name.clone());
    }
}

struct NoLoader;

impl Loader for NoLoader {
    type Library = u32;

    fn load(_filename: &str) -> Result<(u32, Box<dyn Plugin>), PluginLoadError> {
        Err(PluginLoadError::Library(libloading::Error::DlOpenUnknown))
    }
}

fn logged(name: &str, dependencies: &[&str], log: &Arc<Mutex<Vec<String>>>) -> Result<(u32, Box<dyn Plugin>), PluginLoadError> {
    let plugin = Logged {
        name: String::from(name),
        dependencies: dependencies.iter().map(|d| String::from(*d)).collect(),
        log: Arc::clone(log),
    };
    Ok((7, Box::new(plugin)))
}

fn manager_of(plugins: &[(&str, &[&str])], log: &Arc<Mutex<Vec<String>>>) -> PluginManager<NoLoader> {
    let mut manager: PluginManager<NoLoader> = PluginManager::new();
    for (name, dependencies) in plugins {
        manager.record(logged(name, dependencies, log)).unwrap();
    }
    manager
}

fn decl(name: &str, dependencies: &[&str]) -> PluginDecl {
    PluginDecl { name: String::from(name), dependencies: dependencies.iter().map(|d| String::from(*d)).collect() }
}

fn taken(log: &Arc<Mutex<Vec<String>>>) -> Vec<String> {
    log.lock().unwrap().clone()
}

#[test]
fn smoke() {
    let mut manager: PluginManager<PluginLoader> = PluginManager::default();

    manager.load_plugin("B").unwrap();
    manager.load_plugin("A").unwrap();

    let dispatcher = manager.into_dispatcher().unwrap();

    WRITTEN.lock().unwrap().clear();

    dispatcher.dispatch();

    let captured = WRITTEN.lock().unwrap().clone();

    assert_eq!(captured, "A\nB\n");
}

#[test]
#[should_panic(expected = "CyclicDependency")]
fn cycle() {
    let mut manager: PluginManager<CycleLoader> = PluginManager::default();

    manager.load_plugin("A").unwrap();
    manager.load_plugin("B").unwrap();

    let _dispatcher = manager.into_dispatcher().unwrap();
}

#[test]
fn cycle_is_reported_with_a_name_on_it() {
    let mut manager: PluginManager<CycleLoader> = PluginManager::new();
    manager.load_plugin("A").unwrap();
    manager.load_plugin("B").unwrap();
    match manager.into_dispatcher() {
        Err(PlanError::CyclicDependency(name)) => assert!(name == "A" || name == "B"),
        _ => panic!("a cycle must be refused"),
    }
}

#[test]
fn two_stages_in_dependency_order() {
    let log = Arc::new(Mutex::new(Vec::new()));
    let manager = manager_of(&[("B", &["A"]), ("A", &[])], &log);
    let dispatcher = manager.into_dispatcher().unwrap();
    assert_eq!(dispatcher.stage_plan(), &vec![vec![1usize], vec![0usize]]);
    assert_eq!(dispatcher.dispatch(), vec![1usize, 0usize]);
    assert_eq!(taken(&log), vec![String::from("A"), String::from("B")]);
}

#[test]
fn independent_plugins_share_one_stage() {
    let log = Arc::new(Mutex::new(Vec::new()));
    let manager = manager_of(&[("X", &[]), ("Y", &[]), ("Z", &[])], &log);
    let dispatcher = manager.into_dispatcher().unwrap();
    assert_eq!(dispatcher.stage_plan(), &vec![vec![0usize, 1, 2]]);
    let mut places = dispatcher.dispatch_par();
    assert_eq!(places.len(), 1);
    places[0].sort();
    assert_eq!(places, vec![vec![0usize, 1, 2]]);
    let mut ran = taken(&log);
    ran.sort();
    assert_eq!(ran, vec![String::from("X"), String::from("Y"), String::from("Z")]);
}

#[test]
fn unloaded_dependency_holds_an_empty_stage() {
    let log = Arc::new(Mutex::new(Vec::new()));
    let manager = manager_of(&[("A", &["Z"])], &log);
    let dispatcher = manager.into_dispatcher().unwrap();
    assert_eq!(dispatcher.stage_plan(), &vec![vec![], vec![0usize]]);
    assert_eq!(dispatcher.dispatch(), vec![0usize]);
    assert_eq!(taken(&log), vec![String::from("A")]);
}

#[test]
fn dispatch_repeats_the_same_order() {
    let log = Arc::new(Mutex::new(Vec::new()));
    let manager = manager_of(&[("C", &["B"]), ("B", &["A"]), ("A", &[]), ("D", &[])], &log);
    let dispatcher = manager.into_dispatcher().unwrap();
    let first = dispatcher.dispatch();
    let after_first = taken(&log);
    let second = dispatcher.dispatch();
    let after_second = taken(&log);
    assert_eq!(first, vec![2usize, 3, 1, 0]);
    assert_eq!(first, second);
    assert_eq!(after_first, vec!["A", "D", "B", "C"]);
    assert_eq!(after_second[..4], after_first[..]);
    assert_eq!(after_second[4..], after_first[..]);
}

#[test]
fn parallel_dispatch_keeps_the_stage_barrier() {
    let log = Arc::new(Mutex::new(Vec::new()));
    let manager = manager_of(&[("D", &["B", "C"]), ("B", &["A"]), ("C", &["A"]), ("A", &[])], &log);
    let dispatcher = manager.into_dispatcher().unwrap();
    assert_eq!(dispatcher.stage_plan(), &vec![vec![3usize], vec![1usize, 2], vec![0usize]]);
    let mut places = dispatcher.dispatch_par();
    for stage in places.iter_mut() {
        stage.sort();
    }
    assert_eq!(&places, dispatcher.stage_plan());
    let ran = taken(&log);
    assert_eq!(ran.len(), 4);
    assert_eq!(ran[0], "A");
    assert_eq!(ran[3], "D");
    let mut middle = vec![ran[1].clone(), ran[2].clone()];
    middle.sort();
    assert_eq!(middle, vec!["B", "C"]);
}

#[test]
fn failed_load_leaves_the_index_alone() {
    let mut manager: PluginManager<PluginLoader> = PluginManager::new();
    manager.load_plugin("A").unwrap();
    assert!(matches!(manager.load_plugin("missing"), Err(PluginLoadError::Library(_))));
    assert!(matches!(manager.load_plugin("not a plugin"), Err(PluginLoadError::Plugin(_))));
    assert_eq!(manager.len(), 1);
    assert_eq!(manager.index_of(&String::from("A")), Some(0));
    assert_eq!(manager.index_of(&String::from("missing")), None);
    assert_eq!(manager.index_of(&String::from("not a plugin")), None);
    manager.load_plugin("B").unwrap();
    assert_eq!(manager.len(), 2);
    assert_eq!(manager.index_of(&String::from("B")), Some(1));
}

#[test]
fn record_hands_the_error_on() {
    let mut manager: PluginManager<NoLoader> = PluginManager::new();
    let failed = manager.record(Err(PluginLoadError::Plugin(libloading::Error::DlSymUnknown)));
    assert!(matches!(failed, Err(PluginLoadError::Plugin(libloading::Error::DlSymUnknown))));
    assert!(matches!(manager.load_plugin("anything"), Err(PluginLoadError::Library(_))));
    assert_eq!(manager.len(), 0);
}

#[test]
fn later_plugin_of_a_name_replaces_the_earlier() {
    let log = Arc::new(Mutex::new(Vec::new()));
    let manager = manager_of(&[("A", &[]), ("B", &["A"]), ("A", &[])], &log);
    assert_eq!(manager.len(), 3);
    assert_eq!(manager.index_of(&String::from("A")), Some(2));
    assert_eq!(manager.index_of(&String::from("B")), Some(1));
    let dispatcher = manager.into_dispatcher().unwrap();
    assert_eq!(dispatcher.stage_plan(), &vec![vec![2usize], vec![1usize]]);
    assert_eq!(dispatcher.dispatch(), vec![2usize, 1]);
    assert_eq!(taken(&log), vec!["A", "B"]);
}

#[test]
fn empty_manager_gives_an_empty_plan() {
    let manager: PluginManager<NoLoader> = PluginManager::new();
    let dispatcher: Dispatcher<u32> = manager.into_dispatcher().unwrap();
    assert!(dispatcher.stage_plan().is_empty());
    assert!(dispatcher.dispatch().is_empty());
    assert!(dispatcher.dispatch_par().is_empty());
}

#[test]
fn missing_pool_is_reported_after_the_plan() {
    let log = Arc::new(Mutex::new(Vec::new()));
    let _ = rayon::ThreadPoolBuilder::new().build_global();
    let refused = rayon::ThreadPoolBuilder::new().build_global().unwrap_err();
    let manager = manager_of(&[("A", &[])], &log);
    assert!(matches!(manager.into_dispatcher_with(Err(refused)), Err(PlanError::WorkerPool)));
    let refused = rayon::ThreadPoolBuilder::new().build_global().unwrap_err();
    let manager = manager_of(&[("A", &["A"])], &log);
    match manager.into_dispatcher_with(Err(refused)) {
        Err(PlanError::CyclicDependency(name)) => assert_eq!(name, "A"),
        _ => panic!("a cycle must be refused"),
    }
    let manager = manager_of(&[("A", &[])], &log);
    let pool = rayon::ThreadPoolBuilder::new().num_threads(2).build();
    let dispatcher = manager.into_dispatcher_with(pool).unwrap();
    assert_eq!(dispatcher.dispatch_par(), vec![vec![0usize]]);
    assert_eq!(taken(&log), vec!["A"]);
}

#[test]
fn stage_is_one_more_than_the_deepest_dependency() {
    let decls = vec![
        decl("app", &["net", "log"]),
        decl("net", &["io"]),
        decl("log", &[]),
        decl("io", &[]),
        decl("ui", &["app", "log"]),
    ];
    let stages = plan_stages(&decls).unwrap();
    assert_eq!(stages, vec![vec![2usize, 3], vec![1], vec![0], vec![4]]);
}

#[test]
fn plan_of_nothing_is_empty() {
    assert_eq!(plan_stages(&Vec::new()).unwrap(), Vec::<Vec<usize>>::new());
}

#[test]
fn plan_refuses_a_plugin_that_depends_on_itself() {
    match plan_stages(&vec![decl("solo", &[]), decl("loop", &["loop"])]) {
        Err(PlanError::CyclicDependency(name)) => assert_eq!(name, "loop"),
        _ => panic!("a cycle must be refused"),
    }
}

#[test]
fn plan_refuses_a_long_cycle() {
    let decls = vec![decl("a", &["c"]), decl("b", &["a"]), decl("c", &["b"]), decl("d", &[])];
    match plan_stages(&decls) {
        Err(PlanError::CyclicDependency(name)) => assert!(name == "a" || name == "b" || name == "c"),
        _ => panic!("a cycle must be refused"),
    }
}

#[test]
fn repeated_dependency_counts_once() {
    let stages = plan_stages(&vec![decl("b", &["a", "a"]), decl("a", &[])]).unwrap();
    assert_eq!(stages, vec![vec![1usize], vec![0usize]]);
}

#[test]
fn sorted_nodes_respect_every_edge() {
    let edges = vec![(3usize, 1usize), (1, 0), (2, 0), (3, 2)];
    let order = sort_nodes(5, &edges).unwrap();
    assert_eq!(order.len(), 5);
    let place = |v: usize| order.iter().position(|w| *w == v).unwrap();
    for (from, to) in &edges {
        assert!(place(*from) < place(*to));
    }
    assert_ne!(order, vec![0usize, 1, 2, 3, 4]);
}

#[test]
fn sorting_finds_a_node_on_the_cycle() {
    let edges = vec![(0usize, 1usize), (1, 2), (2, 1), (2, 3)];
    let v = sort_nodes(4, &edges).unwrap_err();
    assert!(v == 1 || v == 2);
    assert_eq!(sort_nodes(1, &vec![(0usize, 0usize)]), Err(0));
}

#[test]
fn depths_follow_the_longest_chain() {
    let edges = vec![(3usize, 1usize), (1, 0), (2, 0), (3, 2), (3, 0)];
    assert_eq!(depths_of(5, &edges), Ok(vec![2usize, 1, 1, 0, 0]));
    assert_eq!(node_depths(5, &edges, &vec![4usize, 3, 2, 1, 0]), vec![2usize, 1, 1, 0, 0]);
    assert_eq!(depths_of(0, &Vec::new()), Ok(Vec::new()));
    assert!(depths_of(2, &vec![(0usize, 1usize), (1, 0)]).is_err());
}

#[test]
fn hello_greets() {
    let hello = Hello::default();
    assert_eq!(hello.name(), "Hello");
    assert!(hello.dependencies().is_empty());
    assert_eq!(Hello::greeting(), "Hello, World!");
    hello.run();
}

#[test]
fn last_segment_stands_behind_the_last_separator() {
    assert_eq!(last_segment("sora::plugin::Hello"), "Hello");
    assert_eq!(last_segment("Hello"), "Hello");
    assert_eq!(last_segment(""), "");
    assert_eq!(last_segment("a::"), "");
    assert_eq!(last_segment(":::"), ":");
    assert_eq!(last_segment("a:b::c:d"), "c:d");
    assert_eq!(last_segment("::::x"), "x");
    assert_eq!(last_segment(":::"), ":::".split("::").last().unwrap());
}

#[test]
fn plugin_is_planned_by_the_declaration_it_is_taken_in_with() {
    let log = Arc::new(Mutex::new(Vec::new()));
    let mut manager: PluginManager<NoLoader> = PluginManager::new();
    let first = Logged { name: String::from("first"), dependencies: Vec::new(), log: Arc::clone(&log) };
    let second = Logged { name: String::from("second"), dependencies: Vec::new(), log: Arc::clone(&log) };
    manager.take_in(1, Box::new(first), decl("first", &["second"]));
    manager.take_in(2, Box::new(second), decl("second", &[]));
    assert_eq!(manager.len(), 2);
    assert_eq!(manager.index_of(&String::from("first")), Some(0));
    assert_eq!(manager.index_of(&String::from("second")), Some(1));
    let dispatcher = manager.into_dispatcher().unwrap();
    assert_eq!(dispatcher.stage_plan(), &vec![vec![1usize], vec![0usize]]);
    assert_eq!(dispatcher.dispatch(), vec![1usize, 0]);
    assert_eq!(taken(&log), vec!["second", "first"]);
}

#[test]
fn chain_of_dependencies_gives_one_stage_each() {
    let decls = vec![decl("d", &["c"]), decl("c", &["b"]), decl("b", &["a"]), decl("a", &[])];
    assert_eq!(plan_stages(&decls).unwrap(), vec![vec![3usize], vec![2], vec![1], vec![0]]);
}

#[test]
fn earlier_plugin_of_a_name_still_orders_by_its_dependencies() {
    let decls = vec![decl("a", &["x"]), decl("x", &[]), decl("a", &[]), decl("b", &["a"])];
    assert_eq!(plan_stages(&decls).unwrap(), vec![vec![1usize], vec![2], vec![3]]);
}

#[test]
fn parallel_dispatch_runs_what_sequential_dispatch_runs() {
    let log = Arc::new(Mutex::new(Vec::new()));
    let manager = manager_of(&[("B", &["A"]), ("A", &[]), ("C", &["A"]), ("E", &["Z"])], &log);
    let dispatcher = manager.into_dispatcher().unwrap();
    assert_eq!(dispatcher.stage_plan(), &vec![vec![1usize], vec![0usize, 2, 3]]);
    let in_order = dispatcher.dispatch();
    let mut first = dispatcher.dispatch_par();
    let mut second = dispatcher.dispatch_par();
    for stage in first.iter_mut() {
        stage.sort();
    }
    for stage in second.iter_mut() {
        stage.sort();
    }
    assert_eq!(first, vec![vec![1usize], vec![0usize, 2, 3]]);
    assert_eq!(first, second);
    assert_eq!(first.concat(), {
        let mut all = in_order.clone();
        all[1..].sort();
        all
    });
    let ran = taken(&log);
    assert_eq!(ran.len(), 12);
    assert_eq!(ran[0], "A");
    assert_eq!(ran[4], "A");
    assert_eq!(ran[8], "A");
    let mut rest = ran[5..8].to_vec();
    rest.sort();
    assert_eq!(rest, vec!["B", "C", "E"]);
}

#[test]
fn loaded_plugin_is_recorded_with_what_it_declares() {
    let mut manager: PluginManager<PluginLoader> = PluginManager::new();
    manager.load_plugin("B").unwrap();
    manager.load_plugin("A").unwrap();
    assert_eq!(manager.index_of(&String::from("B")), Some(0));
    assert_eq!(manager.index_of(&String::from("A")), Some(1));
    let dispatcher = manager.into_dispatcher().unwrap();
    assert_eq!(dispatcher.stage_plan(), &vec![vec![1usize], vec![0usize]]);
}

#[test]
fn declaration_is_what_the_plugin_answers() {
    let found = declaration_of(&B);
    assert_eq!(found.name, "B");
    assert_eq!(found.dependencies, vec![String::from("A")]);
    let boxed: Box<dyn Plugin> = Box::new(A);
    let found = declaration_of(&*boxed);
    assert_eq!(found.name, "A");
    assert!(found.dependencies.is_empty());
}
