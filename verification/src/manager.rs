//! The load phase: plugins and their module handles are gathered, then planned.

use vstd::prelude::*;
use ahash::AHashMap;
use ahash::RandomState;
use rayon::ThreadPool;
use rayon::ThreadPoolBuildError;
use crate::dispatch::build_pool;
use crate::dispatch::Dispatcher;
use crate::index::index_entries;
use crate::index::index_get;
use crate::index::index_insert;
use crate::index::index_new;
use crate::plan::has_dependency_cycle;
use crate::plan::is_live;
use crate::plan::is_named;
use crate::plan::is_stage_plan;
use crate::plan::on_dependency_cycle;
use crate::plan::plan_stages;
use crate::plan::PlanError;
use crate::plan::PluginDecl;
use crate::plugin::Loader;
use crate::plugin::Plugin;
use crate::plugin::PluginLoadError;

verus! {

/// `index` finds, under each name that a plugin has, the place of the last plugin so named.
pub open spec fn is_name_index(decls: Seq<PluginDecl>, index: Map<Seq<char>, usize>) -> bool {
    &&& forall|s: Seq<char>| #[trigger]
        index.contains_key(s) ==> is_named(decls, index[s] as int, s) && is_live(decls, index[s] as int)
    &&& forall|i: int| 0 <= i < decls.len() ==> index.contains_key((#[trigger] decls[i]).name@)
}

/// The plugins loaded so far, with the module handle of each.
pub struct PluginManager<L: Loader> {
    plugins: Vec<Box<dyn Plugin>>,
    decls: Vec<PluginDecl>,
    name_of_plugin: AHashMap<String, usize, RandomState>,
    libraries: Vec<L::Library>,
}

impl<L: Loader> PluginManager<L> {
    /// What each loaded plugin declared when it was loaded, in load order.
    pub closed spec fn decls(&self) -> Seq<PluginDecl> {
        self.decls@
    }

    /// The name index: the place of a plugin under its name.
    pub closed spec fn name_index(&self) -> Map<Seq<char>, usize> {
        index_entries(self.name_of_plugin)
    }

    /// The plugin instances, in load order.
    pub closed spec fn instances(&self) -> Seq<Box<dyn Plugin>> {
        self.plugins@
    }

    /// The module handles, in load order: each is that of the instance at its place.
    pub closed spec fn handles(&self) -> Seq<L::Library> {
        self.libraries@
    }

    /// How many plugin instances are held.
    pub open spec fn plugin_count(&self) -> nat {
        self.instances().len()
    }

    /// How many module handles are held.
    pub open spec fn handle_count(&self) -> nat {
        self.handles().len()
    }

    /// One instance and one handle for each declaration, and the index is that of the declarations.
    pub open spec fn wf(&self) -> bool {
        &&& self.plugin_count() == self.decls().len()
        &&& self.handle_count() == self.decls().len()
        &&& is_name_index(self.decls(), self.name_index())
    }

    /// A manager without plugins.
    pub fn new() -> (r: Self)
        ensures
            r.wf(),
            r.decls().len() == 0,
            r.name_index().dom() == Set::<Seq<char>>::empty(),
    {
        PluginManager { plugins: Vec::new(), decls: Vec::new(), name_of_plugin: index_new(), libraries: Vec::new() }
    }

    /// How many plugins have been loaded.
    pub fn len(&self) -> (n: usize)
        ensures
            n == self.decls().len(),
    {
        self.decls.len()
    }

    /// The place of the plugin that is indexed under `name`.
    pub fn index_of(&self, name: &String) -> (r: Option<usize>)
        ensures
            r == (if self.name_index().contains_key(name@) {
                Some(self.name_index()[name@])
            } else {
                None
            }),
    {
        index_get(&self.name_of_plugin, name)
    }

    /// Puts a plugin behind those already loaded, with the declaration under which it is
    /// planned and the module handle that it came from, and indexes it under its name in
    /// place of any earlier plugin of that name.
    pub fn take_in(&mut self, library: L::Library, plugin: Box<dyn Plugin>, decl: PluginDecl)
        requires
            old(self).wf(),
        ensures
            final(self).wf(),
            final(self).decls() == old(self).decls().push(decl),
            final(self).name_index() == old(self).name_index().insert(decl.name@, old(self).decls().len() as usize),
            final(self).instances() == old(self).instances().push(plugin),
            final(self).instances().drop_last() == old(self).instances(),
            final(self).handles() == old(self).handles().push(library),
    {
        let place: usize = self.plugins.len();
        let name = decl.name.clone();
        index_insert(&mut self.name_of_plugin, name, place);
        self.plugins.push(plugin);
        proof {
            lemma_one_longer(old(self).plugins@, plugin);
        }
        self.decls.push(decl);
        self.libraries.push(library);
        proof {
            assert(self.decls@.drop_last() =~= old(self).decls@);
            let s0 = name@;
            assert forall|s: Seq<char>| #[trigger] self.name_index().contains_key(s) implies is_named(
                self.decls@,
                self.name_index()[s] as int,
                s,
            ) && is_live(self.decls@, self.name_index()[s] as int) by {
                if s != s0 {
                    assert(old(self).name_index().contains_key(s));
                    let at = old(self).name_index()[s] as int;
                    assert(is_named(old(self).decls@, at, s));
                    assert(is_live(old(self).decls@, at));
                    assert forall|l: int| at < l < self.decls@.len() implies (#[trigger] self.decls@[l]).name@
                        != self.decls@[at].name@ by {
                        if l < place {
                            assert(old(self).decls@[l].name@ != old(self).decls@[at].name@);
                        }
                    }
                }
            }
            assert forall|i: int| 0 <= i < self.decls@.len() implies self.name_index().contains_key(
                (#[trigger] self.decls@[i]).name@,
            ) by {
                if i < place {
                    assert(old(self).name_index().contains_key(old(self).decls@[i].name@));
                }
            }
        }
    }

    /// Takes in what a loader returned. A plugin is asked once for its name and its
    /// dependencies and taken in with them, its handle with it; an error is handed on, and
    /// nothing changes.
    pub fn record(&mut self, loaded: Result<(L::Library, Box<dyn Plugin>), PluginLoadError>) -> (r: Result<(), PluginLoadError>)
        requires
            old(self).wf(),
        ensures
            final(self).wf(),
            loaded matches Err(e) ==> (r == Err::<(), PluginLoadError>(e) && final(self).decls() == old(self).decls()
                && final(self).name_index() == old(self).name_index() && final(self).instances() == old(
                self).instances() && final(self).handles() == old(self).handles()),
            loaded matches Ok((library, plugin)) ==> (final(self).instances().drop_last() == old(self).instances()
                && final(self).handles() == old(self).handles().push(library) && call_ensures(
                declaration_of::<dyn Plugin>,
                (&*plugin,),
                final(self).decls().last(),
            )),
            loaded is Ok ==> r is Ok && final(self).decls().len() == old(self).decls().len() + 1
                && final(self).decls().drop_last() == old(self).decls() && final(self).name_index() == old(
                self).name_index().insert(final(self).decls().last().name@, old(self).decls().len() as usize),
    {
        match loaded {
            Err(e) => Err(e),
            Ok((library, plugin)) => {
                let decl = declaration_of::<dyn Plugin>(&*plugin);
                self.take_in(library, plugin, decl);
                proof {
                    assert(self.decls().drop_last() =~= old(self).decls());
                }
                Ok(())
            },
        }
    }

    /// Loads the module named by `filename` with the loader `L`, and records what came of it.
    /// The outcome is that of the loader on `filename`: where it gave a plugin, the plugin is
    /// taken in; where it failed, its error is returned, the name index has no new entry,
    /// and nothing else has changed either.
    pub fn load_plugin(&mut self, filename: &str) -> (r: Result<(), PluginLoadError>)
        requires
            old(self).wf(),
        ensures
            final(self).wf(),
            r is Err ==> final(self).decls() == old(self).decls() && final(self).name_index() == old(
                self).name_index() && final(self).instances() == old(self).instances() && final(self).handles()
                == old(self).handles(),
            r is Ok ==> final(self).decls().len() == old(self).decls().len() + 1 && final(self).decls().drop_last()
                == old(self).decls() && final(self).name_index() == old(self).name_index().insert(
                final(self).decls().last().name@,
                old(self).decls().len() as usize,
            ),
            exists|loaded: Result<(L::Library, Box<dyn Plugin>), PluginLoadError>|
                {
                    &&& #[trigger] call_ensures(L::load, (filename,), loaded)
                    &&& loaded is Ok ==> r is Ok
                    &&& loaded matches Err(e) ==> r == Err::<(), PluginLoadError>(e)
                    &&& loaded matches Ok((library, plugin)) ==> final(self).instances().drop_last() == old(
                        self).instances() && final(self).handles() == old(self).handles().push(library)
                        && call_ensures(declaration_of::<dyn Plugin>, (&*plugin,), final(self).decls().last())
                },
    {
        let loaded = L::load(filename);
        self.record(loaded)
    }

    /// Plans the stages and hands everything over to a dispatcher that runs on `pool`.
    /// The plan is made first: a dependency cycle is reported whatever became of the pool.
    pub fn into_dispatcher_with(self, pool: Result<ThreadPool, ThreadPoolBuildError>) -> (r: Result<Dispatcher<L::Library>, PlanError>)
        requires
            self.wf(),
        ensures
            has_dependency_cycle(self.decls()) ==> (r matches Err(PlanError::CyclicDependency(name))
                && on_dependency_cycle(self.decls(), name@)),
            !has_dependency_cycle(self.decls()) && pool is Err ==> (r matches Err(PlanError::WorkerPool)),
            !has_dependency_cycle(self.decls()) && pool is Ok ==> (r matches Ok(d) && d.wf() && is_stage_plan(
                self.decls(),
                d.stages(),
            ) && d.instances() == self.instances() && d.handles() == self.handles()),
    {
        match plan_stages(&self.decls) {
            Err(e) => Err(e),
            Ok(stages) => match pool {
                Err(_) => Err(PlanError::WorkerPool),
                Ok(thread_pool) => {
                    proof {
                        lemma_plan_in_range(self.decls@, stages@);
                    }
                    Ok(Dispatcher::assemble(self.plugins, stages, thread_pool, self.libraries))
                },
            },
        }
    }

    /// Plans the stages, starts the worker pool and hands everything over to a dispatcher.
    /// Fails on a dependency cycle, and otherwise only where no worker pool can be started.
    pub fn into_dispatcher(self) -> (r: Result<Dispatcher<L::Library>, PlanError>)
        requires
            self.wf(),
        ensures
            has_dependency_cycle(self.decls()) ==> (r matches Err(PlanError::CyclicDependency(name))
                && on_dependency_cycle(self.decls(), name@)),
            !has_dependency_cycle(self.decls()) ==> (r matches Err(PlanError::WorkerPool)) || (r matches Ok(d)
                && d.wf() && is_stage_plan(self.decls(), d.stages()) && d.instances() == self.instances()
                && d.handles() == self.handles()),
    {
        let pool = build_pool();
        self.into_dispatcher_with(pool)
    }
}

impl<L: Loader> Default for PluginManager<L> {
    /// A manager without plugins.
    fn default() -> (r: Self)
        ensures
            r.wf(),
            r.decls().len() == 0,
            r.name_index().dom() == Set::<Seq<char>>::empty(),
    {
        PluginManager::new()
    }
}

/// What a plugin declares of itself: it is asked once for its name and once for its
/// dependencies.
pub fn declaration_of<P: Plugin + ?Sized>(plugin: &P) -> (decl: PluginDecl)
    ensures
        call_ensures(P::name, (plugin,), decl.name),
        call_ensures(P::dependencies, (plugin,), decl.dependencies),
{
    PluginDecl { name: plugin.name(), dependencies: plugin.dependencies() }
}

/// A sequence with one more element behind it is one longer.
pub proof fn lemma_one_longer<A>(s: Seq<A>, a: A)
    ensures
        s.push(a).len() == s.len() + 1,
        s.push(a).drop_last() == s,
{
    assert(s.push(a).drop_last() =~= s);
}

/// Every place in a plan is that of a declaration.
pub proof fn lemma_plan_in_range(decls: Seq<PluginDecl>, stages: Seq<Vec<usize>>)
    requires
        is_stage_plan(decls, stages),
    ensures
        forall|k: int, m: int|
            0 <= k < stages.len() && 0 <= m < stages[k]@.len() ==> (#[trigger] stages[k]@[m]) < decls.len(),
{
}

} // verus!
