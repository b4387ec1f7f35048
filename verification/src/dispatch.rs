//! Running the stages of a plan.

use vstd::prelude::*;
use rayon::iter::IntoParallelRefIterator;
use rayon::iter::ParallelIterator;
use rayon::ThreadPool;
use rayon::ThreadPoolBuildError;
use rayon::ThreadPoolBuilder;
use crate::plugin::Plugin;

verus! {

/// The outside pool of worker threads.
#[verifier::external_type_specification]
#[verifier::external_body]
pub struct ExThreadPool(ThreadPool);

/// Why the outside pool could not be started.
#[verifier::external_type_specification]
#[verifier::external_body]
pub struct ExThreadPoolBuildError(ThreadPoolBuildError);

/// `ThreadPoolBuilder::new().build()`: a pool of the default size, where the machine gives one.
#[verifier::external_body]
pub(crate) fn build_pool() -> Result<ThreadPool, ThreadPoolBuildError> {
    ThreadPoolBuilder::new().build()
}

/// Runs the plugin at place `i` and hands the place back.
fn run_at(plugins: &Vec<Box<dyn Plugin>>, i: usize) -> (ran: usize)
    requires
        i < plugins.len(),
    ensures
        ran == i,
{
    plugins[i].run();
    i
}

/// `ThreadPool::install` around `par_iter().map(..).collect()`: runs the plugins of one
/// stage on the pool and returns when all of them have returned, with the places whose
/// plugin ran: those of the stage, each as often as the stage holds it. Nothing is said of
/// the order in which they ran.
#[verifier::external_body]
fn run_stage(pool: &ThreadPool, plugins: &Vec<Box<dyn Plugin>>, stage: &Vec<usize>) -> (ran: Vec<usize>)
    requires
        forall|m: int| 0 <= m < stage.len() ==> (#[trigger] stage[m]) < plugins.len(),
    ensures
        ran@.to_multiset() == stage@.to_multiset(),
{
    pool.install(|| stage.par_iter().map(|i| run_at(plugins, *i)).collect())
}

/// The places of a plan, stage after stage.
pub open spec fn run_order(stages: Seq<Vec<usize>>) -> Seq<usize>
    decreases stages.len(),
{
    if stages.len() == 0 {
        Seq::empty()
    } else {
        run_order(stages.drop_last()) + stages.last()@
    }
}

/// What runs stage by stage, each stage in any order, is what runs in the order of the
/// plan: where every stage of `ran` holds the places of the same stage of `stages`, each
/// as often, all of `ran` holds the places of all of `stages`, each as often.
pub proof fn lemma_same_places(stages: Seq<Vec<usize>>, ran: Seq<Vec<usize>>)
    requires
        ran.len() == stages.len(),
        forall|k: int| 0 <= k < ran.len() ==> (#[trigger] ran[k])@.to_multiset() == stages[k]@.to_multiset(),
    ensures
        run_order(ran).to_multiset() == run_order(stages).to_multiset(),
    decreases stages.len(),
{
    if stages.len() > 0 {
        let k = stages.len() - 1;
        assert(ran[k]@.to_multiset() == stages[k]@.to_multiset());
        assert forall|x: int| 0 <= x < ran.drop_last().len() implies (#[trigger] ran.drop_last()[x])@.to_multiset()
            == stages.drop_last()[x]@.to_multiset() by {
            assert(ran[x]@.to_multiset() == stages[x]@.to_multiset());
        }
        lemma_same_places(stages.drop_last(), ran.drop_last());
        vstd::seq_lib::lemma_multiset_commutative(run_order(ran.drop_last()), ran.last()@);
        vstd::seq_lib::lemma_multiset_commutative(run_order(stages.drop_last()), stages.last()@);
    }
}

/// A finished plan with the plugins it runs and the module handles that they came from.
pub struct Dispatcher<L> {
    // the plugins stand before the handles, so that they are dropped first
    plugins: Vec<Box<dyn Plugin>>,
    stages: Vec<Vec<usize>>,
    thread_pool: ThreadPool,
    libraries: Vec<L>,
}

impl<L> Dispatcher<L> {
    /// The stages: each holds the places, in load order, of the plugins that run in it.
    pub closed spec fn stages(&self) -> Seq<Vec<usize>> {
        self.stages@
    }

    /// The plugin instances that the dispatcher owns, in load order: the places in the
    /// stages are places in this sequence.
    pub closed spec fn instances(&self) -> Seq<Box<dyn Plugin>> {
        self.plugins@
    }

    /// The module handles that the dispatcher keeps for as long as it lives, in load order.
    pub closed spec fn handles(&self) -> Seq<L> {
        self.libraries@
    }

    /// How many plugins the dispatcher owns.
    pub open spec fn plugin_count(&self) -> nat {
        self.instances().len()
    }

    /// How many module handles the dispatcher keeps.
    pub open spec fn handle_count(&self) -> nat {
        self.handles().len()
    }

    /// Every place in the stages is that of an owned plugin.
    pub open spec fn wf(&self) -> bool {
        forall|k: int, m: int|
            0 <= k < self.stages().len() && 0 <= m < self.stages()[k]@.len() ==> (#[trigger] self.stages()[k]@[m])
                < self.plugin_count()
    }

    /// Puts a plan together with what it runs and what must outlive it.
    pub(crate) fn assemble(plugins: Vec<Box<dyn Plugin>>, stages: Vec<Vec<usize>>, thread_pool: ThreadPool, libraries: Vec<L>) -> (d: Self)
        ensures
            d.stages() == stages@,
            d.instances() == plugins@,
            d.handles() == libraries@,
    {
        Dispatcher { plugins, stages, thread_pool, libraries }
    }

    /// The stages, for reading.
    pub fn stage_plan(&self) -> (stages: &Vec<Vec<usize>>)
        ensures
            stages@ == self.stages(),
    {
        &self.stages
    }

    /// Runs every stage in order, and within a stage each plugin in the order of the stage.
    /// Returns the places of the plugins in the order in which they ran; that order depends
    /// on the plan alone, so every dispatch of one plan runs the same plugins in the same order.
    pub fn dispatch(&self) -> (trace: Vec<usize>)
        requires
            self.wf(),
        ensures
            trace@ == run_order(self.stages()),
    {
        let mut trace: Vec<usize> = Vec::new();
        let mut k: usize = 0;
        proof {
            assert(self.stages@.take(0) =~= Seq::<Vec<usize>>::empty());
        }
        while k < self.stages.len()
            invariant
                k <= self.stages.len(),
                self.wf(),
                trace@ == run_order(self.stages@.take(k as int)),
            decreases self.stages.len() - k,
        {
            let stage = &self.stages[k];
            let mut m: usize = 0;
            while m < stage.len()
                invariant
                    k < self.stages.len(),
                    m <= stage.len(),
                    self.wf(),
                    *stage == self.stages@[k as int],
                    trace@ == run_order(self.stages@.take(k as int)) + stage@.take(m as int),
                decreases stage.len() - m,
            {
                let i: usize = stage[m];
                assert(self.stages()[k as int]@[m as int] < self.plugin_count());
                self.plugins[i].run();
                trace.push(i);
                proof {
                    assert(stage@.take(m as int).push(i) =~= stage@.take(m + 1));
                }
                m = m + 1;
            }
            proof {
                assert(stage@.take(stage.len() as int) =~= stage@);
                assert(self.stages@.take(k + 1).drop_last() =~= self.stages@.take(k as int));
                assert(self.stages@.take(k + 1).last() == *stage);
            }
            k = k + 1;
        }
        proof {
            assert(self.stages@.take(self.stages.len() as int) =~= self.stages@);
        }
        trace
    }
}

impl<L: Send + Sync> Dispatcher<L> {
    /// Runs every stage in order on the worker pool: the plugins of one stage may run at the
    /// same time, and a stage begins only when every plugin of the stage before has returned.
    /// Returns, stage by stage, the places of the plugins that ran: in each stage those of
    /// the plan, each once for each time the stage holds it, in no stated order.
    pub fn dispatch_par(&self) -> (ran: Vec<Vec<usize>>)
        requires
            self.wf(),
        ensures
            ran@.len() == self.stages().len(),
            forall|k: int|
                0 <= k < ran@.len() ==> (#[trigger] ran@[k])@.to_multiset() == self.stages()[k]@.to_multiset(),
    {
        let mut ran: Vec<Vec<usize>> = Vec::new();
        let mut k: usize = 0;
        while k < self.stages.len()
            invariant
                k <= self.stages.len(),
                self.wf(),
                ran@.len() == k,
                forall|x: int|
                    0 <= x < k ==> (#[trigger] ran@[x])@.to_multiset() == self.stages@[x]@.to_multiset(),
            decreases self.stages.len() - k,
        {
            assert forall|m: int| 0 <= m < self.stages@[k as int]@.len() implies (#[trigger] self.stages@[k as int]@[m])
                < self.plugins.len() by {
                assert(self.stages()[k as int]@[m] < self.plugin_count());
            }
            let stage_ran = run_stage(&self.thread_pool, &self.plugins, &self.stages[k]);
            ran.push(stage_ran);
            k = k + 1;
        }
        ran
    }
}

} // verus!
