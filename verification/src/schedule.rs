//! The stage scheduler and application driver.
//!
//! Systems are named by `u64` identifiers; the surrounding application maps
//! each identifier to the function it stands for through a dispatcher it
//! hands to the driver. Within a stage, systems run strictly in registration
//! order; a later system observes every effect of the earlier ones. A system
//! failure is fatal: it stops the driver at once, before any further system
//! runs, and is surfaced with the failing stage and system identified.
//!
//! The driver itself moves `Uninitialized -> Initialized -> Running ->
//! Stopped`. The surrounding application owns the outer loop (polling the
//! event source is its business) and calls `init` once, `start` once, then
//! `dispatch_event` per polled event and `tick` once per frame.

use vstd::prelude::*;
use vstd::seq_lib::*;
use crate::world::World;

verus! {

/// A named phase of the per-tick loop. The stages form a fixed total order:
/// `Init` runs once when the driver is initialized, `Start` once when it
/// begins running; each tick then dispatches one `Event` pass per pending
/// event and runs `PreDraw`, `Draw` and `PostDraw`, in that order.
#[derive(Clone, Copy, PartialEq, Eq, Structural, Debug, Hash)]
pub enum Stage {
    Init,
    Start,
    Event,
    PreDraw,
    Draw,
    PostDraw,
}

/// The driver's lifecycle.
#[derive(Clone, Copy, PartialEq, Eq, Structural, Debug)]
pub enum DriverState {
    Uninitialized,
    Initialized,
    Running,
    Stopped,
}

/// A fatal failure: the system that failed, the stage it ran under, and its
/// own error. Surfacing it stops the driver; it is not retried.
#[derive(Debug)]
pub struct SystemFailure<E> {
    pub stage: Stage,
    pub system: u64,
    pub error: E,
}

/// The systems of `systems` registered under `stage`, in registration order.
pub open spec fn stage_plan(systems: Seq<(Stage, u64)>, stage: Stage) -> Seq<u64>
    decreases systems.len(),
{
    if systems.len() == 0 {
        Seq::empty()
    } else {
        let rest = stage_plan(systems.drop_last(), stage);
        if systems.last().0 == stage {
            rest.push(systems.last().1)
        } else {
            rest
        }
    }
}

/// Registering one more system extends exactly its own stage's plan, at the
/// end, and no other stage's: within a stage, systems run in registration
/// order, and stages never borrow each other's systems.
pub proof fn lemma_stage_plan_push(systems: Seq<(Stage, u64)>, stage: Stage, s2: Stage, id: u64)
    ensures
        stage_plan(systems.push((s2, id)), stage) == if s2 == stage {
            stage_plan(systems, stage).push(id)
        } else {
            stage_plan(systems, stage)
        },
{
    assert(systems.push((s2, id)).drop_last() =~= systems);
}

/// `b` is `a` with its queued system registrations emptied and nothing else
/// changed: same entities, names, components, resources and cached assets.
pub open spec fn drained<V>(a: World<V>, b: World<V>) -> bool {
    &&& b.pending_view() == Seq::<(Stage, u64)>::empty()
    &&& forall|e: crate::world::Entity| b.live(e) == a.live(e)
    &&& forall|e: crate::world::Entity| b.known(e) == a.known(e)
    &&& forall|e: crate::world::Entity| b.name_of(e) == a.name_of(e)
    &&& forall|k: u64| b.components(k) == a.components(k)
    &&& forall|k: u64| b.resource_at(k) == a.resource_at(k)
    &&& forall|k: u64, p: Seq<char>| b.asset_at(k, p) == a.asset_at(k, p)
}

/// `b` is `a` with the singleton resource of type `key` rebound to `event`
/// and nothing else changed.
pub open spec fn event_registered<V>(a: World<V>, key: u64, event: V, b: World<V>) -> bool {
    &&& b.resource_at(key) == Some(event)
    &&& forall|k2: u64| k2 != key ==> b.resource_at(k2) == a.resource_at(k2)
    &&& forall|e: crate::world::Entity| b.live(e) == a.live(e)
    &&& forall|e: crate::world::Entity| b.known(e) == a.known(e)
    &&& forall|e: crate::world::Entity| b.name_of(e) == a.name_of(e)
    &&& forall|k: u64| b.components(k) == a.components(k)
    &&& forall|k: u64, p: Seq<char>| b.asset_at(k, p) == a.asset_at(k, p)
    &&& b.pending_view() == a.pending_view()
}

/// A stage result read as the failing system's own error, stripped of the
/// stage and system identification.
pub open spec fn surfaced<E>(r: Result<(), SystemFailure<E>>) -> Result<(), E> {
    match r {
        Ok(u) => Ok(u),
        Err(f) => Err(f.error),
    }
}

/// The execution relation of one stage run: `dispatch` was called on every
/// identifier of `ids` in order, each call receiving the world the previous
/// call left, with its queued registrations drained and adopted at the end of
/// the registration list. The run ends in `w1` with list `systems1`; the
/// outcome is `Ok` when every call returned `Ok`, and otherwise the error of
/// the last identifier's call, which halted the run.
pub open spec fn dispatch_chain<V, E, F: Fn(u64, World<V>) -> (World<V>, Result<(), E>)>(
    dispatch: F,
    w0: World<V>,
    systems0: Seq<(Stage, u64)>,
    ids: Seq<u64>,
    w1: World<V>,
    systems1: Seq<(Stage, u64)>,
    outcome: Result<(), E>,
) -> bool
    decreases ids.len(),
{
    if ids.len() == 0 {
        &&& w1 == w0
        &&& systems1 == systems0
        &&& outcome is Ok
    } else {
        exists|wmid: World<V>, wd: World<V>, res: Result<(), E>|
            #![trigger call_ensures(dispatch, (ids.first(), w0), (wmid, res)), drained(wmid, wd)]
            {
                &&& call_ensures(dispatch, (ids.first(), w0), (wmid, res))
                &&& drained(wmid, wd)
                &&& match res {
                    Ok(_) => dispatch_chain(
                        dispatch,
                        wd,
                        systems0 + wmid.pending_view(),
                        ids.drop_first(),
                        w1,
                        systems1,
                        outcome,
                    ),
                    Err(e) => {
                        &&& ids.len() == 1
                        &&& w1 == wd
                        &&& systems1 == systems0 + wmid.pending_view()
                        &&& outcome == Err::<(), E>(e)
                    },
                }
            }
    }
}

/// A chain over no identifiers moves nothing: the world and the registration
/// list come out exactly as they went in, and nothing can have failed.
pub proof fn lemma_chain_empty<V, E, F: Fn(u64, World<V>) -> (World<V>, Result<(), E>)>(
    dispatch: F,
    w0: World<V>,
    systems0: Seq<(Stage, u64)>,
    ids: Seq<u64>,
    w1: World<V>,
    systems1: Seq<(Stage, u64)>,
    outcome: Result<(), E>,
)
    requires
        ids.len() == 0,
        dispatch_chain(dispatch, w0, systems0, ids, w1, systems1, outcome),
    ensures
        w1 == w0,
        systems1 == systems0,
        outcome is Ok,
{
}

/// Peeling the first call off a chain: it happened on `w0` and returned the
/// witnessed world and result; its queued registrations were adopted, and the
/// rest of the chain runs from the drained world — unless that first call
/// already failed, in which case it was the only one and its error surfaced.
pub proof fn lemma_chain_step<V, E, F: Fn(u64, World<V>) -> (World<V>, Result<(), E>)>(
    dispatch: F,
    w0: World<V>,
    systems0: Seq<(Stage, u64)>,
    ids: Seq<u64>,
    w1: World<V>,
    systems1: Seq<(Stage, u64)>,
    outcome: Result<(), E>,
) -> (step: (World<V>, World<V>, Result<(), E>))
    requires
        ids.len() > 0,
        dispatch_chain(dispatch, w0, systems0, ids, w1, systems1, outcome),
    ensures
        call_ensures(dispatch, (ids.first(), w0), (step.0, step.2)),
        drained(step.0, step.1),
        (match step.2 {
            Ok(_) => dispatch_chain(
                dispatch,
                step.1,
                systems0 + step.0.pending_view(),
                ids.drop_first(),
                w1,
                systems1,
                outcome,
            ),
            Err(e) => ids.len() == 1 && w1 == step.1 && systems1 == systems0
                + step.0.pending_view() && outcome == Err::<(), E>(e),
        }),
{
    let (wmid, wd, res): (World<V>, World<V>, Result<(), E>) = choose|
        wmid: World<V>,
        wd: World<V>,
        res: Result<(), E>,
    |
        #![trigger call_ensures(dispatch, (ids.first(), w0), (wmid, res)), drained(wmid, wd)]
        {
            &&& call_ensures(dispatch, (ids.first(), w0), (wmid, res))
            &&& drained(wmid, wd)
            &&& match res {
                Ok(_) => dispatch_chain(
                    dispatch,
                    wd,
                    systems0 + wmid.pending_view(),
                    ids.drop_first(),
                    w1,
                    systems1,
                    outcome,
                ),
                Err(e) => {
                    &&& ids.len() == 1
                    &&& w1 == wd
                    &&& systems1 == systems0 + wmid.pending_view()
                    &&& outcome == Err::<(), E>(e)
                },
            }
        };
    (wmid, wd, res)
}

/// Extending a so-far successful chain by one more call: the new identifier
/// goes to the end, the adopted registrations to the end of the list, and the
/// outcome is the new call's result.
proof fn lemma_chain_snoc<V, E, F: Fn(u64, World<V>) -> (World<V>, Result<(), E>)>(
    dispatch: F,
    w0: World<V>,
    systems0: Seq<(Stage, u64)>,
    ids: Seq<u64>,
    w1: World<V>,
    systems1: Seq<(Stage, u64)>,
    id: u64,
    wmid: World<V>,
    wd: World<V>,
    res: Result<(), E>,
)
    requires
        dispatch_chain(dispatch, w0, systems0, ids, w1, systems1, Ok::<(), E>(())),
        call_ensures(dispatch, (id, w1), (wmid, res)),
        drained(wmid, wd),
    ensures
        dispatch_chain(
            dispatch,
            w0,
            systems0,
            ids.push(id),
            wd,
            systems1 + wmid.pending_view(),
            (match res {
                Ok(_) => Ok::<(), E>(()),
                Err(e) => Err(e),
            }),
        ),
    decreases ids.len(),
{
    let ids2 = ids.push(id);
    if ids.len() == 0 {
        assert(w1 == w0 && systems1 == systems0);
        assert(ids2.first() == id);
        assert(ids2.drop_first() =~= Seq::<u64>::empty());
        assert(call_ensures(dispatch, (ids2.first(), w0), (wmid, res)));
        match res {
            Ok(_) => {
                assert(dispatch_chain(
                    dispatch,
                    wd,
                    systems0 + wmid.pending_view(),
                    ids2.drop_first(),
                    wd,
                    systems1 + wmid.pending_view(),
                    Ok::<(), E>(()),
                ));
            }
            Err(e) => {
                assert(ids2.len() == 1);
            }
        }
    } else {
        let (wm0, wd0, r0): (World<V>, World<V>, Result<(), E>) = choose|
            wm0: World<V>,
            wd0: World<V>,
            r0: Result<(), E>,
        |
            #![trigger call_ensures(dispatch, (ids.first(), w0), (wm0, r0)), drained(wm0, wd0)]
            {
                &&& call_ensures(dispatch, (ids.first(), w0), (wm0, r0))
                &&& drained(wm0, wd0)
                &&& match r0 {
                    Ok(_) => dispatch_chain(
                        dispatch,
                        wd0,
                        systems0 + wm0.pending_view(),
                        ids.drop_first(),
                        w1,
                        systems1,
                        Ok::<(), E>(()),
                    ),
                    Err(e0) => {
                        &&& ids.len() == 1
                        &&& w1 == wd0
                        &&& systems1 == systems0 + wm0.pending_view()
                        &&& Ok::<(), E>(()) == Err::<(), E>(e0)
                    },
                }
            };
        assert(r0 is Ok);
        lemma_chain_snoc(
            dispatch,
            wd0,
            systems0 + wm0.pending_view(),
            ids.drop_first(),
            w1,
            systems1,
            id,
            wmid,
            wd,
            res,
        );
        assert(ids2.first() == ids.first());
        assert(ids2.drop_first() =~= ids.drop_first().push(id));
        assert(call_ensures(dispatch, (ids2.first(), w0), (wm0, r0)));
        assert(drained(wm0, wd0));
    }
}

/// One successful tick read as a relation: from world `w0` and registrations
/// `s0`, the whole PreDraw plan chains to some intermediate state, the Draw
/// plan of that state chains on, and the PostDraw plan of the next state
/// chains to `w1` and `s1`; `ids` is the three plans in order.
pub open spec fn tick_ok_chain<V, E, F: Fn(u64, World<V>) -> (World<V>, Result<(), E>)>(
    dispatch: F,
    w0: World<V>,
    s0: Seq<(Stage, u64)>,
    ids: Seq<u64>,
    w1: World<V>,
    s1: Seq<(Stage, u64)>,
) -> bool {
    exists|wa: World<V>, sa: Seq<(Stage, u64)>, wb: World<V>, sb: Seq<(Stage, u64)>|
        #![trigger dispatch_chain(dispatch, w0, s0, stage_plan(s0, Stage::PreDraw), wa, sa, Ok::<(), E>(())), dispatch_chain(dispatch, wb, sb, stage_plan(sb, Stage::PostDraw), w1, s1, Ok::<(), E>(()))]
        {
            &&& dispatch_chain(dispatch, w0, s0, stage_plan(s0, Stage::PreDraw), wa, sa, Ok::<(), E>(()))
            &&& dispatch_chain(dispatch, wa, sa, stage_plan(sa, Stage::Draw), wb, sb, Ok::<(), E>(()))
            &&& dispatch_chain(dispatch, wb, sb, stage_plan(sb, Stage::PostDraw), w1, s1, Ok::<(), E>(()))
            &&& ids == stage_plan(s0, Stage::PreDraw) + stage_plan(sa, Stage::Draw) + stage_plan(
                sb,
                Stage::PostDraw,
            )
        }
}

/// A tick halted in its Draw stage: the whole PreDraw plan chained, then a
/// prefix of the Draw plan chained to `w1` and `s1`, its last call failing
/// with `e`; `ids` is the PreDraw plan followed by that prefix.
pub open spec fn tick_draw_failure_chain<V, E, F: Fn(u64, World<V>) -> (World<V>, Result<(), E>)>(
    dispatch: F,
    w0: World<V>,
    s0: Seq<(Stage, u64)>,
    ids: Seq<u64>,
    w1: World<V>,
    s1: Seq<(Stage, u64)>,
    e: E,
) -> bool {
    exists|wa: World<V>, sa: Seq<(Stage, u64)>, ib: Seq<u64>|
        #![trigger dispatch_chain(dispatch, wa, sa, ib, w1, s1, Err::<(), E>(e))]
        {
            &&& dispatch_chain(dispatch, w0, s0, stage_plan(s0, Stage::PreDraw), wa, sa, Ok::<(), E>(()))
            &&& ib.is_prefix_of(stage_plan(sa, Stage::Draw))
            &&& ids == stage_plan(s0, Stage::PreDraw) + ib
            &&& dispatch_chain(dispatch, wa, sa, ib, w1, s1, Err::<(), E>(e))
        }
}

/// A tick halted in its PostDraw stage: the whole PreDraw and Draw plans
/// chained, then a prefix of the PostDraw plan chained to `w1` and `s1`, its
/// last call failing with `e`; `ids` is the two plans followed by that prefix.
pub open spec fn tick_postdraw_failure_chain<
    V,
    E,
    F: Fn(u64, World<V>) -> (World<V>, Result<(), E>),
>(
    dispatch: F,
    w0: World<V>,
    s0: Seq<(Stage, u64)>,
    ids: Seq<u64>,
    w1: World<V>,
    s1: Seq<(Stage, u64)>,
    e: E,
) -> bool {
    exists|wa: World<V>, sa: Seq<(Stage, u64)>, wb: World<V>, sb: Seq<(Stage, u64)>, ic: Seq<u64>|
        #![trigger dispatch_chain(dispatch, wa, sa, stage_plan(sa, Stage::Draw), wb, sb, Ok::<(), E>(())), dispatch_chain(dispatch, wb, sb, ic, w1, s1, Err::<(), E>(e))]
        {
            &&& dispatch_chain(dispatch, w0, s0, stage_plan(s0, Stage::PreDraw), wa, sa, Ok::<(), E>(()))
            &&& dispatch_chain(dispatch, wa, sa, stage_plan(sa, Stage::Draw), wb, sb, Ok::<(), E>(()))
            &&& ic.is_prefix_of(stage_plan(sb, Stage::PostDraw))
            &&& ids == stage_plan(s0, Stage::PreDraw) + stage_plan(sa, Stage::Draw) + ic
            &&& dispatch_chain(dispatch, wb, sb, ic, w1, s1, Err::<(), E>(e))
        }
}

/// The application driver: it owns the world, the registered systems in
/// registration order, and its own lifecycle state.
pub struct Engine<V> {
    world: World<V>,
    systems: Vec<(Stage, u64)>,
    state: DriverState,
}

impl<V> Engine<V> {
    /// The world the driver owns.
    pub closed spec fn spec_world(self) -> World<V> {
        self.world
    }

    /// The registered systems, in registration order.
    pub closed spec fn systems_view(self) -> Seq<(Stage, u64)> {
        self.systems@
    }

    /// Where the driver stands in its lifecycle.
    pub closed spec fn driver_state(self) -> DriverState {
        self.state
    }

    /// A fresh driver around an empty world, not yet initialized.
    pub fn new() -> (r: Engine<V>)
        ensures
            r.spec_world().wf(),
            r.systems_view() == Seq::<(Stage, u64)>::empty(),
            r.driver_state() == DriverState::Uninitialized,
            forall|e: crate::world::Entity| !r.spec_world().live(e) && !r.spec_world().known(e),
            forall|k: u64|
                r.spec_world().components(k) == Seq::<(crate::world::Entity, V)>::empty(),
            forall|k: u64| r.spec_world().resource_at(k) == None::<V>,
            forall|k: u64, p: Seq<char>| r.spec_world().asset_at(k, p) == None::<V>,
            r.spec_world().pending_view() == Seq::<(Stage, u64)>::empty(),
    {
        Engine { world: World::new(), systems: Vec::new(), state: DriverState::Uninitialized }
    }

    /// The driver's current lifecycle state.
    pub fn current_state(&self) -> (r: DriverState)
        ensures
            r == self.driver_state(),
    {
        self.state
    }

    /// Shared access to the world the driver owns.
    pub fn world(&self) -> (r: &World<V>)
        ensures
            *r == self.spec_world(),
    {
        &self.world
    }

    /// Exclusive access to the world the driver owns; registrations and the
    /// lifecycle state are untouched by whatever the caller does through it.
    pub fn world_mut(&mut self) -> (r: &mut World<V>)
        ensures
            *r == old(self).spec_world(),
            final(self).spec_world() == *final(r),
            final(self).systems_view() == old(self).systems_view(),
            final(self).driver_state() == old(self).driver_state(),
    {
        &mut self.world
    }

    /// Registers the system named `system` under `stage`, after every system
    /// registered so far.
    pub fn add_system(&mut self, stage: Stage, system: u64)
        ensures
            final(self).systems_view() == old(self).systems_view().push((stage, system)),
            final(self).spec_world() == old(self).spec_world(),
            final(self).driver_state() == old(self).driver_state(),
    {
        self.systems.push((stage, system));
    }

    fn plan_for(&self, stage: Stage) -> (r: Vec<u64>)
        ensures
            r@ == stage_plan(self.systems_view(), stage),
    {
        let mut r: Vec<u64> = Vec::new();
        let n = self.systems.len();
        let mut i: usize = 0;
        while i < n
            invariant
                i <= n,
                n == self.systems@.len(),
                r@ == stage_plan(self.systems@.take(i as int), stage),
            decreases n - i,
        {
            let p = self.systems[i];
            proof {
                assert(self.systems@.take(i + 1).drop_last() =~= self.systems@.take(i as int));
                assert(self.systems@.take(i + 1).last() == self.systems@[i as int]);
            }
            if p.0 == stage {
                r.push(p.1);
            }
            i += 1;
        }
        proof {
            assert(self.systems@.take(n as int) =~= self.systems@);
        }
        r
    }

    /// Runs every system registered under `stage`, in registration order,
    /// through `dispatch`, adopting queued registrations between systems.
    /// Returns the identifiers that ran, in order. The first failing system
    /// halts the stage at once; the result identifies it together with the
    /// stage and its error.
    fn run_stage<E, F: Fn(u64, World<V>) -> (World<V>, Result<(), E>)>(
        &mut self,
        stage: Stage,
        dispatch: &F,
    ) -> (r: (Vec<u64>, Result<(), SystemFailure<E>>))
        requires
            old(self).spec_world().wf(),
            forall|id: u64, w: World<V>| w.wf() ==> call_requires(*dispatch, (id, w)),
            forall|id: u64, w: World<V>, out: (World<V>, Result<(), E>)|
                w.wf() && #[trigger] call_ensures(*dispatch, (id, w), out) ==> out.0.wf(),
        ensures
            final(self).spec_world().wf(),
            final(self).driver_state() == old(self).driver_state(),
            old(self).systems_view().is_prefix_of(final(self).systems_view()),
            r.0@.is_prefix_of(stage_plan(old(self).systems_view(), stage)),
            r.1 is Ok ==> r.0@ == stage_plan(old(self).systems_view(), stage),
            r.1 matches Err(f) ==> {
                &&& f.stage == stage
                &&& r.0@.len() >= 1
                &&& f.system == r.0@.last()
            },
            // every returned identifier stands for one call of `dispatch`, in
            // order, the worlds threaded through and the queued registrations
            // adopted; a reported failure is the last call's own error
            dispatch_chain(
                *dispatch,
                old(self).spec_world(),
                old(self).systems_view(),
                r.0@,
                final(self).spec_world(),
                final(self).systems_view(),
                surfaced(r.1),
            ),
    {
        let plan = self.plan_for(stage);
        let mut executed: Vec<u64> = Vec::new();
        let n = plan.len();
        let mut i: usize = 0;
        proof {
            assert(executed@ =~= Seq::<u64>::empty());
        }
        while i < n
            invariant
                i <= n,
                n == plan@.len(),
                plan@ == stage_plan(old(self).systems_view(), stage),
                executed@ == plan@.take(i as int),
                self.world.wf(),
                self.state == old(self).state,
                old(self).systems_view().is_prefix_of(self.systems_view()),
                dispatch_chain(
                    *dispatch,
                    old(self).spec_world(),
                    old(self).systems_view(),
                    executed@,
                    self.world,
                    self.systems@,
                    Ok::<(), E>(()),
                ),
                forall|id: u64, w: World<V>| w.wf() ==> call_requires(*dispatch, (id, w)),
                forall|id: u64, w: World<V>, out: (World<V>, Result<(), E>)|
                    w.wf() && #[trigger] call_ensures(*dispatch, (id, w), out) ==> out.0.wf(),
            decreases n - i,
        {
            let id = plan[i];
            let ghost w_in = self.world;
            let ghost sys_in = self.systems@;
            let ghost executed_in = executed@;
            let mut w = World::new();
            core::mem::swap(&mut w, &mut self.world);
            let (w2, res) = dispatch(id, w);
            self.world = w2;
            let ghost w_mid = self.world;
            executed.push(id);
            proof {
                assert(executed@ =~= plan@.take(i + 1));
            }
            let mut queued = self.world.drain_pending();
            self.systems.append(&mut queued);
            proof {
                assert(old(self).systems_view().is_prefix_of(self.systems_view()));
                assert(drained(w_mid, self.world));
                assert(self.systems@ == sys_in + w_mid.pending_view());
                assert(call_ensures(*dispatch, (id, w_in), (w_mid, res)));
                lemma_chain_snoc(
                    *dispatch,
                    old(self).spec_world(),
                    old(self).systems_view(),
                    executed_in,
                    w_in,
                    sys_in,
                    id,
                    w_mid,
                    self.world,
                    res,
                );
                assert(executed@ == executed_in.push(id));
            }
            match res {
                Ok(()) => {}
                Err(error) => {
                    return (executed, Err(SystemFailure { stage, system: id, error }));
                }
            }
            i += 1;
        }
        proof {
            assert(executed@ =~= plan@);
        }
        (executed, Ok(()))
    }

    /// Initializes the driver: runs every `Init` system once, in registration
    /// order. Success leaves the driver `Initialized`; a failing system stops
    /// it at once, before any later `Init` system runs.
    pub fn init<E, F: Fn(u64, World<V>) -> (World<V>, Result<(), E>)>(&mut self, dispatch: &F) -> (r:
        (Vec<u64>, Result<(), SystemFailure<E>>))
        requires
            old(self).driver_state() == DriverState::Uninitialized,
            old(self).spec_world().wf(),
            forall|id: u64, w: World<V>| w.wf() ==> call_requires(*dispatch, (id, w)),
            forall|id: u64, w: World<V>, out: (World<V>, Result<(), E>)|
                w.wf() && #[trigger] call_ensures(*dispatch, (id, w), out) ==> out.0.wf(),
        ensures
            final(self).spec_world().wf(),
            old(self).systems_view().is_prefix_of(final(self).systems_view()),
            r.0@.is_prefix_of(stage_plan(old(self).systems_view(), Stage::Init)),
            r.1 is Ok ==> final(self).driver_state() == DriverState::Initialized && r.0@
                == stage_plan(old(self).systems_view(), Stage::Init),
            r.1 matches Err(f) ==> {
                &&& final(self).driver_state() == DriverState::Stopped
                &&& f.stage == Stage::Init
                &&& r.0@.len() >= 1
                &&& f.system == r.0@.last()
            },
            // each returned identifier is one call of `dispatch`, in order,
            // worlds threaded through; a reported failure is the last call's error
            dispatch_chain(
                *dispatch,
                old(self).spec_world(),
                old(self).systems_view(),
                r.0@,
                final(self).spec_world(),
                final(self).systems_view(),
                surfaced(r.1),
            ),
    {
        let r = self.run_stage(Stage::Init, dispatch);
        if r.1.is_ok() {
            self.state = DriverState::Initialized;
        } else {
            self.state = DriverState::Stopped;
        }
        r
    }

    /// Begins running: runs every `Start` system once, in registration
    /// order. Success leaves the driver `Running`; a failing system stops it
    /// at once, before any later `Start` system runs.
    pub fn start<E, F: Fn(u64, World<V>) -> (World<V>, Result<(), E>)>(&mut self, dispatch: &F) -> (r:
        (Vec<u64>, Result<(), SystemFailure<E>>))
        requires
            old(self).driver_state() == DriverState::Initialized,
            old(self).spec_world().wf(),
            forall|id: u64, w: World<V>| w.wf() ==> call_requires(*dispatch, (id, w)),
            forall|id: u64, w: World<V>, out: (World<V>, Result<(), E>)|
                w.wf() && #[trigger] call_ensures(*dispatch, (id, w), out) ==> out.0.wf(),
        ensures
            final(self).spec_world().wf(),
            old(self).systems_view().is_prefix_of(final(self).systems_view()),
            r.0@.is_prefix_of(stage_plan(old(self).systems_view(), Stage::Start)),
            r.1 is Ok ==> final(self).driver_state() == DriverState::Running && r.0@ == stage_plan(
                old(self).systems_view(),
                Stage::Start,
            ),
            r.1 matches Err(f) ==> {
                &&& final(self).driver_state() == DriverState::Stopped
                &&& f.stage == Stage::Start
                &&& r.0@.len() >= 1
                &&& f.system == r.0@.last()
            },
            // each returned identifier is one call of `dispatch`, in order,
            // worlds threaded through; a reported failure is the last call's error
            dispatch_chain(
                *dispatch,
                old(self).spec_world(),
                old(self).systems_view(),
                r.0@,
                final(self).spec_world(),
                final(self).systems_view(),
                surfaced(r.1),
            ),
    {
        let r = self.run_stage(Stage::Start, dispatch);
        if r.1.is_ok() {
            self.state = DriverState::Running;
        } else {
            self.state = DriverState::Stopped;
        }
        r
    }

    /// Dispatches one polled event: registers it as the transient resource
    /// of type `key` and runs every `Event` system once, in registration
    /// order. A failing system stops the driver at once.
    pub fn dispatch_event<E, F: Fn(u64, World<V>) -> (World<V>, Result<(), E>)>(
        &mut self,
        key: u64,
        event: V,
        dispatch: &F,
    ) -> (r: (Vec<u64>, Result<(), SystemFailure<E>>))
        requires
            old(self).driver_state() == DriverState::Running,
            old(self).spec_world().wf(),
            forall|id: u64, w: World<V>| w.wf() ==> call_requires(*dispatch, (id, w)),
            forall|id: u64, w: World<V>, out: (World<V>, Result<(), E>)|
                w.wf() && #[trigger] call_ensures(*dispatch, (id, w), out) ==> out.0.wf(),
        ensures
            final(self).spec_world().wf(),
            old(self).systems_view().is_prefix_of(final(self).systems_view()),
            r.0@.is_prefix_of(stage_plan(old(self).systems_view(), Stage::Event)),
            r.1 is Ok ==> final(self).driver_state() == DriverState::Running && r.0@ == stage_plan(
                old(self).systems_view(),
                Stage::Event,
            ),
            r.1 matches Err(f) ==> {
                &&& final(self).driver_state() == DriverState::Stopped
                &&& f.stage == Stage::Event
                &&& r.0@.len() >= 1
                &&& f.system == r.0@.last()
            },
            // the polled event is registered under `key` first, and the stage
            // then runs on that world, one call of `dispatch` per identifier
            exists|we: World<V>|
                {
                    &&& #[trigger] event_registered(old(self).spec_world(), key, event, we)
                    &&& dispatch_chain(
                        *dispatch,
                        we,
                        old(self).systems_view(),
                        r.0@,
                        final(self).spec_world(),
                        final(self).systems_view(),
                        surfaced(r.1),
                    )
                },
    {
        self.world.add_resource(key, event);
        proof {
            assert(event_registered(old(self).spec_world(), key, event, self.world));
        }
        let r = self.run_stage(Stage::Event, dispatch);
        if r.1.is_ok() {
            self.state = DriverState::Running;
        } else {
            self.state = DriverState::Stopped;
        }
        r
    }

    /// Runs one tick: every `PreDraw` system, then every `Draw` system, then
    /// every `PostDraw` system, each stage in registration order, one call of
    /// `dispatch` per identifier with the worlds threaded through. The first
    /// failing system stops the driver at once: a `PreDraw` failure halts the
    /// tick before any `Draw` or `PostDraw` system runs.
    pub fn tick<E, F: Fn(u64, World<V>) -> (World<V>, Result<(), E>)>(&mut self, dispatch: &F) -> (r:
        (Vec<u64>, Result<(), SystemFailure<E>>))
        requires
            old(self).driver_state() == DriverState::Running,
            old(self).spec_world().wf(),
            forall|id: u64, w: World<V>| w.wf() ==> call_requires(*dispatch, (id, w)),
            forall|id: u64, w: World<V>, out: (World<V>, Result<(), E>)|
                w.wf() && #[trigger] call_ensures(*dispatch, (id, w), out) ==> out.0.wf(),
        ensures
            final(self).spec_world().wf(),
            old(self).systems_view().is_prefix_of(final(self).systems_view()),
            r.1 is Ok ==> final(self).driver_state() == DriverState::Running,
            r.1 matches Err(f) ==> final(self).driver_state() == DriverState::Stopped && (f.stage
                == Stage::PreDraw || f.stage == Stage::Draw || f.stage == Stage::PostDraw),
            // every PreDraw system runs before any later stage is entered
            stage_plan(old(self).systems_view(), Stage::PreDraw).is_prefix_of(r.0@) || (
            r.1 matches Err(f) && f.stage == Stage::PreDraw),
            // success: the whole PreDraw, Draw and PostDraw plans ran, in that
            // order, each plan read off the registrations its stage began with
            r.1 is Ok ==> tick_ok_chain(
                *dispatch,
                old(self).spec_world(),
                old(self).systems_view(),
                r.0@,
                final(self).spec_world(),
                final(self).systems_view(),
            ),
            // a PreDraw failure halts the tick: nothing but PreDraw systems
            // ran, and the chain ends at the failing system's own error
            (match r.1 {
                Err(f) => f.stage == Stage::PreDraw ==> r.0@.is_prefix_of(
                    stage_plan(old(self).systems_view(), Stage::PreDraw),
                ) && dispatch_chain(
                    *dispatch,
                    old(self).spec_world(),
                    old(self).systems_view(),
                    r.0@,
                    final(self).spec_world(),
                    final(self).systems_view(),
                    Err::<(), E>(f.error),
                ),
                Ok(_) => true,
            }),
            // a Draw failure: PreDraw ran whole, then Draw halted at its error
            (match r.1 {
                Ok(_) => true,
                Err(f) => f.stage == Stage::Draw ==> tick_draw_failure_chain(
                    *dispatch,
                    old(self).spec_world(),
                    old(self).systems_view(),
                    r.0@,
                    final(self).spec_world(),
                    final(self).systems_view(),
                    f.error,
                ),
            }),
            // a PostDraw failure: PreDraw and Draw ran whole, then PostDraw
            // halted at its error
            (match r.1 {
                Ok(_) => true,
                Err(f) => f.stage == Stage::PostDraw ==> tick_postdraw_failure_chain(
                    *dispatch,
                    old(self).spec_world(),
                    old(self).systems_view(),
                    r.0@,
                    final(self).spec_world(),
                    final(self).systems_view(),
                    f.error,
                ),
            }),
    {
        let mut r = self.run_stage(Stage::PreDraw, dispatch);
        if let Err(f) = r.1 {
            self.state = DriverState::Stopped;
            return (r.0, Err(f));
        }
        let ghost wa = self.world;
        let ghost sa = self.systems@;
        let r2 = self.run_stage(Stage::Draw, dispatch);
        let mut executed = r.0;
        let mut e2 = r2.0;
        let ghost ib = e2@;
        executed.append(&mut e2);
        if let Err(f) = r2.1 {
            self.state = DriverState::Stopped;
            proof {
                assert(dispatch_chain(
                    *dispatch,
                    wa,
                    sa,
                    ib,
                    self.world,
                    self.systems@,
                    Err::<(), E>(f.error),
                ));
                assert(executed@ =~= stage_plan(old(self).systems_view(), Stage::PreDraw) + ib);
                assert(tick_draw_failure_chain(
                    *dispatch,
                    old(self).spec_world(),
                    old(self).systems_view(),
                    executed@,
                    self.world,
                    self.systems@,
                    f.error,
                ));
            }
            return (executed, Err(f));
        }
        let ghost wb = self.world;
        let ghost sb = self.systems@;
        let r3 = self.run_stage(Stage::PostDraw, dispatch);
        let mut e3 = r3.0;
        let ghost ic = e3@;
        executed.append(&mut e3);
        match r3.1 {
            Ok(()) => {
                proof {
                    assert(dispatch_chain(
                        *dispatch,
                        wa,
                        sa,
                        stage_plan(sa, Stage::Draw),
                        wb,
                        sb,
                        Ok::<(), E>(()),
                    ));
                    assert(dispatch_chain(
                        *dispatch,
                        wb,
                        sb,
                        stage_plan(sb, Stage::PostDraw),
                        self.world,
                        self.systems@,
                        Ok::<(), E>(()),
                    ));
                    assert(executed@ =~= stage_plan(old(self).systems_view(), Stage::PreDraw)
                        + stage_plan(sa, Stage::Draw) + stage_plan(sb, Stage::PostDraw));
                    assert(tick_ok_chain(
                        *dispatch,
                        old(self).spec_world(),
                        old(self).systems_view(),
                        executed@,
                        self.world,
                        self.systems@,
                    ));
                }
                (executed, Ok(()))
            }
            Err(f) => {
                self.state = DriverState::Stopped;
                proof {
                    assert(dispatch_chain(
                        *dispatch,
                        wa,
                        sa,
                        stage_plan(sa, Stage::Draw),
                        wb,
                        sb,
                        Ok::<(), E>(()),
                    ));
                    assert(dispatch_chain(
                        *dispatch,
                        wb,
                        sb,
                        ic,
                        self.world,
                        self.systems@,
                        Err::<(), E>(f.error),
                    ));
                    assert(executed@ =~= stage_plan(old(self).systems_view(), Stage::PreDraw)
                        + stage_plan(sa, Stage::Draw) + ic);
                    assert(tick_postdraw_failure_chain(
                        *dispatch,
                        old(self).spec_world(),
                        old(self).systems_view(),
                        executed@,
                        self.world,
                        self.systems@,
                        f.error,
                    ));
                }
                (executed, Err(f))
            }
        }
    }

    /// Stops the driver; no further stage execution happens through it.
    pub fn stop(&mut self)
        ensures
            final(self).driver_state() == DriverState::Stopped,
            final(self).spec_world() == old(self).spec_world(),
            final(self).systems_view() == old(self).systems_view(),
    {
        self.state = DriverState::Stopped;
    }
}

} // verus!
