//! The registry of models that share one environment, their plotted histories,
//! and the driver that advances them on every tick.
use vstd::prelude::*;
use std::collections::HashMap;
use crate::fixed::{clamp, clamp_fixed};
use crate::pid::{
    ConfigError, Environment, Model, Sample, Tuning, lemma_restart_deterministic,
    lemma_run_keeps_identity, lemma_same_dynamics_run, steps_for,
};

verus! {

broadcast use vstd::std_specs::hash::group_hash_axioms;

/// The simulated span of a batch evaluation, and the width of the running window (20.0).
pub const HORIZON: i64 = 20_000_000_000;

/// The step that a running simulation advances by on each tick (0.016).
pub const REALTIME_STEP: i64 = 16_000_000;

/// Shifts every point back by one real-time step and drops those that reach time zero.
pub open spec fn slide(s: Seq<Sample>) -> Seq<Sample>
    decreases s.len(),
{
    if s.len() == 0 {
        s
    } else {
        let rest = slide(s.drop_last());
        let t = s.last().time - REALTIME_STEP;
        if t > 0 {
            rest.push(Sample { time: t as i64, value: s.last().value })
        } else {
            rest
        }
    }
}

/// A history fit for the running window: the clock lies in `[0, HORIZON]`, every point
/// lies after time zero and no later than the clock, and points come in time order,
/// at least one real-time step apart.
pub open spec fn window_ok(h: Seq<Sample>, elapsed: int) -> bool {
    &&& 0 <= elapsed <= HORIZON
    &&& forall|k: int| 0 <= k < h.len() ==> 0 < (#[trigger] h[k]).time <= elapsed
    &&& spaced(h)
}

/// Points in time order, at least one real-time step apart.
pub open spec fn spaced(h: Seq<Sample>) -> bool {
    forall|j: int, k: int| 0 <= j < k < h.len() ==> #[trigger] h[j].time + REALTIME_STEP <= #[trigger] h[k].time
}

/// A model once recomputed in batch: reset, then run over the horizon, and clean.
pub open spec fn recomputed(m: Model, env: Environment) -> Model {
    Model {
        dirty: false,
        ..m.restarted().run(env, env.timestep as int, steps_for(HORIZON as int, env.timestep as int))
    }
}

/// The history that a batch recomputation of `m` yields.
pub open spec fn recomputed_history(m: Model, env: Environment) -> Seq<Sample> {
    m.restarted().trajectory(env, env.timestep as int, steps_for(HORIZON as int, env.timestep as int))
}

/// A model after one real-time step, its clock held at the horizon.
pub open spec fn advanced(m: Model, env: Environment) -> Model {
    let s = m.step(env, REALTIME_STEP as int);
    if s.elapsed_time > HORIZON {
        Model { elapsed_time: HORIZON, ..s }
    } else {
        s
    }
}

/// A history after one real-time step: the new point appended, and the window slid once
/// the clock has passed the horizon.
pub open spec fn advanced_history(m: Model, env: Environment, h: Seq<Sample>) -> Seq<Sample> {
    let s = m.step(env, REALTIME_STEP as int);
    let grown = h.push(s.sample());
    if s.elapsed_time > HORIZON {
        slide(grown)
    } else {
        grown
    }
}

/// A model's clock as running mode starts: brought into `[0, HORIZON]`.
pub open spec fn entered(m: Model) -> Model {
    Model { elapsed_time: clamp(m.elapsed_time as int, 0, HORIZON as int) as i64, ..m }
}

/// A history as running mode starts: kept if it fits the window, else emptied.
pub open spec fn entered_history(m: Model, h: Seq<Sample>) -> Seq<Sample> {
    if window_ok(h, clamp(m.elapsed_time as int, 0, HORIZON as int)) {
        h
    } else {
        Seq::empty()
    }
}

/// Whether a model has an identity other than `id`.
pub open spec fn other_than(id: u64) -> spec_fn(Model) -> bool {
    |m: Model| m.id != id
}

/// Filtering out an identity that no model has keeps every model.
proof fn lemma_filter_keeps_all(t: Seq<Model>, id: u64)
    requires
        forall|k: int| 0 <= k < t.len() ==> (#[trigger] t[k]).id != id,
    ensures
        t.filter(other_than(id)) == t,
    decreases t.len(),
{
    reveal(Seq::filter);
    if t.len() > 0 {
        let init = t.drop_last();
        assert forall|k: int| 0 <= k < init.len() implies (#[trigger] init[k]).id != id by {
            assert(init[k] == t[k]);
        }
        lemma_filter_keeps_all(init, id);
        assert(init.push(t.last()) =~= t);
    }
}

/// What a registry holds, as mathematical values.
pub struct AppView {
    pub models: Seq<Model>,
    pub env: Environment,
    pub histories: Map<u64, Vec<Sample>>,
    pub realtime: bool,
    pub last_model_id: u64,
    pub all_dirty: bool,
}

impl AppView {
    /// Whether some model has identity `id`.
    pub open spec fn has_id(self, id: u64) -> bool {
        exists|i: int| 0 <= i < self.models.len() && #[trigger] self.models[i].id == id
    }

    /// The position of the model with identity `id`.
    pub open spec fn index_of(self, id: u64) -> int {
        choose|i: int| 0 <= i < self.models.len() && #[trigger] self.models[i].id == id
    }

    /// Identities are unique and below the counter, every limit is non-negative, the
    /// environment is usable, exactly the models' identities have a history, and while
    /// running every history fits the window.
    pub open spec fn wf(self) -> bool {
        &&& self.env.wf()
        &&& forall|i: int|
            0 <= i < self.models.len() ==> {
                &&& (#[trigger] self.models[i]).id < self.last_model_id
                &&& self.models[i].max_accel >= 0
            }
        &&& forall|i: int, j: int|
            0 <= i < j < self.models.len() ==> #[trigger] self.models[i].id
                != #[trigger] self.models[j].id
        &&& forall|id: u64| #[trigger] self.histories.contains_key(id) <==> self.has_id(id)
        &&& self.realtime ==> self.windowed()
    }

    /// Every model's history is fit for the running window.
    pub open spec fn windowed(self) -> bool {
        forall|i: int|
            0 <= i < self.models.len() ==> window_ok(
                self.histories[(#[trigger] self.models[i]).id]@,
                self.models[i].elapsed_time as int,
            )
    }

    /// Whether `after` is `self` after one tick of the driver: running, every model
    /// advances one real-time step; paused, every model that needs it (all of them when
    /// the environment changed) is recomputed in batch; the pending change is consumed.
    pub open spec fn ticked(self, after: AppView) -> bool {
        &&& after.models.len() == self.models.len()
        &&& after.histories.dom() == self.histories.dom()
        &&& after.env == self.env
        &&& after.realtime == self.realtime
        &&& after.last_model_id == self.last_model_id
        &&& !after.all_dirty
        &&& forall|i: int|
            0 <= i < self.models.len() ==> {
                let m = #[trigger] self.models[i];
                if self.realtime {
                    &&& after.models[i] == advanced(m, self.env)
                    &&& after.histories[m.id]@ == advanced_history(m, self.env, self.histories[m.id]@)
                } else if self.all_dirty || m.dirty {
                    &&& after.models[i] == recomputed(m, self.env)
                    &&& after.histories[m.id]@ == recomputed_history(m, self.env)
                } else {
                    &&& after.models[i] == m
                    &&& after.histories[m.id] == self.histories[m.id]
                }
            }
    }

    /// `post` is well formed when it differs from a well-formed `self` only in the
    /// models' contents, with identities kept and limits non-negative.
    proof fn lemma_wf_kept(self, post: AppView)
        requires
            self.wf(),
            post.models.len() == self.models.len(),
            forall|i: int| 0 <= i < self.models.len() ==> (#[trigger] post.models[i]).id == self.models[i].id,
            forall|i: int| 0 <= i < self.models.len() ==> (#[trigger] post.models[i]).max_accel >= 0,
            post.histories.dom() == self.histories.dom(),
            post.env.wf(),
            post.last_model_id == self.last_model_id,
            post.realtime ==> post.windowed(),
        ensures
            post.wf(),
    {
        let pre = self;
        assert forall|k: u64| #[trigger] post.histories.contains_key(k) <==> post.has_id(k) by {
            assert(pre.histories.contains_key(k) <==> pre.has_id(k));
            if post.has_id(k) {
                let j = choose|j: int| 0 <= j < post.models.len() && #[trigger] post.models[j].id == k;
                assert(pre.models[j].id == k);
            }
            if pre.has_id(k) {
                let j = choose|j: int| 0 <= j < pre.models.len() && #[trigger] pre.models[j].id == k;
                assert(post.models[j].id == k);
            }
        }
        assert forall|a: int, b: int| 0 <= a < b < post.models.len() implies #[trigger] post.models[a].id
            != #[trigger] post.models[b].id by {
            assert(pre.models[a].id != pre.models[b].id);
        }
    }

    /// `post` fits the window when a fitting `self` differs from it only in what models
    /// hold besides their identity and clock.
    proof fn lemma_windowed_frame(self, post: AppView)
        requires
            self.windowed(),
            post.models.len() == self.models.len(),
            forall|i: int|
                0 <= i < self.models.len() ==> (#[trigger] post.models[i]).id == self.models[i].id
                    && post.models[i].elapsed_time == self.models[i].elapsed_time,
            forall|i: int|
                0 <= i < self.models.len() ==> post.histories[(#[trigger] self.models[i]).id]
                    == self.histories[self.models[i].id],
        ensures
            post.windowed(),
    {
        assert forall|i: int| 0 <= i < post.models.len() implies window_ok(
            post.histories[(#[trigger] post.models[i]).id]@,
            post.models[i].elapsed_time as int,
        ) by {
            assert(post.models[i].id == self.models[i].id);
            assert(post.histories[self.models[i].id] == self.histories[self.models[i].id]);
        }
    }

    /// Whether `after` is `self` with a duplicate of the model `id`, under identity
    /// `new_id`, appended with an empty history.
    pub open spec fn duplicated(self, after: AppView, id: u64, new_id: u64) -> bool {
        let src = self.models[self.index_of(id)];
        let copy = after.models.last();
        &&& self.has_id(id)
        &&& new_id == self.last_model_id
        &&& after.models.len() == self.models.len() + 1
        &&& after.models.drop_last() == self.models
        &&& copy.id == new_id
        &&& copy.name@ == src.name@
        &&& copy.dirty
        &&& copy.same_dynamics(src)
        &&& after.histories == self.histories.insert(new_id, after.histories[new_id])
        &&& after.histories[new_id]@.len() == 0
        &&& after.last_model_id == self.last_model_id + 1
        &&& after.env == self.env
        &&& after.realtime == self.realtime
        &&& after.all_dirty == self.all_dirty
    }
}

/// Models sharing one environment, with the history plotted for each.
pub struct Application {
    models: Vec<Model>,
    env: Environment,
    values: HashMap<u64, Vec<Sample>>,
    realtime: bool,
    last_model_id: u64,
    all_dirty: bool,
}

impl View for Application {
    type V = AppView;

    closed spec fn view(&self) -> AppView {
        AppView {
            models: self.models@,
            env: self.env,
            histories: self.values@,
            realtime: self.realtime,
            last_model_id: self.last_model_id,
            all_dirty: self.all_dirty,
        }
    }
}

impl Default for Application {
    /// An empty, paused registry in the default environment.
    fn default() -> (r: Self)
        ensures
            r.wf(),
            r@.models.len() == 0,
            r@.histories.dom().is_empty(),
            r@.env == Environment::default_spec(),
            !r@.realtime,
            r@.last_model_id == 0,
            !r@.all_dirty,
    {
        Application::new()
    }
}

impl Application {
    /// The registry's invariant.
    pub open spec fn wf(&self) -> bool {
        self@.wf()
    }

    /// An empty, paused registry in the default environment.
    pub fn new() -> (r: Application)
        ensures
            r.wf(),
            r@.models.len() == 0,
            r@.histories.dom().is_empty(),
            r@.env == Environment::default_spec(),
            !r@.realtime,
            r@.last_model_id == 0,
            !r@.all_dirty,
    {
        let r = Application {
            models: Vec::new(),
            env: Environment::default(),
            values: HashMap::new(),
            realtime: false,
            last_model_id: 0,
            all_dirty: false,
        };
        assert(r@.histories.dom() =~= Set::empty());
        r
    }

    /// The models, in display order.
    pub fn models(&self) -> (r: &Vec<Model>)
        ensures
            r@ == self@.models,
    {
        &self.models
    }

    /// The shared environment.
    pub fn environment(&self) -> (r: Environment)
        ensures
            r == self@.env,
    {
        self.env
    }

    /// Whether the simulation runs continuously.
    pub fn is_realtime(&self) -> (r: bool)
        ensures
            r == self@.realtime,
    {
        self.realtime
    }

    /// The identity that the next new model will get.
    pub fn last_model_id(&self) -> (r: u64)
        ensures
            r == self@.last_model_id,
    {
        self.last_model_id
    }

    /// The history of the model `id`, if there is such a model.
    pub fn history(&self, id: u64) -> (r: Option<&Vec<Sample>>)
        ensures
            r is Some <==> self@.histories.contains_key(id),
            r matches Some(h) ==> *h == self@.histories[id],
    {
        self.values.get(&id)
    }

    /// The position of the model with identity `id`.
    fn find(&self, id: u64) -> (r: Option<usize>)
        requires
            self.wf(),
        ensures
            r is Some <==> self@.has_id(id),
            r matches Some(i) ==> i == self@.index_of(id) && i < self@.models.len(),
    {
        let mut i: usize = 0;
        while i < self.models.len()
            invariant
                self.wf(),
                i <= self.models@.len(),
                forall|j: int| 0 <= j < i ==> #[trigger] self.models@[j].id != id,
            decreases self.models@.len() - i,
        {
            if self.models[i].id == id {
                proof {
                    self.lemma_index_of(i as int);
                }
                return Some(i);
            }
            i += 1;
        }
        None
    }

    /// The model at position `i` is the one that `index_of` picks for its identity.
    proof fn lemma_index_of(&self, i: int)
        requires
            self.wf(),
            0 <= i < self@.models.len(),
        ensures
            self@.has_id(self@.models[i].id),
            self@.index_of(self@.models[i].id) == i,
    {
        let id = self@.models[i].id;
        assert(self@.has_id(id));
        let k = self@.index_of(id);
        if k != i {
            if k < i {
                assert(self@.models[k].id != self@.models[i].id);
            } else {
                assert(self@.models[i].id != self@.models[k].id);
            }
        }
    }

    /// Adds a model named `name` with a fresh identity and an empty history, marked dirty.
    pub fn add_model(&mut self, name: &str) -> (id: u64)
        requires
            old(self).wf(),
            old(self)@.last_model_id < u64::MAX,
        ensures
            final(self).wf(),
            id == old(self)@.last_model_id,
            final(self)@.models.len() == old(self)@.models.len() + 1,
            final(self)@.models.drop_last() == old(self)@.models,
            final(self)@.models.last().is_new(name@, id),
            final(self)@.models.last().dirty,
            final(self)@.histories == old(self)@.histories.insert(id, final(self)@.histories[id]),
            final(self)@.histories[id]@.len() == 0,
            final(self)@.last_model_id == id + 1,
            final(self)@.env == old(self)@.env,
            final(self)@.realtime == old(self)@.realtime,
            final(self)@.all_dirty == old(self)@.all_dirty,
    {
        let id = self.last_model_id;
        let mut model = Model::new(name, id);
        model.dirty = true;
        self.last_model_id = id + 1;
        self.values.insert(id, Vec::new());
        self.models.push(model);
        proof {
            let pre = old(self)@;
            let post = self@;
            assert(post.models.drop_last() =~= pre.models);
            assert forall|k: u64| #[trigger] post.histories.contains_key(k) <==> post.has_id(k) by {
                        assert(pre.histories.contains_key(k) <==> pre.has_id(k));
                if post.has_id(k) && k != id {
                    let j = choose|j: int| 0 <= j < post.models.len() && #[trigger] post.models[j].id == k;
                    assert(pre.models[j].id == k);
                }
                if pre.has_id(k) {
                    let j = choose|j: int| 0 <= j < pre.models.len() && #[trigger] pre.models[j].id == k;
                    assert(post.models[j].id == k);
                }
                if k == id {
                    assert(post.models[pre.models.len() as int].id == k);
                }
            }
        }
        id
    }

    /// Appends a copy of the model `id` (tuning, state and name) under a fresh identity,
    /// with an empty history and marked dirty; `None`, and no change, if there is no such
    /// model.
    pub fn duplicate(&mut self, id: u64) -> (r: Option<u64>)
        requires
            old(self).wf(),
            old(self)@.last_model_id < u64::MAX,
        ensures
            final(self).wf(),
            r is Some <==> old(self)@.has_id(id),
            r matches Some(new_id) ==> old(self)@.duplicated(final(self)@, id, new_id),
            r is None ==> final(self)@ == old(self)@,
    {
        match self.find(id) {
            None => None,
            Some(i) => {
                let new_id = self.last_model_id;
                let src = &self.models[i];
                let copy = Model {
                    id: new_id,
                    name: src.name.clone(),
                    accel: src.accel,
                    vel: src.vel,
                    value: src.value,
                    elapsed_time: src.elapsed_time,
                    max_accel: src.max_accel,
                    controller: src.controller,
                    dirty: true,
                };
                self.last_model_id = new_id + 1;
                self.values.insert(new_id, Vec::new());
                self.models.push(copy);
                proof {
                    let pre = old(self)@;
                    let post = self@;
                    assert(post.models.drop_last() =~= pre.models);
                    assert forall|k: u64| #[trigger] post.histories.contains_key(k) <==> post.has_id(k) by {
                        assert(pre.histories.contains_key(k) <==> pre.has_id(k));
                        if post.has_id(k) && k != new_id {
                            let j = choose|j: int| 0 <= j < post.models.len() && #[trigger] post.models[j].id == k;
                            assert(pre.models[j].id == k);
                        }
                        if pre.has_id(k) {
                            let j = choose|j: int| 0 <= j < pre.models.len() && #[trigger] pre.models[j].id == k;
                            assert(post.models[j].id == k);
                        }
                        if k == new_id {
                            assert(post.models[pre.models.len() as int].id == k);
                        }
                    }
                }
                Some(new_id)
            }
        }
    }

    /// Removes the model `id` and its history; with no such model, nothing changes.
    pub fn remove(&mut self, id: u64)
        requires
            old(self).wf(),
        ensures
            final(self).wf(),
            !final(self)@.has_id(id),
            !final(self)@.histories.contains_key(id),
            final(self)@.models == old(self)@.models.filter(other_than(id)),
            !old(self)@.has_id(id) ==> final(self)@ == old(self)@,
            old(self)@.has_id(id) ==> {
                &&& final(self)@.models == old(self)@.models.remove(old(self)@.index_of(id))
                &&& final(self)@.histories == old(self)@.histories.remove(id)
                &&& final(self)@.env == old(self)@.env
                &&& final(self)@.realtime == old(self)@.realtime
                &&& final(self)@.last_model_id == old(self)@.last_model_id
                &&& final(self)@.all_dirty == old(self)@.all_dirty
            },
    {
        match self.find(id) {
            None => {
                proof {
                    lemma_filter_keeps_all(self@.models, id);
                }
            },
            Some(i) => {
                self.models.remove(i);
                self.values.remove(&id);
                proof {
                    let pre = old(self)@;
                    let post = self@;
                    let n = pre.models.len();
                    let s = pre.models;
                    let p = other_than(id);
                    let a = s.subrange(0, i as int);
                    let x = seq![s[i as int]];
                    let b = s.subrange(i + 1, n as int);
                    assert(s =~= a + x + b);
                    assert forall|k: int| 0 <= k < a.len() implies (#[trigger] a[k]).id != id by {
                        assert(a[k] == s[k]);
                        assert(s[k].id != s[i as int].id);
                    }
                    assert forall|k: int| 0 <= k < b.len() implies (#[trigger] b[k]).id != id by {
                        assert(b[k] == s[i + 1 + k]);
                        assert(s[i as int].id != s[i + 1 + k].id);
                    }
                    lemma_filter_keeps_all(a, id);
                    lemma_filter_keeps_all(b, id);
                    Seq::filter_distributes_over_add(a + x, b, p);
                    Seq::filter_distributes_over_add(a, x, p);
                    reveal(Seq::filter);
                    assert(x.drop_last() =~= Seq::<Model>::empty());
                    lemma_filter_keeps_all(x.drop_last(), id);
                    assert(x.last() == s[i as int] && !p(x.last()));
                    assert(x.filter(p) =~= Seq::<Model>::empty());
                    assert(post.models =~= a + b);
                    assert forall|j: int| 0 <= j < post.models.len() implies #[trigger] post.models[j]
                        == pre.models[if j < i { j } else { j + 1 }] by {}
                    assert forall|k: u64| #[trigger] post.histories.contains_key(k) <==> post.has_id(k) by {
                        assert(pre.histories.contains_key(k) <==> pre.has_id(k));
                        if post.has_id(k) {
                            let j = choose|j: int| 0 <= j < post.models.len() && #[trigger] post.models[j].id == k;
                            let oj = if j < i { j } else { j + 1 };
                            assert(pre.models[oj].id == k);
                            assert(pre.models[i as int].id == id);
                            if oj < i {
                                assert(pre.models[oj].id != pre.models[i as int].id);
                            } else {
                                assert(pre.models[i as int].id != pre.models[oj].id);
                            }
                        }
                        if pre.has_id(k) && k != id {
                            let j = choose|j: int| 0 <= j < pre.models.len() && #[trigger] pre.models[j].id == k;
                            assert(j != i);
                            if j < i {
                                assert(post.models[j].id == k);
                            } else {
                                assert(post.models[j - 1].id == k);
                            }
                        }
                    }
                    assert forall|a: int, b: int| 0 <= a < b < post.models.len() implies #[trigger] post.models[a].id
                        != #[trigger] post.models[b].id by {
                        let oa = if a < i { a } else { a + 1 };
                        let ob = if b < i { b } else { b + 1 };
                        assert(pre.models[oa].id != pre.models[ob].id);
                    }
                    assert(post.models.len() == n - 1);
                }
            }
        }
    }

    /// Sets the gains and acceleration limit of the model `id`; the model is marked dirty
    /// when they change. A negative limit, or an unknown identity, is rejected.
    pub fn set_tuning(&mut self, id: u64, t: Tuning) -> (r: Result<(), ConfigError>)
        requires
            old(self).wf(),
        ensures
            final(self).wf(),
            r == (if t.max_accel < 0 {
                Err(ConfigError::NegativeAccelLimit)
            } else if !old(self)@.has_id(id) {
                Err(ConfigError::UnknownModel)
            } else {
                Ok(())
            }),
            r is Err ==> final(self)@ == old(self)@,
            r is Ok ==> final(self)@ == (AppView {
                models: old(self)@.models.update(
                    old(self)@.index_of(id),
                    old(self)@.models[old(self)@.index_of(id)].tuned(t),
                ),
                ..old(self)@
            }),
    {
        if t.max_accel < 0 {
            return Err(ConfigError::NegativeAccelLimit);
        }
        match self.find(id) {
            None => Err(ConfigError::UnknownModel),
            Some(i) => {
                self.models[i].set_tuning(t);
                proof {
                    if old(self)@.realtime {
                        old(self)@.lemma_windowed_frame(self@);
                    }
                    old(self)@.lemma_wf_kept(self@);
                }
                Ok(())
            },
        }
    }

    /// Renames the model `id`; an unknown identity is rejected.
    pub fn rename(&mut self, id: u64, name: String) -> (r: Result<(), ConfigError>)
        requires
            old(self).wf(),
        ensures
            final(self).wf(),
            r is Ok <==> old(self)@.has_id(id),
            r matches Err(e) ==> e == ConfigError::UnknownModel && final(self)@ == old(self)@,
            r is Ok ==> final(self)@ == (AppView {
                models: old(self)@.models.update(
                    old(self)@.index_of(id),
                    Model { name, ..old(self)@.models[old(self)@.index_of(id)] },
                ),
                ..old(self)@
            }),
    {
        match self.find(id) {
            None => Err(ConfigError::UnknownModel),
            Some(i) => {
                self.models[i].name = name;
                proof {
                    if old(self)@.realtime {
                        old(self)@.lemma_windowed_frame(self@);
                    }
                    old(self)@.lemma_wf_kept(self@);
                }
                Ok(())
            },
        }
    }

    /// Replaces the environment, rejecting an unusable one; any change marks every model
    /// for recomputation.
    pub fn set_environment(&mut self, env: Environment) -> (r: Result<(), ConfigError>)
        requires
            old(self).wf(),
        ensures
            final(self).wf(),
            r == Environment::spec_check(env),
            r is Err ==> final(self)@ == old(self)@,
            r is Ok ==> final(self)@ == (AppView {
                env,
                all_dirty: old(self)@.all_dirty || env != old(self)@.env,
                ..old(self)@
            }),
    {
        match env.check() {
            Err(e) => Err(e),
            Ok(()) => {
                if env != self.env {
                    self.all_dirty = true;
                }
                self.env = env;
                proof {
                    if old(self)@.realtime {
                        old(self)@.lemma_windowed_frame(self@);
                    }
                    old(self)@.lemma_wf_kept(self@);
                }
                Ok(())
            },
        }
    }

    /// Switches continuous simulation on or off. Switching it off leaves every clock and
    /// history as it is. Switching it on brings every clock into `[0, HORIZON]` and keeps
    /// each history that fits the running window there, emptying any other. A history
    /// holds points of one step size only: a batch history computed with a timestep
    /// below `REALTIME_STEP`, or one that ends past the horizon, does not fit and is
    /// emptied rather than shifted.
    pub fn set_realtime(&mut self, on: bool)
        requires
            old(self).wf(),
        ensures
            final(self).wf(),
            !(on && !old(self)@.realtime) ==> final(self)@ == (AppView {
                realtime: on,
                ..old(self)@
            }),
            on && !old(self)@.realtime ==> {
                &&& final(self)@.models.len() == old(self)@.models.len()
                &&& forall|i: int|
                    0 <= i < old(self)@.models.len() ==> {
                        let m = #[trigger] old(self)@.models[i];
                        &&& final(self)@.models[i] == entered(m)
                        &&& final(self)@.histories[m.id]@ == entered_history(
                            m,
                            old(self)@.histories[m.id]@,
                        )
                    }
                &&& final(self)@.histories.dom() == old(self)@.histories.dom()
                &&& final(self)@.env == old(self)@.env
                &&& final(self)@.realtime
                &&& final(self)@.last_model_id == old(self)@.last_model_id
                &&& final(self)@.all_dirty == old(self)@.all_dirty
            },
    {
        if !on || self.realtime {
            self.realtime = on;
            proof {
                if on {
                    old(self)@.lemma_windowed_frame(self@);
                }
                old(self)@.lemma_wf_kept(self@);
            }
            return;
        }
        let ghost pre = self@;
        let mut i: usize = 0;
        while i < self.models.len()
            invariant
                pre.wf(),
                i <= self@.models.len() == pre.models.len(),
                self@.env == pre.env,
                self@.realtime == pre.realtime,
                self@.last_model_id == pre.last_model_id,
                self@.all_dirty == pre.all_dirty,
                self@.histories.dom() == pre.histories.dom(),
                forall|j: int| 0 <= j < i ==> self@.models[j] == entered(#[trigger] pre.models[j]),
                forall|j: int| i <= j < pre.models.len() ==> self@.models[j] == #[trigger] pre.models[j],
                forall|j: int|
                    0 <= j < i ==> self@.histories[(#[trigger] pre.models[j]).id]@ == entered_history(
                        pre.models[j],
                        pre.histories[pre.models[j].id]@,
                    ),
                forall|j: int|
                    i <= j < pre.models.len() ==> self@.histories[(#[trigger] pre.models[j]).id]
                        == pre.histories[pre.models[j].id],
            decreases pre.models.len() - i,
        {
            let elapsed = clamp_fixed(self.models[i].elapsed_time, 0, HORIZON);
            self.models[i].elapsed_time = elapsed;
            let id = self.models[i].id;
            proof {
                assert(pre.has_id(pre.models[i as int].id));
                assert forall|j: int| 0 <= j < pre.models.len() && j != i implies (#[trigger] pre.models[j]).id
                    != id by {
                    if j < i {
                        assert(pre.models[j].id != pre.models[i as int].id);
                    } else {
                        assert(pre.models[i as int].id != pre.models[j].id);
                    }
                }
            }
            let fits = match self.values.get(&id) {
                Some(h) => fits_window(h, elapsed),
                None => true,
            };
            if !fits {
                self.values.insert(id, Vec::new());
                proof {
                    assert(self@.histories.dom() =~= pre.histories.dom());
                }
            }
            i += 1;
        }
        self.realtime = true;
        proof {
            let post = self@;
            assert forall|j: int| 0 <= j < pre.models.len() implies (#[trigger] post.models[j]).id
                == pre.models[j].id && post.models[j].max_accel >= 0 by {
                assert(post.models[j] == entered(pre.models[j]));
            }
            assert forall|j: int| 0 <= j < post.models.len() implies window_ok(
                post.histories[(#[trigger] post.models[j]).id]@,
                post.models[j].elapsed_time as int,
            ) by {
                assert(post.models[j] == entered(pre.models[j]));
                assert(post.histories[pre.models[j].id]@ == entered_history(
                    pre.models[j],
                    pre.histories[pre.models[j].id]@,
                ));
            }
            pre.lemma_wf_kept(self@);
        }
    }

    /// Brings every model back to rest at time zero and empties every history, when
    /// the simulation is running; when paused, nothing changes.
    pub fn reset_simulation(&mut self)
        requires
            old(self).wf(),
        ensures
            final(self).wf(),
            !old(self)@.realtime ==> final(self)@ == old(self)@,
            old(self)@.realtime ==> {
                &&& final(self)@.models.len() == old(self)@.models.len()
                &&& forall|i: int|
                    0 <= i < old(self)@.models.len() ==> final(self)@.models[i] == (#[trigger] old(
                        self,
                    )@.models[i]).restarted()
                &&& final(self)@.histories.dom() == old(self)@.histories.dom()
                &&& forall|id: u64| #[trigger]
                    final(self)@.histories.contains_key(id) ==> final(self)@.histories[id]@.len()
                        == 0
                &&& final(self)@.env == old(self)@.env
                &&& final(self)@.realtime == old(self)@.realtime
                &&& final(self)@.last_model_id == old(self)@.last_model_id
                &&& final(self)@.all_dirty == old(self)@.all_dirty
                &&& final(self)@.windowed()
            },
    {
        if !self.realtime {
            return;
        }
        let ghost pre = self@;
        let mut i: usize = 0;
        while i < self.models.len()
            invariant
                pre.wf(),
                i <= self@.models.len() == pre.models.len(),
                self@.env == pre.env,
                self@.realtime == pre.realtime,
                self@.last_model_id == pre.last_model_id,
                self@.all_dirty == pre.all_dirty,
                self@.histories.dom() == pre.histories.dom(),
                forall|j: int| 0 <= j < i ==> self@.models[j] == (#[trigger] pre.models[j]).restarted(),
                forall|j: int| i <= j < pre.models.len() ==> self@.models[j] == #[trigger] pre.models[j],
                forall|j: int| 0 <= j < i ==> self@.histories[(#[trigger] pre.models[j]).id]@.len() == 0,
                forall|j: int|
                    i <= j < pre.models.len() ==> self@.histories[(#[trigger] pre.models[j]).id]
                        == pre.histories[pre.models[j].id],
            decreases pre.models.len() - i,
        {
            self.models[i].reset();
            let id = self.models[i].id;
            self.values.insert(id, Vec::new());
            proof {
                assert(pre.has_id(pre.models[i as int].id));
                assert(self@.histories.dom() =~= pre.histories.dom());
                assert forall|j: int| 0 <= j < pre.models.len() && j != i implies (#[trigger] pre.models[j]).id
                    != id by {
                    if j < i {
                        assert(pre.models[j].id != pre.models[i as int].id);
                    } else {
                        assert(pre.models[i as int].id != pre.models[j].id);
                    }
                }
            }
            i += 1;
        }
        proof {
            let post = self@;
            assert forall|j: int| 0 <= j < pre.models.len() implies (#[trigger] post.models[j]).id
                == pre.models[j].id && post.models[j].max_accel >= 0 by {
                assert(post.models[j] == pre.models[j].restarted());
            }
            assert forall|id: u64| #[trigger] post.histories.contains_key(id) implies post.histories[id]@.len()
                == 0 by {
                assert(pre.histories.contains_key(id));
                assert(pre.has_id(id));
                let j = choose|j: int| 0 <= j < pre.models.len() && #[trigger] pre.models[j].id == id;
                assert(post.histories[pre.models[j].id]@.len() == 0);
            }
            assert forall|j: int| 0 <= j < post.models.len() implies window_ok(
                post.histories[(#[trigger] post.models[j]).id]@,
                post.models[j].elapsed_time as int,
            ) by {
                assert(post.models[j] == pre.models[j].restarted());
                assert(post.histories[pre.models[j].id]@.len() == 0);
            }
            pre.lemma_wf_kept(self@);
        }
    }

    /// Runs one tick of the driver: advances every model by one real-time step while
    /// running, otherwise recomputes in batch every model that needs it; then consumes
    /// the pending environment change.
    pub fn tick(&mut self)
        requires
            old(self).wf(),
        ensures
            final(self).wf(),
            old(self)@.ticked(final(self)@),
            final(self)@.realtime ==> final(self)@.windowed(),
    {
        if self.realtime {
            self.advance_all();
        } else {
            let all = self.all_dirty;
            self.recompute(all);
        }
        let ghost mid = self@;
        self.all_dirty = false;
        proof {
            if mid.realtime {
                mid.lemma_windowed_frame(self@);
            }
            mid.lemma_wf_kept(self@);
        }
    }

    /// Recomputes in batch every model that is dirty, or every model when `all` holds.
    fn recompute(&mut self, all: bool)
        requires
            old(self).wf(),
            !old(self)@.realtime,
            all == old(self)@.all_dirty,
        ensures
            final(self).wf(),
            old(self)@.ticked(AppView { all_dirty: false, ..final(self)@ }),
            final(self)@.all_dirty == old(self)@.all_dirty,
    {
        let ghost pre = self@;
        let env = self.env;
        let mut i: usize = 0;
        while i < self.models.len()
            invariant
                pre.wf(),
                !pre.realtime,
                all == pre.all_dirty,
                env == pre.env,
                i <= self@.models.len() == pre.models.len(),
                self@.env == pre.env,
                self@.realtime == pre.realtime,
                self@.last_model_id == pre.last_model_id,
                self@.all_dirty == pre.all_dirty,
                self@.histories.dom() == pre.histories.dom(),
                forall|j: int|
                    0 <= j < i ==> {
                        let m = #[trigger] pre.models[j];
                        if all || m.dirty {
                            &&& self@.models[j] == recomputed(m, env)
                            &&& self@.histories[m.id]@ == recomputed_history(m, env)
                        } else {
                            &&& self@.models[j] == m
                            &&& self@.histories[m.id] == pre.histories[m.id]
                        }
                    },
                forall|j: int| i <= j < pre.models.len() ==> self@.models[j] == #[trigger] pre.models[j],
                forall|j: int|
                    i <= j < pre.models.len() ==> self@.histories[(#[trigger] pre.models[j]).id]
                        == pre.histories[pre.models[j].id],
            decreases pre.models.len() - i,
        {
            if all || self.models[i].dirty {
                let ghost m = pre.models[i as int];
                assert(m.max_accel >= 0);
                self.models[i].reset();
                let h = self.models[i].evaluate(HORIZON, &env);
                self.models[i].dirty = false;
                let id = self.models[i].id;
                self.values.insert(id, h);
                proof {
                    lemma_run_keeps_identity(
                        m.restarted(),
                        env,
                        env.timestep as int,
                        steps_for(HORIZON as int, env.timestep as int),
                    );
                    assert(id == m.id);
                    assert(self@.models[i as int] == recomputed(m, env));
                    assert(pre.has_id(m.id));
                    assert(self@.histories.dom() =~= pre.histories.dom());
                    assert forall|j: int| 0 <= j < pre.models.len() && j != i implies (#[trigger] pre.models[j]).id
                        != id by {
                        if j < i {
                            assert(pre.models[j].id != pre.models[i as int].id);
                        } else {
                            assert(pre.models[i as int].id != pre.models[j].id);
                        }
                    }
                }
            }
            i += 1;
        }
        proof {
            let post = self@;
            assert forall|j: int| 0 <= j < pre.models.len() implies (#[trigger] post.models[j]).id
                == pre.models[j].id && post.models[j].max_accel >= 0 by {
                let m = pre.models[j];
                if all || m.dirty {
                    lemma_run_keeps_identity(
                        m.restarted(),
                        env,
                        env.timestep as int,
                        steps_for(HORIZON as int, env.timestep as int),
                    );
                }
            }
            pre.lemma_wf_kept(self@);
        }
    }

    /// Advances every model by one real-time step, appending to its history and sliding
    /// the window once the clock has passed the horizon.
    fn advance_all(&mut self)
        requires
            old(self).wf(),
            old(self)@.realtime,
        ensures
            final(self).wf(),
            old(self)@.ticked(AppView { all_dirty: false, ..final(self)@ }),
            final(self)@.all_dirty == old(self)@.all_dirty,
            final(self)@.windowed(),
    {
        let ghost pre = self@;
        let env = self.env;
        let mut i: usize = 0;
        while i < self.models.len()
            invariant
                pre.wf(),
                pre.realtime,
                env == pre.env,
                i <= self@.models.len() == pre.models.len(),
                self@.env == pre.env,
                self@.realtime == pre.realtime,
                self@.last_model_id == pre.last_model_id,
                self@.all_dirty == pre.all_dirty,
                self@.histories.dom() == pre.histories.dom(),
                forall|j: int|
                    0 <= j < i ==> {
                        let m = #[trigger] pre.models[j];
                        &&& self@.models[j] == advanced(m, env)
                        &&& self@.histories[m.id]@ == advanced_history(m, env, pre.histories[m.id]@)
                    },
                forall|j: int| i <= j < pre.models.len() ==> self@.models[j] == #[trigger] pre.models[j],
                forall|j: int|
                    i <= j < pre.models.len() ==> self@.histories[(#[trigger] pre.models[j]).id]
                        == pre.histories[pre.models[j].id],
            decreases pre.models.len() - i,
        {
            let ghost m = pre.models[i as int];
            assert(m.max_accel >= 0);
            let id = self.models[i].id;
            self.models[i].update(&env, REALTIME_STEP);
            let t = self.models[i].elapsed_time;
            let v = self.models[i].value;
            let mut h = match self.values.remove(&id) {
                Some(h) => h,
                None => Vec::new(),
            };
            proof {
                assert(pre.has_id(m.id));
                assert(h == pre.histories[m.id]);
            }
            h.push(Sample { time: t, value: v });
            if t > HORIZON {
                self.models[i].elapsed_time = HORIZON;
                h = slide_history(&h);
            }
            self.values.insert(id, h);
            proof {
                assert(self@.models[i as int] == advanced(m, env));
                assert(self@.histories.dom() =~= pre.histories.dom());
                assert forall|j: int| 0 <= j < pre.models.len() && j != i implies (#[trigger] pre.models[j]).id
                    != id by {
                    if j < i {
                        assert(pre.models[j].id != pre.models[i as int].id);
                    } else {
                        assert(pre.models[i as int].id != pre.models[j].id);
                    }
                }
            }
            i += 1;
        }
        proof {
            let post = self@;
            assert forall|j: int| 0 <= j < pre.models.len() implies (#[trigger] post.models[j]).id
                == pre.models[j].id && post.models[j].max_accel >= 0 by {
                assert(post.models[j] == advanced(pre.models[j], env));
            }
            assert forall|j: int| 0 <= j < post.models.len() implies window_ok(
                post.histories[(#[trigger] post.models[j]).id]@,
                post.models[j].elapsed_time as int,
            ) by {
                let m = pre.models[j];
                assert(window_ok(pre.histories[m.id]@, m.elapsed_time as int));
                lemma_advance_window(m, env, pre.histories[m.id]@);
                assert(post.models[j] == advanced(m, env));
            }
            pre.lemma_wf_kept(self@);
        }
    }
}

/// Whether a history fits the running window for the clock `elapsed`.
pub fn fits_window(h: &Vec<Sample>, elapsed: i64) -> (r: bool)
    ensures
        r == window_ok(h@, elapsed as int),
{
    if elapsed < 0 || elapsed > HORIZON {
        return false;
    }
    let mut i: usize = 0;
    while i < h.len()
        invariant
            0 <= elapsed <= HORIZON,
            i <= h@.len(),
            forall|k: int| 0 <= k < i ==> 0 < (#[trigger] h@[k]).time <= elapsed,
            forall|j: int, k: int| 0 <= j < k < i ==> #[trigger] h@[j].time + REALTIME_STEP <= #[trigger] h@[k].time,
        decreases h@.len() - i,
    {
        let t = h[i].time;
        if t <= 0 || t > elapsed {
            assert(!(0 < h@[i as int].time <= elapsed));
            return false;
        }
        if i > 0 && h[i - 1].time as i128 + REALTIME_STEP as i128 > t as i128 {
            assert(!(h@[i - 1].time + REALTIME_STEP <= h@[i as int].time));
            return false;
        }
        proof {
            assert forall|j: int, k: int| 0 <= j < k < i + 1 implies #[trigger] h@[j].time + REALTIME_STEP
                <= #[trigger] h@[k].time by {
                if k == i && j < i - 1 {
                    assert(h@[j].time + REALTIME_STEP <= h@[i - 1].time);
                }
            }
        }
        i += 1;
    }
    true
}

/// Shifts every point back by one real-time step and drops those that reach time zero.
pub fn slide_history(h: &Vec<Sample>) -> (r: Vec<Sample>)
    ensures
        r@ == slide(h@),
{
    let mut r: Vec<Sample> = Vec::new();
    let mut i: usize = 0;
    while i < h.len()
        invariant
            i <= h@.len(),
            r@ == slide(h@.subrange(0, i as int)),
        decreases h@.len() - i,
    {
        let p = h[i];
        let t = p.time as i128 - REALTIME_STEP as i128;
        if t > 0 {
            r.push(Sample { time: t as i64, value: p.value });
        }
        assert(h@.subrange(0, i + 1).drop_last() =~= h@.subrange(0, i as int));
        i += 1;
    }
    assert(h@.subrange(0, h@.len() as int) =~= h@);
    r
}

/// Sliding keeps points in order and a step apart, keeps only points after time zero,
/// and moves every point to at least one step before the last point of `s`.
proof fn lemma_slide(s: Seq<Sample>)
    requires
        spaced(s),
    ensures
        spaced(slide(s)),
        forall|k: int| 0 <= k < slide(s).len() ==> 0 < (#[trigger] slide(s)[k]).time,
        s.len() > 0 ==> forall|k: int|
            0 <= k < slide(s).len() ==> (#[trigger] slide(s)[k]).time <= s.last().time - REALTIME_STEP,
    decreases s.len(),
{
    if s.len() > 0 {
        let init = s.drop_last();
        assert(spaced(init)) by {
            assert forall|j: int, k: int| 0 <= j < k < init.len() implies #[trigger] init[j].time
                + REALTIME_STEP <= #[trigger] init[k].time by {
                assert(init[j] == s[j] && init[k] == s[k]);
            }
        }
        lemma_slide(init);
        if init.len() > 0 {
            assert(s[init.len() - 1].time + REALTIME_STEP <= s[s.len() - 1].time);
            assert(init.last() == s[init.len() - 1]);
        }
    }
}

/// A history fit for the running window keeps every point within `(0, HORIZON]` and
/// holds at most `HORIZON / REALTIME_STEP + 1` points.
pub proof fn lemma_window_bounds(h: Seq<Sample>, elapsed: int)
    requires
        window_ok(h, elapsed),
    ensures
        forall|k: int| 0 <= k < h.len() ==> 0 < (#[trigger] h[k]).time <= HORIZON,
        h.len() <= HORIZON / REALTIME_STEP + 1,
{
    if h.len() > 0 {
        lemma_spaced_from_start(h, h.len() - 1);
        let n = h.len() - 1;
        assert(h[n].time <= HORIZON);
        assert(n <= 1249) by (nonlinear_arith)
            requires
                1 + n * 16_000_000 <= 20_000_000_000,
        ;
    }
}

/// In a spaced history that starts after time zero, point `k` lies at or after
/// `1 + k * REALTIME_STEP`.
proof fn lemma_spaced_from_start(h: Seq<Sample>, k: int)
    requires
        spaced(h),
        0 <= k < h.len(),
        h[0].time > 0,
    ensures
        h[k].time >= 1 + k * REALTIME_STEP,
    decreases k,
{
    if k > 0 {
        lemma_spaced_from_start(h, k - 1);
        assert(h[k - 1].time + REALTIME_STEP <= h[k].time);
        assert((k - 1) * REALTIME_STEP + REALTIME_STEP == k * REALTIME_STEP) by (nonlinear_arith);
    }
}

/// One real-time step keeps a history fit for the running window.
proof fn lemma_advance_window(m: Model, env: Environment, h: Seq<Sample>)
    requires
        window_ok(h, m.elapsed_time as int),
    ensures
        window_ok(advanced_history(m, env, h), advanced(m, env).elapsed_time as int),
{
    let s = m.step(env, REALTIME_STEP as int);
    let grown = h.push(s.sample());
    assert(s.elapsed_time == m.elapsed_time + REALTIME_STEP);
    assert(spaced(grown)) by {
        assert forall|j: int, k: int| 0 <= j < k < grown.len() implies #[trigger] grown[j].time
            + REALTIME_STEP <= #[trigger] grown[k].time by {
            assert(grown[j] == h[j]);
            if k < h.len() {
                assert(grown[k] == h[k]);
            }
        }
    }
    assert forall|k: int| 0 <= k < grown.len() implies 0 < (#[trigger] grown[k]).time <= s.elapsed_time by {
        if k < h.len() {
            assert(grown[k] == h[k]);
        }
    }
    if s.elapsed_time > HORIZON {
        lemma_slide(grown);
    }
}

/// A duplicate evaluates exactly as its source, from where the two stand and after a
/// reset alike; in particular a batch recomputation gives the two the same history.
pub proof fn lemma_duplicate_evaluates_alike(
    before: AppView,
    after: AppView,
    id: u64,
    new_id: u64,
    n: nat,
)
    requires
        before.duplicated(after, id, new_id),
    ensures
        ({
            let src = before.models[before.index_of(id)];
            let copy = after.models.last();
            let dt = before.env.timestep as int;
            &&& copy.trajectory(before.env, dt, n) == src.trajectory(before.env, dt, n)
            &&& copy.restarted().trajectory(before.env, dt, n) == src.restarted().trajectory(
                before.env,
                dt,
                n,
            )
            &&& recomputed_history(copy, before.env) == recomputed_history(src, before.env)
        }),
{
    let src = before.models[before.index_of(id)];
    let copy = after.models.last();
    let dt = before.env.timestep as int;
    lemma_same_dynamics_run(copy, src, before.env, dt, n);
    lemma_restart_deterministic(copy, src, before.env, n);
    lemma_restart_deterministic(copy, src, before.env, steps_for(HORIZON as int, dt));
}

} // verus!
