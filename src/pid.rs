//! The PID controller, the environment it acts in, and the damped point mass
//! ("model") that it drives.
use vstd::prelude::*;
use vstd::arithmetic::div_mod::lemma_fundamental_div_mod_converse;
use crate::fixed::{
    add_fixed, clamp, clamp_fixed, div_fixed, fdiv, fmul, mul_fixed, sat, saturate, ONE,
};

verus! {

/// The smallest integration timestep an environment accepts (0.001).
pub const MIN_TIMESTEP: i64 = 1_000_000;

/// The largest integration timestep an environment accepts (1.0).
pub const MAX_TIMESTEP: i64 = 1_000_000_000;

/// The acceleration limit a new model starts with (10.0).
pub const DEFAULT_MAX_ACCEL: i64 = 10_000_000_000;

/// Why a configuration value was rejected.
#[derive(Clone, Copy, Debug, PartialEq, Eq, Structural)]
pub enum ConfigError {
    /// The timestep lies outside `[MIN_TIMESTEP, MAX_TIMESTEP]`.
    TimestepOutOfRange,
    /// The damping coefficient is negative.
    NegativeDamping,
    /// The acceleration limit is negative.
    NegativeAccelLimit,
    /// No model has the given identity.
    UnknownModel,
}

/// The shared physical setting that every model is simulated in.
///
/// The setpoint lives here and is shared by every model; the acceleration limit is
/// not, and belongs to each [`Model`] (`max_accel`).
#[derive(Clone, Copy, Debug, PartialEq, Eq, Structural)]
pub struct Environment {
    pub damping: i64,
    pub applied_force: i64,
    pub timestep: i64,
    pub setpoint: i64,
}

impl Environment {
    /// A usable environment: a timestep in the accepted range and no negative damping.
    pub open spec fn wf(&self) -> bool {
        &&& MIN_TIMESTEP <= self.timestep <= MAX_TIMESTEP
        &&& self.damping >= 0
    }

    /// The error that validation reports for `e`, checked in field order.
    pub open spec fn spec_check(e: Environment) -> Result<(), ConfigError> {
        if !(MIN_TIMESTEP <= e.timestep <= MAX_TIMESTEP) {
            Err(ConfigError::TimestepOutOfRange)
        } else if e.damping < 0 {
            Err(ConfigError::NegativeDamping)
        } else {
            Ok(())
        }
    }

    /// Checks that the environment is usable for simulation.
    pub fn check(&self) -> (r: Result<(), ConfigError>)
        ensures
            r == Self::spec_check(*self),
            r is Ok <==> self.wf(),
    {
        if self.timestep < MIN_TIMESTEP || self.timestep > MAX_TIMESTEP {
            Err(ConfigError::TimestepOutOfRange)
        } else if self.damping < 0 {
            Err(ConfigError::NegativeDamping)
        } else {
            Ok(())
        }
    }

    /// Builds an environment, rejecting a timestep out of range or a negative damping.
    pub fn new(damping: i64, applied_force: i64, timestep: i64, setpoint: i64) -> (r: Result<
        Environment,
        ConfigError,
    >)
        ensures
            ({
                let e = Environment { damping, applied_force, timestep, setpoint };
                match r {
                    Ok(v) => v == e && e.wf(),
                    Err(err) => Self::spec_check(e) == Err::<(), ConfigError>(err),
                }
            }),
            r is Ok <==> (MIN_TIMESTEP <= timestep <= MAX_TIMESTEP && damping >= 0),
    {
        let e = Environment { damping, applied_force, timestep, setpoint };
        match e.check() {
            Ok(()) => Ok(e),
            Err(err) => Err(err),
        }
    }
}

impl Environment {
    /// Damping 0.5, no applied force, timestep 0.016 and setpoint 100.
    pub open spec fn default_spec() -> Environment {
        Environment { damping: 500_000_000, applied_force: 0, timestep: 16_000_000, setpoint: 100_000_000_000 }
    }
}

impl Default for Environment {
    /// Damping 0.5, no applied force, timestep 0.016 and setpoint 100.
    fn default() -> (r: Self)
        ensures
            r == Environment::default_spec(),
            r.wf(),
    {
        Environment { damping: 500_000_000, applied_force: 0, timestep: 16_000_000, setpoint: 100_000_000_000 }
    }
}

/// What a controller holds, as plain values: its gains, the error it saw on the
/// previous step and the integral it has accumulated.
pub struct ControllerView {
    pub k_p: i64,
    pub k_i: i64,
    pub k_d: i64,
    pub prev_error: i64,
    pub integral: i64,
}

/// A PID controller: three gains, and the state it carries from one step to the next.
///
/// The state is private: `prev_error` and `integral` are only ever zeroed together,
/// by [`PidController::reset`].
#[derive(Clone, Copy, Debug, PartialEq, Eq, Structural)]
pub struct PidController {
    pub k_p: i64,
    pub k_i: i64,
    pub k_d: i64,
    prev_error: i64,
    integral: i64,
}

impl View for PidController {
    type V = ControllerView;

    closed spec fn view(&self) -> ControllerView {
        ControllerView {
            k_p: self.k_p,
            k_i: self.k_i,
            k_d: self.k_d,
            prev_error: self.prev_error,
            integral: self.integral,
        }
    }
}

impl PidController {
    /// The error between the setpoint and the measured value.
    pub open spec fn error(setpoint: int, value: int) -> int {
        sat(setpoint - value)
    }

    /// The integral after one step of length `dt`.
    pub open spec fn next_integral(self, setpoint: int, value: int, dt: int) -> int {
        sat(self@.integral + fmul(Self::error(setpoint, value), dt))
    }

    /// The rate of change of the error over one step of length `dt`.
    pub open spec fn derivative(self, setpoint: int, value: int, dt: int) -> int {
        fdiv(sat(Self::error(setpoint, value) - self@.prev_error), dt)
    }

    /// The command the controller issues on one step:
    /// `k_p * error + k_i * integral + k_d * derivative`.
    pub open spec fn output(self, setpoint: int, value: int, dt: int) -> int {
        sat(
            fmul(Self::error(setpoint, value), self@.k_p as int)
            + fmul(self.next_integral(setpoint, value, dt), self@.k_i as int)
            + fmul(self.derivative(setpoint, value, dt), self@.k_d as int),
        )
    }

    /// The state after one step: the error is remembered and the integral accumulated.
    pub open spec fn next_view(self, setpoint: int, value: int, dt: int) -> ControllerView {
        ControllerView {
            prev_error: Self::error(setpoint, value) as i64,
            integral: self.next_integral(setpoint, value, dt) as i64,
            ..self@
        }
    }

    /// Whether the controller remembers nothing of earlier steps.
    pub open spec fn is_cleared(self) -> bool {
        self@.prev_error == 0 && self@.integral == 0
    }

    /// The controller that holds `v`.
    pub closed spec fn from_view(v: ControllerView) -> PidController {
        PidController {
            k_p: v.k_p,
            k_i: v.k_i,
            k_d: v.k_d,
            prev_error: v.prev_error,
            integral: v.integral,
        }
    }

    /// The controller after one step.
    pub open spec fn next(self, setpoint: int, value: int, dt: int) -> PidController {
        Self::from_view(self.next_view(setpoint, value, dt))
    }

    /// The controller with the same gains and no memory of earlier steps.
    pub open spec fn cleared(self) -> PidController {
        Self::from_view(ControllerView { prev_error: 0, integral: 0, ..self@ })
    }

    /// The controller with gains `k_p`, `k_i`, `k_d` and the same memory.
    pub open spec fn with_gains(self, k_p: i64, k_i: i64, k_d: i64) -> PidController {
        Self::from_view(ControllerView { k_p, k_i, k_d, ..self@ })
    }

    /// The controller made from a view holds exactly that view.
    pub broadcast proof fn lemma_view_of_from_view(v: ControllerView)
        ensures
            #[trigger] Self::from_view(v)@ == v,
    {
    }

    /// The error remembered from the previous step.
    pub fn prev_error(&self) -> (r: i64)
        ensures
            r == self@.prev_error,
    {
        self.prev_error
    }

    /// The accumulated integral of the error.
    pub fn integral(&self) -> (r: i64)
        ensures
            r == self@.integral,
    {
        self.integral
    }

    /// Forgets the previous error and the integral; the gains stay.
    pub fn reset(&mut self)
        ensures
            *final(self) == old(self).cleared(),
            final(self)@ == (ControllerView { prev_error: 0, integral: 0, ..old(self)@ }),
    {
        self.prev_error = 0;
        self.integral = 0;
    }

    /// Sets the three gains; the memory stays.
    pub fn set_gains(&mut self, k_p: i64, k_i: i64, k_d: i64)
        ensures
            *final(self) == old(self).with_gains(k_p, k_i, k_d),
            final(self)@ == (ControllerView { k_p, k_i, k_d, ..old(self)@ }),
    {
        self.k_p = k_p;
        self.k_i = k_i;
        self.k_d = k_d;
    }

    /// Runs one step of the control law and returns the command.
    pub fn calculate(&mut self, setpoint: i64, value: i64, d_t: i64) -> (r: i64)
        requires
            d_t > 0,
        ensures
            r == old(self).output(setpoint as int, value as int, d_t as int),
            *final(self) == old(self).next(setpoint as int, value as int, d_t as int),
            final(self)@ == old(self).next_view(setpoint as int, value as int, d_t as int),
    {
        let error = saturate(setpoint as i128 - value as i128);
        let derivative = div_fixed(saturate(error as i128 - self.prev_error as i128), d_t);
        self.prev_error = error;
        self.integral = add_fixed(self.integral, mul_fixed(error, d_t));
        let p = mul_fixed(error, self.k_p);
        let i = mul_fixed(self.integral, self.k_i);
        let d = mul_fixed(derivative, self.k_d);
        saturate(p as i128 + i as i128 + d as i128)
    }
}

impl Default for PidController {
    /// All gains zero, no memory.
    fn default() -> (r: Self)
        ensures
            r@ == (ControllerView { k_p: 0, k_i: 0, k_d: 0, prev_error: 0, integral: 0 }),
    {
        PidController { k_p: 0, k_i: 0, k_d: 0, prev_error: 0, integral: 0 }
    }
}

/// One point of a model's trajectory: the elapsed time and the model's value then.
#[derive(Clone, Copy, Debug, PartialEq, Eq, Structural)]
pub struct Sample {
    pub time: i64,
    pub value: i64,
}

/// The number of fixed steps of length `dt` that a run over `horizon` takes:
/// the least count whose total reaches the horizon.
pub open spec fn steps_for(horizon: int, dt: int) -> nat {
    if horizon <= 0 {
        0
    } else {
        ((horizon + dt - 1) / dt) as nat
    }
}

/// The tunable parameters of a model: the controller's gains and the acceleration limit.
#[derive(Clone, Copy, Debug, PartialEq, Eq, Structural)]
pub struct Tuning {
    pub k_p: i64,
    pub k_i: i64,
    pub k_d: i64,
    pub max_accel: i64,
}

/// A point mass driven by a PID controller, with damping and an applied force.
pub struct Model {
    pub id: u64,
    pub name: String,
    pub accel: i64,
    pub vel: i64,
    pub value: i64,
    pub elapsed_time: i64,
    pub max_accel: i64,
    pub controller: PidController,
    pub dirty: bool,
}

impl Model {
    /// Whether `self` is, but for its dirty flag, the model that `Model::new(name, id)` makes.
    pub open spec fn is_new(&self, name: Seq<char>, id: u64) -> bool {
        &&& self.id == id
        &&& self.name@ == name
        &&& self.accel == 0
        &&& self.vel == 0
        &&& self.value == 0
        &&& self.elapsed_time == 0
        &&& self.max_accel == DEFAULT_MAX_ACCEL
        &&& self.controller@ == ControllerView {
            k_p: 0,
            k_i: 0,
            k_d: 0,
            prev_error: 0,
            integral: 0,
        }
    }

    /// Whether `self` and `other` evolve alike: equal physical state, limit and controller.
    pub open spec fn same_dynamics(&self, other: Model) -> bool {
        &&& self.accel == other.accel
        &&& self.vel == other.vel
        &&& self.value == other.value
        &&& self.elapsed_time == other.elapsed_time
        &&& self.max_accel == other.max_accel
        &&& self.controller == other.controller
    }

    /// The model's current tuning.
    pub open spec fn tuning(self) -> Tuning {
        Tuning {
            k_p: self.controller@.k_p,
            k_i: self.controller@.k_i,
            k_d: self.controller@.k_d,
            max_accel: self.max_accel,
        }
    }

    /// The model with tuning `t`; it is marked dirty when `t` differs from its tuning.
    pub open spec fn tuned(self, t: Tuning) -> Model {
        Model {
            controller: self.controller.with_gains(t.k_p, t.k_i, t.k_d),
            max_accel: t.max_accel,
            dirty: self.dirty || t != self.tuning(),
            ..self
        }
    }

    /// The model brought back to rest at time zero, with its tuning kept.
    pub open spec fn restarted(self) -> Model {
        Model {
            accel: 0,
            vel: 0,
            value: 0,
            elapsed_time: 0,
            controller: self.controller.cleared(),
            ..self
        }
    }

    /// The controller's command on one step, clamped to `[-max_accel, max_accel]`.
    pub open spec fn command(self, env: Environment, dt: int) -> int {
        clamp(
            self.controller.output(env.setpoint as int, self.value as int, dt),
            -self.max_accel,
            self.max_accel as int,
        )
    }

    /// The model after one explicit Euler step of length `dt`.
    pub open spec fn step(self, env: Environment, dt: int) -> Model {
        let accel = sat(self.command(env, dt) - fmul(self.vel as int, env.damping as int)
            + env.applied_force);
        let vel = sat(self.vel + fmul(accel, dt));
        let value = sat(self.value + fmul(vel, dt));
        Model {
            accel: accel as i64,
            vel: vel as i64,
            value: value as i64,
            elapsed_time: sat(self.elapsed_time + dt) as i64,
            controller: self.controller.next(env.setpoint as int, self.value as int, dt),
            ..self
        }
    }

    /// The model after `n` steps of length `dt`.
    pub open spec fn run(self, env: Environment, dt: int, n: nat) -> Model
        decreases n,
    {
        if n == 0 {
            self
        } else {
            self.run(env, dt, (n - 1) as nat).step(env, dt)
        }
    }

    /// The point a model stands at.
    pub open spec fn sample(self) -> Sample {
        Sample { time: self.elapsed_time, value: self.value }
    }

    /// The points after each of the first `n` steps of length `dt`.
    pub open spec fn trajectory(self, env: Environment, dt: int, n: nat) -> Seq<Sample> {
        Seq::new(n, |i: int| self.run(env, dt, (i + 1) as nat).sample())
    }

    /// A model at rest at time zero, with zero gains and the default acceleration limit.
    pub fn new(name: &str, id: u64) -> (r: Model)
        ensures
            r.is_new(name@, id),
            !r.dirty,
    {
        Model {
            id,
            name: name.to_owned(),
            dirty: false,
            accel: 0,
            vel: 0,
            value: 0,
            elapsed_time: 0,
            controller: PidController::default(),
            max_accel: DEFAULT_MAX_ACCEL,
        }
    }

    /// Sets the gains and the acceleration limit, marking the model dirty on a change.
    pub fn set_tuning(&mut self, t: Tuning)
        ensures
            *final(self) == old(self).tuned(t),
            final(self).controller@ == (ControllerView {
                k_p: t.k_p,
                k_i: t.k_i,
                k_d: t.k_d,
                ..old(self).controller@
            }),
            final(self).dirty == (old(self).dirty || t != old(self).tuning()),
    {
        let changed = t.k_p != self.controller.k_p || t.k_i != self.controller.k_i || t.k_d
            != self.controller.k_d || t.max_accel != self.max_accel;
        self.controller.set_gains(t.k_p, t.k_i, t.k_d);
        self.max_accel = t.max_accel;
        self.dirty = self.dirty || changed;
    }

    /// Brings the model back to rest at time zero; gains, limit, name and identity stay.
    pub fn reset(&mut self)
        ensures
            *final(self) == old(self).restarted(),
            final(self).controller@ == (ControllerView {
                prev_error: 0,
                integral: 0,
                ..old(self).controller@
            }),
    {
        self.controller.reset();
        self.accel = 0;
        self.vel = 0;
        self.value = 0;
        self.elapsed_time = 0;
    }

    /// With a positive `dt` and no saturation, the clock advances by exactly `n * dt`.
    pub proof fn lemma_run(self, env: Environment, dt: int, n: nat)
        requires
            dt > 0,
            self.elapsed_time + n * dt <= i64::MAX,
        ensures
            self.run(env, dt, n).elapsed_time == self.elapsed_time + n * dt,
        decreases n,
    {
        if n > 0 {
            assert((n - 1) * dt >= 0 && (n - 1) * dt + dt == n * dt) by (nonlinear_arith)
                requires
                    dt > 0,
                    n > 0,
            ;
            self.lemma_run(env, dt, (n - 1) as nat);
        } else {
            assert(n * dt == 0) by (nonlinear_arith)
                requires n == 0;
        }
    }

    /// Advances the model by one step of length `d_t`.
    pub fn update(&mut self, env: &Environment, d_t: i64)
        requires
            d_t > 0,
            old(self).max_accel >= 0,
        ensures
            *final(self) == old(self).step(*env, d_t as int),
            final(self).controller@ == old(self).controller.next_view(
                env.setpoint as int,
                old(self).value as int,
                d_t as int,
            ),
    {
        let raw = self.controller.calculate(env.setpoint, self.value, d_t);
        let command = clamp_fixed(raw, -self.max_accel, self.max_accel);
        let drag = mul_fixed(self.vel, env.damping);
        self.accel = saturate(command as i128 - drag as i128 + env.applied_force as i128);
        self.vel = add_fixed(self.vel, mul_fixed(self.accel, d_t));
        self.value = add_fixed(self.value, mul_fixed(self.vel, d_t));
        self.elapsed_time = add_fixed(self.elapsed_time, d_t);
    }

    /// Runs the model from where it stands, one environment timestep at a time,
    /// until at least `time` has elapsed, and returns the point after each step.
    pub fn evaluate(&mut self, time: i64, env: &Environment) -> (r: Vec<Sample>)
        requires
            env.wf(),
            old(self).max_accel >= 0,
            old(self).elapsed_time + time + env.timestep <= i64::MAX,
        ensures
            r@.len() == steps_for(time as int, env.timestep as int),
            r@ == old(self).trajectory(*env, env.timestep as int, r@.len()),
            *final(self) == old(self).run(*env, env.timestep as int, r@.len()),
            final(self).controller@.k_p == old(self).controller@.k_p,
            final(self).controller@.k_i == old(self).controller@.k_i,
            final(self).controller@.k_d == old(self).controller@.k_d,
    {
        let mut result: Vec<Sample> = Vec::new();
        let start_time = self.elapsed_time;
        let ghost start = *self;
        let ghost dt = env.timestep as int;
        proof {
            start.lemma_run(*env, dt, 0);
        }
        while (self.elapsed_time as i128 - start_time as i128) < time as i128
            invariant
                env.wf(),
                dt == env.timestep,
                start_time == start.elapsed_time,
                start_time + time + dt <= i64::MAX,
                start.max_accel >= 0,
                *self == start.run(*env, dt, result@.len() as nat),
                self.elapsed_time == start_time + result@.len() * dt,
                result@.len() == 0 || (result@.len() - 1) * dt < time,
                result@ == start.trajectory(*env, dt, result@.len() as nat),
            decreases time + dt - (self.elapsed_time - start_time),
        {
            let ghost k = result@.len() as nat;
            assert(start_time + (k + 1) * dt <= i64::MAX) by (nonlinear_arith)
                requires
                    start_time + k * dt < start_time + time,
                    start_time + time + dt <= i64::MAX,
            ;
            proof {
                start.lemma_run(*env, dt, k + 1);
                lemma_run_keeps_identity(start, *env, dt, k);
            }
            self.update(env, env.timestep);
            result.push(Sample { time: self.elapsed_time, value: self.value });
            assert(result@ =~= start.trajectory(*env, dt, k + 1));
            assert(k * dt + dt == (k + 1) * dt) by (nonlinear_arith);
            assert(self.elapsed_time - start_time == k * dt + dt);
        }
        proof {
            let k = result@.len() as int;
            lemma_gains_kept(start, *env, dt, k as nat);
            if time > 0 {
                assert(k > 0);
                assert((k - 1) * dt == k * dt - dt) by (nonlinear_arith);
                lemma_fundamental_div_mod_converse(time + dt - 1, dt, k, time + dt - 1 - k * dt);
            }
        }
        result
    }
}

/// With zero gains, no damping and no applied force, a model at rest stays at rest:
/// after any number of steps its value is unchanged, its velocity is still zero,
/// and the last step computed zero acceleration.
pub proof fn lemma_rest_is_kept(m: Model, env: Environment, dt: int, n: nat)
    requires
        dt > 0,
        m.vel == 0,
        m.max_accel >= 0,
        m.controller@.k_p == 0,
        m.controller@.k_i == 0,
        m.controller@.k_d == 0,
        env.damping == 0,
        env.applied_force == 0,
    ensures
        m.run(env, dt, n).value == m.value,
        m.run(env, dt, n).vel == 0,
        n > 0 ==> m.run(env, dt, n).accel == 0,
    decreases n,
{
    lemma_gains_kept(m, env, dt, n);
    if n > 0 {
        let prev = m.run(env, dt, (n - 1) as nat);
        lemma_rest_is_kept(m, env, dt, (n - 1) as nat);
        lemma_gains_kept(m, env, dt, (n - 1) as nat);
        let e = PidController::error(env.setpoint as int, prev.value as int);
        let c = prev.controller;
        let i = c.next_integral(env.setpoint as int, prev.value as int, dt);
        let d = c.derivative(env.setpoint as int, prev.value as int, dt);
        assert(e * 0 == 0 && i * 0 == 0 && d * 0 == 0 && 0 * dt == 0) by (nonlinear_arith);
        assert(0int / (ONE as int) == 0);
        assert(fmul(e, 0) == 0 && fmul(i, 0) == 0 && fmul(d, 0) == 0 && fmul(0, dt) == 0);
        assert(c.output(env.setpoint as int, prev.value as int, dt) == 0);
        lemma_run_keeps_identity(m, env, dt, (n - 1) as nat);
        assert(prev.command(env, dt) == 0);
    }
}

/// Stepping never changes a model's identity, name, dirty flag or acceleration limit.
pub proof fn lemma_run_keeps_identity(m: Model, env: Environment, dt: int, n: nat)
    ensures
        m.run(env, dt, n).id == m.id,
        m.run(env, dt, n).name == m.name,
        m.run(env, dt, n).dirty == m.dirty,
        m.run(env, dt, n).max_accel == m.max_accel,
    decreases n,
{
    if n > 0 {
        lemma_run_keeps_identity(m, env, dt, (n - 1) as nat);
    }
}

/// Stepping never changes a controller's gains.
pub proof fn lemma_gains_kept(m: Model, env: Environment, dt: int, n: nat)
    ensures
        m.run(env, dt, n).controller@.k_p == m.controller@.k_p,
        m.run(env, dt, n).controller@.k_i == m.controller@.k_i,
        m.run(env, dt, n).controller@.k_d == m.controller@.k_d,
    decreases n,
{
    if n > 0 {
        lemma_gains_kept(m, env, dt, (n - 1) as nat);
    }
}

/// The command that the velocity update uses lies within the model's acceleration
/// limit; a raw controller output beyond the limit is cut to exactly the limit.
pub proof fn lemma_command_clamped(m: Model, env: Environment, dt: int)
    requires
        m.max_accel >= 0,
    ensures
        -m.max_accel <= m.command(env, dt) <= m.max_accel,
        m.controller.output(env.setpoint as int, m.value as int, dt) > m.max_accel
            ==> m.command(env, dt) == m.max_accel,
        m.controller.output(env.setpoint as int, m.value as int, dt) < -m.max_accel
            ==> m.command(env, dt) == -m.max_accel,
        m.step(env, dt).accel == sat(
            m.command(env, dt) - fmul(m.vel as int, env.damping as int) + env.applied_force,
        ),
        i64::MIN <= m.command(env, dt) - fmul(m.vel as int, env.damping as int) + env.applied_force
            <= i64::MAX ==> -m.max_accel <= m.step(env, dt).accel + fmul(
            m.vel as int,
            env.damping as int,
        ) - env.applied_force <= m.max_accel,
{
}

/// Two models with the same dynamics stay alike step by step.
proof fn lemma_run_lockstep(a: Model, b: Model, env: Environment, dt: int, n: nat)
    requires
        a.same_dynamics(b),
    ensures
        a.run(env, dt, n).same_dynamics(b.run(env, dt, n)),
    decreases n,
{
    if n > 0 {
        lemma_run_lockstep(a, b, env, dt, (n - 1) as nat);
    }
}

/// Two models with the same dynamics trace the same points.
pub proof fn lemma_same_dynamics_run(a: Model, b: Model, env: Environment, dt: int, n: nat)
    requires
        a.same_dynamics(b),
    ensures
        a.run(env, dt, n).same_dynamics(b.run(env, dt, n)),
        a.trajectory(env, dt, n) == b.trajectory(env, dt, n),
{
    lemma_run_lockstep(a, b, env, dt, n);
    assert forall|i: int| 0 <= i < n implies #[trigger] a.trajectory(env, dt, n)[i]
        == b.trajectory(env, dt, n)[i] by {
        lemma_run_lockstep(a, b, env, dt, (i + 1) as nat);
    }
    assert(a.trajectory(env, dt, n) =~= b.trajectory(env, dt, n));
}

/// Resetting and then evaluating is deterministic: two models with the same gains
/// and acceleration limit, whatever state they were in, trace identical points.
pub proof fn lemma_restart_deterministic(a: Model, b: Model, env: Environment, n: nat)
    requires
        a.controller@.k_p == b.controller@.k_p,
        a.controller@.k_i == b.controller@.k_i,
        a.controller@.k_d == b.controller@.k_d,
        a.max_accel == b.max_accel,
    ensures
        a.restarted().trajectory(env, env.timestep as int, n) == b.restarted().trajectory(
            env,
            env.timestep as int,
            n,
        ),
{
    lemma_same_dynamics_run(a.restarted(), b.restarted(), env, env.timestep as int, n);
}

/// Evaluation can be restarted: a model reset after any number of steps traces the
/// same points as the same model reset before them.
pub proof fn lemma_restart_after_run(m: Model, env: Environment, n: nat, k: nat)
    ensures
        m.run(env, env.timestep as int, n).restarted().trajectory(env, env.timestep as int, k)
            == m.restarted().trajectory(env, env.timestep as int, k),
{
    lemma_gains_kept(m, env, env.timestep as int, n);
    lemma_run_keeps_identity(m, env, env.timestep as int, n);
    lemma_restart_deterministic(m.run(env, env.timestep as int, n), m, env, k);
}

} // verus!
