use vstd::prelude::*;

use crate::proc::{AudioConfig, Processor};
use crate::sample::Sample;
use crate::stream::{InputStream, OutputStream, INPUT_STREAM_CAPACITY, OUTPUT_STREAM_CAPACITY};

verus! {

/// How an input endpoint treats samples on which no new value arrives:
/// `Follow` keeps the last value, `Trigger` falls back to zero after one
/// sample.
#[derive(Clone, Copy, PartialEq, Eq, Structural, Debug)]
pub enum InputEndpointKind {
    Follow,
    Trigger,
}

/// An inclusive value range that incoming values are clamped into.
#[derive(Clone, Copy, PartialEq, Eq, Structural, Debug)]
pub struct RangedData {
    pub start: Sample,
    pub end: Sample,
}

impl RangedData {
    pub fn new(start: Sample, end: Sample) -> (r: RangedData)
        ensures
            r == (RangedData { start, end }),
    {
        RangedData { start, end }
    }

    /// The range's nearest point to `v`.
    pub open spec fn spec_clamp(self, v: Sample) -> Sample {
        if v.raw > self.end.raw {
            self.end
        } else if v.raw < self.start.raw {
            self.start
        } else {
            v
        }
    }

    /// Clamp `v` into the range.
    pub fn clamp(&self, v: Sample) -> (r: Sample)
        ensures
            r == self.spec_clamp(v),
    {
        if v.raw > self.end.raw {
            self.end
        } else if v.raw < self.start.raw {
            self.start
        } else {
            v
        }
    }
}

/// Clamping law: into an ordered range, every clamped value lands
/// between the range's two ends.
pub proof fn lemma_clamp_in_range(r: RangedData, v: Sample)
    requires
        r.start.raw <= r.end.raw,
    ensures
        r.start.raw <= r.spec_clamp(v).raw <= r.end.raw,
{
}

/// Linear smoothing state: on a new target, the exposed value advances by
/// `(target - current) / steps` once per sample for `steps` samples, then
/// holds at the target.
#[derive(Clone, Copy, PartialEq, Eq, Structural, Debug)]
pub struct ValueSmoother {
    pub target: Sample,
    pub increment: Sample,
    pub steps: u32,
    pub step: u32,
}

impl ValueSmoother {
    /// A smoother that ramps over `smoothing` samples.
    pub fn new(smoothing: u32) -> (r: ValueSmoother)
        ensures
            r == (ValueSmoother {
                target: Sample { raw: 0 },
                increment: Sample { raw: 0 },
                steps: smoothing,
                step: 0,
            }),
    {
        ValueSmoother { target: Sample { raw: 0 }, increment: Sample { raw: 0 }, steps: smoothing, step: 0 }
    }

    /// The smoother after a new target arrives while the value shows
    /// `current`: the ramp restarts from `current` with a fresh step size.
    pub open spec fn spec_set(self, current: Sample, target: Sample) -> ValueSmoother {
        ValueSmoother {
            target,
            increment: target.spec_sub(current).spec_div_steps(self.steps),
            steps: self.steps,
            step: 0,
        }
    }

    pub fn set(&mut self, current: Sample, target: Sample)
        ensures
            *final(self) == old(self).spec_set(current, target),
    {
        self.target = target;
        self.increment = target.sub(current).div_steps(self.steps);
        self.step = 0;
    }

    /// One smoothing step on the exposed value `v`: advance by the
    /// increment while steps remain, then hold at the target.
    pub open spec fn spec_process(self, v: Sample) -> (ValueSmoother, Sample) {
        if self.step < self.steps {
            (ValueSmoother { step: (self.step + 1) as u32, ..self }, v.spec_add(self.increment))
        } else {
            (self, self.target)
        }
    }

    pub fn process(&mut self, value: &mut Sample)
        ensures
            (*final(self), *final(value)) == old(self).spec_process(*old(value)),
    {
        if self.step < self.steps {
            *value = value.add(self.increment);
            self.step = self.step + 1;
        } else {
            *value = self.target;
        }
    }
}

/// The exposed value after `k` smoothing steps from `start`, while the
/// ramp is still running: `start` advanced `k` times by `inc`.
pub open spec fn ramp_value(start: Sample, inc: Sample, k: nat) -> Sample
    decreases k,
{
    if k == 0 {
        start
    } else {
        ramp_value(start, inc, (k - 1) as nat).spec_add(inc)
    }
}

/// The smoother state and exposed value after `k` process steps.
pub open spec fn run_smoother(s: ValueSmoother, v: Sample, k: nat) -> (ValueSmoother, Sample)
    decreases k,
{
    if k == 0 {
        (s, v)
    } else {
        let (s1, v1) = run_smoother(s, v, (k - 1) as nat);
        s1.spec_process(v1)
    }
}

/// Smoothing ramp law: from a fresh ramp over `N` steps, the `k`-th sample
/// shows the start advanced `k` times by the step size while `k <= N`, and
/// every sample after the `N`-th shows exactly the target.
pub proof fn lemma_smoothing_ramp(s: ValueSmoother, v: Sample, k: nat)
    requires
        s.step == 0,
    ensures
        k <= s.steps ==> run_smoother(s, v, k).1 == ramp_value(v, s.increment, k),
        k > s.steps ==> run_smoother(s, v, k).1 == s.target,
        run_smoother(s, v, k).0.steps == s.steps,
        run_smoother(s, v, k).0.target == s.target,
        run_smoother(s, v, k).0.increment == s.increment,
        run_smoother(s, v, k).0.step == if k <= s.steps {
            k
        } else {
            s.steps as nat
        },
    decreases k,
{
    if k > 0 {
        lemma_smoothing_ramp(s, v, (k - 1) as nat);
    }
}

/// Smoothing monotonicity law: a ramp with a nonnegative step size never
/// moves the exposed value down, and one with a nonpositive step size
/// never moves it up — saturation included.
pub proof fn lemma_ramp_monotone(start: Sample, inc: Sample, k: nat)
    ensures
        inc.raw >= 0 ==> ramp_value(start, inc, k).raw <= ramp_value(start, inc, (k + 1) as nat).raw,
        inc.raw <= 0 ==> ramp_value(start, inc, k).raw >= ramp_value(start, inc, (k + 1) as nat).raw,
{
}

/// Strict smoothing monotonicity: with a positive step size each sample
/// of the ramp strictly climbs until it saturates, and symmetrically for
/// a negative step size.
pub proof fn lemma_ramp_strictly_monotone(start: Sample, inc: Sample, k: nat)
    ensures
        inc.raw > 0 ==> ramp_value(start, inc, k).raw < ramp_value(start, inc, (k + 1) as nat).raw
            || ramp_value(start, inc, (k + 1) as nat).raw == i64::MAX,
        inc.raw < 0 ==> ramp_value(start, inc, k).raw > ramp_value(start, inc, (k + 1) as nat).raw
            || ramp_value(start, inc, (k + 1) as nat).raw == i64::MIN,
{
}

/// Splitting a distance into steps never overshoots: the steps together
/// cover at most the distance, in the distance's own direction.
pub proof fn lemma_div_steps_reaches(d: Sample, n: u32)
    ensures
        d.raw >= 0 ==> d.spec_div_steps(n).raw >= 0 && 0 <= (n as int) * d.spec_div_steps(n).raw
            <= d.raw,
        d.raw <= 0 ==> d.spec_div_steps(n).raw <= 0 && d.raw <= (n as int) * d.spec_div_steps(
            n,
        ).raw <= 0,
{
    if n > 0 {
        if d.raw >= 0 {
            let q = (d.raw as int) / (n as int);
            vstd::arithmetic::div_mod::lemma_fundamental_div_mod(d.raw as int, n as int);
            vstd::arithmetic::div_mod::lemma_mod_bound(d.raw as int, n as int);
            vstd::arithmetic::div_mod::lemma_div_pos_is_pos(d.raw as int, n as int);
            assert(d.spec_div_steps(n).raw == q);
            assert((n as int) * q <= d.raw);
            assert((n as int) * q >= 0) by (nonlinear_arith)
                requires
                    q >= 0,
                    n > 0,
            ;
        } else {
            let m = -(d.raw as int);
            let q = m / (n as int);
            vstd::arithmetic::div_mod::lemma_fundamental_div_mod(m, n as int);
            vstd::arithmetic::div_mod::lemma_mod_bound(m, n as int);
            vstd::arithmetic::div_mod::lemma_div_pos_is_pos(m, n as int);
            assert((n as int) * q <= m);
            assert((n as int) * q >= 0) by (nonlinear_arith)
                requires
                    q >= 0,
                    n > 0,
            ;
            assert(d.spec_div_steps(n).raw == -q);
            assert((n as int) * (-q) == -((n as int) * q)) by (nonlinear_arith);
        }
    }
}

/// `v` lies inside the range `r`.
pub open spec fn in_range(r: RangedData, v: Sample) -> bool {
    r.start.raw <= v.raw <= r.end.raw
}

/// The running state of a range-conditioned follow endpoint that keeps
/// its exposed value inside the range: the value and any smoothing target
/// lie inside it, and a live ramp cannot step past its target.
pub open spec fn ranged_endpoint_inv(v: InputEndpointView) -> bool {
    &&& v.kind == InputEndpointKind::Follow
    &&& v.range matches Some(r) && r.start.raw <= r.end.raw && in_range(r, v.value) && match v.smooth {
        Some(s) => in_range(r, s.target) && s.step <= s.steps && (s.step < s.steps ==> {
            let left = (s.steps - s.step) as int;
            &&& (s.increment.raw > 0 ==> v.value.raw + left * s.increment.raw <= s.target.raw)
            &&& (s.increment.raw < 0 ==> v.value.raw + left * s.increment.raw >= s.target.raw)
        }),
        None => true,
    }
}

/// Clamping law at the endpoint: a range-conditioned follow endpoint
/// whose exposed value lies in its range keeps it there through any
/// sample, smoothing ramps included — so every value it ever exposes lies
/// between the range's two ends.
pub proof fn lemma_ranged_endpoint_stays_in_range(v: InputEndpointView)
    requires
        ranged_endpoint_inv(v),
    ensures
        ranged_endpoint_inv(v.stepped()),
        v.range matches Some(r) ==> in_range(r, v.stepped().value),
{
    let r = v.range.unwrap();
    if v.queue.len() > 0 {
        // a new target arrives clamped; a fresh ramp from the current
        // value cannot step past it
        let x = Sample { raw: v.queue.first() };
        let clamped = r.spec_clamp(x);
        lemma_clamp_in_range(r, x);
        match v.smooth {
            Some(s) => {
                // the distance to the target may saturate, which only
                // shortens the ramp
                let d = clamped.spec_sub(v.value);
                if clamped.raw >= v.value.raw {
                    assert(0 <= d.raw <= clamped.raw - v.value.raw);
                } else {
                    assert(clamped.raw - v.value.raw <= d.raw <= 0);
                }
                let inc = d.spec_div_steps(s.steps);
                lemma_div_steps_reaches(d, s.steps);
                if s.steps > 0 {
                    if d.raw >= 0 {
                        assert(v.value.raw + (s.steps as int) * inc.raw <= clamped.raw);
                    } else {
                        assert(v.value.raw + (s.steps as int) * inc.raw >= clamped.raw);
                    }
                    if inc.raw > 0 {
                        assert(d.raw >= 0);
                    }
                    if inc.raw < 0 {
                        assert(d.raw <= 0);
                    }
                }
            },
            None => {},
        }
    } else {
        match v.smooth {
            Some(s) => {
                if s.step < s.steps {
                    // one ramp step: what remains after it still reaches no
                    // further than the target
                    let left = (s.steps - s.step) as int;
                    assert(left * s.increment.raw == s.increment.raw + (left - 1)
                        * s.increment.raw) by (nonlinear_arith);
                    if s.increment.raw > 0 {
                        assert((left - 1) * s.increment.raw >= 0) by (nonlinear_arith)
                            requires
                                left >= 1,
                                s.increment.raw >= 0,
                        ;
                        assert(v.value.raw + s.increment.raw <= s.target.raw);
                    } else if s.increment.raw < 0 {
                        assert((left - 1) * s.increment.raw <= 0) by (nonlinear_arith)
                            requires
                                left >= 1,
                                s.increment.raw <= 0,
                        ;
                        assert(v.value.raw + s.increment.raw >= s.target.raw);
                    }
                    assert(v.value.spec_add(s.increment).raw == v.value.raw + s.increment.raw);
                }
            },
            None => {},
        }
    }
}

/// What the verifier sees of an input endpoint: the queued raw values
/// (front first), the exposed value, and the conditioning state.
pub struct InputEndpointView {
    pub queue: Seq<i64>,
    pub value: Sample,
    pub range: Option<RangedData>,
    pub smooth: Option<ValueSmoother>,
    pub kind: InputEndpointKind,
}

impl InputEndpointView {
    /// A newly arrived value: clamp it, then either hand it to the
    /// smoother as the new target — the exposed value holds this sample —
    /// or expose it at once.
    pub open spec fn absorbed(self, v: Sample) -> InputEndpointView {
        let clamped = match self.range {
            Some(r) => r.spec_clamp(v),
            None => v,
        };
        match self.smooth {
            Some(s) => InputEndpointView { smooth: Some(s.spec_set(self.value, clamped)), ..self },
            None => InputEndpointView { value: clamped, ..self },
        }
    }

    /// A sample with nothing dequeued: a trigger falls back to zero, a
    /// follower advances its smoothing ramp if it has one.
    pub open spec fn idled(self) -> InputEndpointView {
        match self.kind {
            InputEndpointKind::Trigger => InputEndpointView { value: Sample { raw: 0 }, ..self },
            InputEndpointKind::Follow => match self.smooth {
                Some(s) => {
                    let (s1, v1) = s.spec_process(self.value);
                    InputEndpointView { smooth: Some(s1), value: v1, ..self }
                },
                None => self,
            },
        }
    }

    /// One sample of the endpoint: dequeue at most one value and absorb
    /// it, or idle when the queue is empty.
    pub open spec fn stepped(self) -> InputEndpointView {
        if self.queue.len() > 0 {
            InputEndpointView { queue: self.queue.drop_first(), ..self }.absorbed(
                Sample { raw: self.queue.first() },
            )
        } else {
            self.idled()
        }
    }

    /// Preparing re-absorbs the initial value, so that it too is clamped
    /// and smoothed like any arriving value.
    pub open spec fn prepared(self) -> InputEndpointView {
        self.absorbed(self.value)
    }
}

/// A processor that bridges values from a control-side stream into the
/// graph: each sample it dequeues at most one value, conditions it, and
/// exposes the result on its one output port.
pub struct InputEndpoint {
    stream: InputStream,
    value: Sample,
    range: Option<RangedData>,
    smooth: Option<ValueSmoother>,
    kind: InputEndpointKind,
}

impl View for InputEndpoint {
    type V = InputEndpointView;

    closed spec fn view(&self) -> InputEndpointView {
        InputEndpointView {
            queue: self.stream@,
            value: self.value,
            range: self.range,
            smooth: self.smooth,
            kind: self.kind,
        }
    }
}

impl InputEndpoint {
    /// A bare endpoint around a fresh stream: value zero, no clamping, no
    /// smoothing, follow mode.
    pub fn new() -> (r: InputEndpoint)
        ensures
            r@ == (InputEndpointView {
                queue: Seq::<i64>::empty(),
                value: Sample { raw: 0 },
                range: None,
                smooth: None,
                kind: InputEndpointKind::Follow,
            }),
    {
        InputEndpoint {
            stream: InputStream::new(),
            value: Sample { raw: 0 },
            range: None,
            smooth: None,
            kind: InputEndpointKind::Follow,
        }
    }

    /// The control side pushes a value; a full stream reports the value
    /// back instead of blocking.
    pub fn enqueue(&mut self, v: Sample) -> (r: Result<(), Sample>)
        ensures
            old(self)@.queue.len() < INPUT_STREAM_CAPACITY ==> r is Ok && final(self)@
                == (InputEndpointView { queue: old(self)@.queue.push(v.raw), ..old(self)@ }),
            old(self)@.queue.len() >= INPUT_STREAM_CAPACITY ==> (r matches Err(x) && x == v)
                && final(self)@ == old(self)@,
    {
        match self.stream.enqueue(v.raw) {
            Ok(_) => Ok(()),
            Err(raw) => Err(Sample { raw }),
        }
    }

    /// The value the endpoint's output port shows.
    pub fn output_value(&self) -> (r: Sample)
        ensures
            r == self@.value,
    {
        self.value
    }

    fn set_value(&mut self, v: Sample)
        ensures
            final(self)@ == old(self)@.absorbed(v),
    {
        let clamped = match &self.range {
            Some(r) => r.clamp(v),
            None => v,
        };
        match &mut self.smooth {
            Some(s) => {
                s.set(self.value, clamped);
            },
            None => {
                self.value = clamped;
            },
        }
    }

    fn process_value(&mut self)
        ensures
            final(self)@ == old(self)@.idled(),
    {
        match self.kind {
            InputEndpointKind::Trigger => {
                self.value = Sample { raw: 0 };
            },
            InputEndpointKind::Follow => {
                match &mut self.smooth {
                    Some(s) => {
                        s.process(&mut self.value);
                    },
                    None => {},
                }
            },
        }
    }
}

impl Processor for InputEndpoint {
    /// Preparing re-absorbs the initial value.
    open spec fn prepare_rel(pre: InputEndpoint, post: InputEndpoint, config: AudioConfig) -> bool {
        post@ == pre@.prepared()
    }

    /// Each sample takes one step of the endpoint's view.
    open spec fn process_rel(pre: InputEndpoint, post: InputEndpoint) -> bool {
        post@ == pre@.stepped()
    }

    fn prepare(&mut self, config: AudioConfig) {
        let v = self.value;
        self.set_value(v);
    }

    fn process(&mut self) {
        match self.stream.dequeue() {
            Some(raw) => self.set_value(Sample { raw }),
            None => self.process_value(),
        }
    }
}

impl Clone for InputEndpoint {
    /// The clone carries the same view: same queued values, same state.
    fn clone(&self) -> (r: Self)
        ensures
            r@ == self@,
    {
        InputEndpoint {
            stream: self.stream.clone(),
            value: self.value,
            range: self.range,
            smooth: self.smooth,
            kind: self.kind,
        }
    }
}

/// Builds an input endpoint: start value, clamping range, smoothing
/// length and kind, in any order. Its view is the view of the endpoint
/// it will build.
pub struct InputEndpointBuilder {
    inner: InputEndpoint,
}

impl View for InputEndpointBuilder {
    type V = InputEndpointView;

    closed spec fn view(&self) -> InputEndpointView {
        self.inner@
    }
}

impl InputEndpointBuilder {
    pub fn new() -> (r: InputEndpointBuilder)
        ensures
            r@ == (InputEndpointView {
                queue: Seq::<i64>::empty(),
                value: Sample { raw: 0 },
                range: None,
                smooth: None,
                kind: InputEndpointKind::Follow,
            }),
    {
        InputEndpointBuilder { inner: InputEndpoint::new() }
    }

    pub fn init(self, value: Sample) -> (r: InputEndpointBuilder)
        ensures
            r@ == (InputEndpointView { value, ..self@ }),
    {
        let mut inner = self.inner;
        inner.value = value;
        InputEndpointBuilder { inner }
    }

    pub fn kind(self, kind: InputEndpointKind) -> (r: InputEndpointBuilder)
        ensures
            r@ == (InputEndpointView { kind, ..self@ }),
    {
        let mut inner = self.inner;
        inner.kind = kind;
        InputEndpointBuilder { inner }
    }

    pub fn range(self, start: Sample, end: Sample) -> (r: InputEndpointBuilder)
        ensures
            r@ == (InputEndpointView {
                range: Some(RangedData { start, end }),
                ..self@
            }),
    {
        let mut inner = self.inner;
        inner.range = Some(RangedData::new(start, end));
        InputEndpointBuilder { inner }
    }

    pub fn smooth(self, smoothing: u32) -> (r: InputEndpointBuilder)
        ensures
            r@ == (InputEndpointView {
                smooth: Some(
                    ValueSmoother {
                        target: Sample { raw: 0 },
                        increment: Sample { raw: 0 },
                        steps: smoothing,
                        step: 0,
                    },
                ),
                ..self@
            }),
    {
        let mut inner = self.inner;
        inner.smooth = Some(ValueSmoother::new(smoothing));
        InputEndpointBuilder { inner }
    }

    pub fn build(self) -> (r: InputEndpoint)
        ensures
            r@ == self@,
    {
        self.inner
    }
}

/// A processor that bridges values out of the graph: whatever is written
/// to its one input port is queued on an output stream; a full stream
/// drops the value rather than block the audio thread.
pub struct OutputEndpoint {
    stream: OutputStream,
}

impl View for OutputEndpoint {
    type V = Seq<i64>;

    closed spec fn view(&self) -> Seq<i64> {
        self.stream@
    }
}

impl OutputEndpoint {
    /// An endpoint around a fresh stream.
    pub fn new() -> (r: OutputEndpoint)
        ensures
            r@ == Seq::<i64>::empty(),
    {
        OutputEndpoint { stream: OutputStream::new() }
    }

    /// The graph writes a value to the endpoint's input port.
    pub fn set_input(&mut self, v: Sample)
        ensures
            old(self)@.len() < OUTPUT_STREAM_CAPACITY ==> final(self)@ == old(self)@.push(v.raw),
            old(self)@.len() >= OUTPUT_STREAM_CAPACITY ==> final(self)@ == old(self)@,
    {
        let _ = self.stream.enqueue(v.raw);
    }

    /// The caller drains one rendered value; an empty stream is an
    /// underrun and yields nothing.
    pub fn dequeue(&mut self) -> (r: Option<Sample>)
        ensures
            old(self)@.len() == 0 ==> r is None && final(self)@ == old(self)@,
            old(self)@.len() > 0 ==> r == Some(Sample { raw: old(self)@.first() }) && final(self)@
                == old(self)@.drop_first(),
    {
        match self.stream.dequeue() {
            Some(raw) => Some(Sample { raw }),
            None => None,
        }
    }
}

impl Clone for OutputEndpoint {
    /// The clone carries the same view: the same queued values.
    fn clone(&self) -> (r: Self)
        ensures
            r@ == self@,
    {
        OutputEndpoint { stream: self.stream.clone() }
    }
}

impl Processor for OutputEndpoint {
    open spec fn prepare_rel(pre: OutputEndpoint, post: OutputEndpoint, config: AudioConfig) -> bool {
        post@ == pre@
    }

    open spec fn process_rel(pre: OutputEndpoint, post: OutputEndpoint) -> bool {
        post@ == pre@
    }

    fn prepare(&mut self, config: AudioConfig) {
    }

    fn process(&mut self) {
    }
}

/// The endpoint view after `k` samples.
pub open spec fn run_input_endpoint(v: InputEndpointView, k: nat) -> InputEndpointView
    decreases k,
{
    if k == 0 {
        v
    } else {
        run_input_endpoint(v, (k - 1) as nat).stepped()
    }
}

/// First-in first-out law: an unconditioned follow endpoint consumes one
/// queued value per sample, in queue order — after the `k`-th sample it
/// exposes the `k`-th queued value and holds the rest.
pub proof fn lemma_input_endpoint_fifo(v: InputEndpointView, k: nat)
    requires
        v.range is None,
        v.smooth is None,
        v.kind == InputEndpointKind::Follow,
        0 < k <= v.queue.len(),
    ensures
        run_input_endpoint(v, k).value == (Sample { raw: v.queue[k - 1] }),
        run_input_endpoint(v, k).queue == v.queue.skip(k as int),
        run_input_endpoint(v, k).range is None,
        run_input_endpoint(v, k).smooth is None,
        run_input_endpoint(v, k).kind == InputEndpointKind::Follow,
    decreases k,
{
    if k == 1 {
        assert(run_input_endpoint(v, 1) == v.stepped());
        assert(v.queue.drop_first() =~= v.queue.skip(1));
    } else {
        lemma_input_endpoint_fifo(v, (k - 1) as nat);
        let prev = run_input_endpoint(v, (k - 1) as nat);
        assert(prev.queue == v.queue.skip(k - 1));
        assert(prev.queue[0] == v.queue[k - 1]);
        assert(prev.queue.drop_first() =~= v.queue.skip(k as int));
    }
}

/// Trigger reset law: a trigger endpoint with one queued value exposes
/// that value (clamped if a range is set) on the next sample, and zero on
/// every later sample until something else arrives.
pub proof fn lemma_trigger_reset(v: InputEndpointView, k: nat)
    requires
        v.smooth is None,
        v.kind == InputEndpointKind::Trigger,
        v.queue.len() == 1,
        k >= 1,
    ensures
        run_input_endpoint(v, 1).value == match v.range {
            Some(r) => r.spec_clamp(Sample { raw: v.queue[0] }),
            None => Sample { raw: v.queue[0] },
        },
        k >= 2 ==> run_input_endpoint(v, k).value == (Sample { raw: 0 }),
        run_input_endpoint(v, k).queue.len() == 0,
        run_input_endpoint(v, k).kind == InputEndpointKind::Trigger,
        run_input_endpoint(v, k).smooth is None,
    decreases k,
{
    if k == 1 {
        assert(run_input_endpoint(v, 1) == v.stepped());
    } else {
        lemma_trigger_reset(v, (k - 1) as nat);
    }
}

} // verus!
