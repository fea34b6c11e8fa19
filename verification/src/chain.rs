use vstd::prelude::*;

use crate::io::{Connection, InputPort, OutputPort, PortRef};
use crate::proc::{AudioConfig, ProcUnit, ProcUnitView, Processor, SharedProc};
use crate::sort::{
    edges_in_range, has_cycle, spec_sort_order, BuildError, Sortable, TopologicalSort,
};
use crate::sample::Sample;

verus! {

/// What the verifier sees of one chain entry: the instance's identity,
/// its unit, and its outgoing connections in insertion order.
pub struct ConnectedProcessorView {
    pub id: usize,
    pub unit: ProcUnitView,
    pub outs: Seq<Connection>,
}

/// A processor instance together with its outgoing connections.
pub struct ConnectedProcessor {
    id: usize,
    proc: ProcUnit,
    outs: Vec<Connection>,
}

impl View for ConnectedProcessor {
    type V = ConnectedProcessorView;

    closed spec fn view(&self) -> ConnectedProcessorView {
        ConnectedProcessorView { id: self.id, unit: self.proc@, outs: self.outs@ }
    }
}

/// A connection list after a dedup-insert: appended unless already held.
pub open spec fn spec_add_connection(outs: Seq<Connection>, c: Connection) -> Seq<Connection> {
    if outs.contains(c) {
        outs
    } else {
        outs.push(c)
    }
}

impl ConnectedProcessor {
    /// Wrap an instance with no outgoing connections yet.
    pub fn new(proc: SharedProc) -> (r: ConnectedProcessor)
        ensures
            r@.id == proc.id,
            r@.unit == proc.unit@,
            r@.outs == Seq::<Connection>::empty(),
    {
        ConnectedProcessor { id: proc.id, proc: proc.unit, outs: Vec::new() }
    }

    /// Record an outgoing connection; one already recorded is ignored.
    pub fn add_output(&mut self, connection: Connection)
        ensures
            final(self)@.id == old(self)@.id,
            final(self)@.unit == old(self)@.unit,
            final(self)@.outs == spec_add_connection(old(self)@.outs, connection),
    {
        let mut k: usize = 0;
        let mut found = false;
        while k < self.outs.len()
            invariant
                k <= self.outs@.len(),
                found == exists|t: int| 0 <= t < k && self.outs@[t] == connection,
            decreases self.outs@.len() - k,
        {
            if self.outs[k] == connection {
                found = true;
            }
            k = k + 1;
        }
        if !found {
            self.outs.push(connection);
        }
    }

    /// The outgoing connections, in insertion order.
    pub fn outs(&self) -> (r: &Vec<Connection>)
        ensures
            r@ == self@.outs,
    {
        &self.outs
    }

    /// A copy with the same view.
    fn duplicate(&self) -> (r: ConnectedProcessor)
        ensures
            r@ == self@,
    {
        let mut outs: Vec<Connection> = Vec::new();
        let mut k: usize = 0;
        while k < self.outs.len()
            invariant
                k <= self.outs@.len(),
                outs@ == self.outs@.subrange(0, k as int),
            decreases self.outs@.len() - k,
        {
            outs.push(self.outs[k]);
            k = k + 1;
        }
        proof {
            assert(outs@ =~= self.outs@);
        }
        ConnectedProcessor { id: self.id, proc: self.proc.clone(), outs }
    }
}

/// The position of the entry carrying instance `id`, front first; -1 when
/// no entry carries it.
pub open spec fn slot_of(procs: Seq<ConnectedProcessorView>, id: usize) -> int
    decreases procs.len(),
{
    if procs.len() == 0 {
        -1
    } else if procs[0].id == id {
        0
    } else {
        let rest = slot_of(procs.drop_first(), id);
        if rest < 0 {
            -1
        } else {
            rest + 1
        }
    }
}

/// `slot_of` finds a position exactly when some entry carries the id, and
/// what it finds carries the id.
pub proof fn lemma_slot_of(procs: Seq<ConnectedProcessorView>, id: usize)
    ensures
        slot_of(procs, id) >= 0 <==> exists|j: int|
            0 <= j < procs.len() && (#[trigger] procs[j]).id == id,
        slot_of(procs, id) >= 0 ==> slot_of(procs, id) < procs.len() && procs[slot_of(
            procs,
            id,
        )].id == id,
        slot_of(procs, id) >= 0 ==> forall|j: int|
            0 <= j < slot_of(procs, id) ==> (#[trigger] procs[j]).id != id,
    decreases procs.len(),
{
    if procs.len() > 0 && procs[0].id != id {
        lemma_slot_of(procs.drop_first(), id);
        let rest = procs.drop_first();
        if slot_of(rest, id) >= 0 {
            assert(procs[slot_of(procs, id)] == rest[slot_of(rest, id)]);
            assert forall|j: int| 0 <= j < slot_of(procs, id) implies (#[trigger] procs[j]).id
                != id by {
                if j > 0 {
                    assert(procs[j] == rest[j - 1]);
                }
            }
        } else {
            if exists|j: int| 0 <= j < procs.len() && (#[trigger] procs[j]).id == id {
                let j = choose|j: int| 0 <= j < procs.len() && (#[trigger] procs[j]).id == id;
                assert(j > 0);
                assert(rest[j - 1] == procs[j]);
            }
        }
    }
}

/// In a list with pairwise distinct ids, `slot_of` is exactly the position
/// of the one entry carrying the id.
pub proof fn lemma_slot_of_distinct(procs: Seq<ConnectedProcessorView>, j: int)
    requires
        0 <= j < procs.len(),
        forall|a: int, b: int|
            0 <= a < procs.len() && 0 <= b < procs.len() && a != b ==> (#[trigger] procs[a]).id
                != (#[trigger] procs[b]).id,
    ensures
        slot_of(procs, procs[j].id) == j,
{
    lemma_slot_of(procs, procs[j].id);
    let s = slot_of(procs, procs[j].id);
    assert(s >= 0);
    if s != j {
        assert(procs[s].id == procs[j].id);
    }
}

/// A processor list after a dedup-insert: a fresh entry for the instance
/// is appended unless its id is already listed.
pub open spec fn spec_add_processor(
    procs: Seq<ConnectedProcessorView>,
    id: usize,
    unit: ProcUnitView,
) -> Seq<ConnectedProcessorView> {
    if slot_of(procs, id) >= 0 {
        procs
    } else {
        procs.push(ConnectedProcessorView { id, unit, outs: Seq::empty() })
    }
}

/// The ordered list of connected processors that a chain drives.
pub struct ConnectedProcessors {
    inner: Vec<ConnectedProcessor>,
}

impl View for ConnectedProcessors {
    type V = Seq<ConnectedProcessorView>;

    closed spec fn view(&self) -> Seq<ConnectedProcessorView> {
        Seq::new(self.inner@.len(), |i: int| self.inner@[i]@)
    }
}

impl ConnectedProcessors {
    pub fn new() -> (r: ConnectedProcessors)
        ensures
            r@ == Seq::<ConnectedProcessorView>::empty(),
    {
        let r = ConnectedProcessors { inner: Vec::new() };
        proof {
            assert(r@ =~= Seq::<ConnectedProcessorView>::empty());
        }
        r
    }

    pub fn len(&self) -> (n: usize)
        ensures
            n == self@.len(),
    {
        self.inner.len()
    }

    /// Add an instance; an instance already listed is ignored.
    pub fn push(&mut self, processor: SharedProc)
        ensures
            final(self)@ == spec_add_processor(old(self)@, processor.id, processor.unit@),
    {
        let slot = self.index_of(&processor);
        proof {
            lemma_slot_of(old(self)@, processor.id);
        }
        match slot {
            Some(_) => {},
            None => {
                let cp = ConnectedProcessor::new(processor);
                self.inner.push(cp);
                proof {
                    assert(self@ =~= old(self)@.push(
                        ConnectedProcessorView {
                            id: self@[self@.len() - 1].id,
                            unit: self@[self@.len() - 1].unit,
                            outs: Seq::empty(),
                        },
                    ));
                }
            },
        }
    }

    /// Where the instance behind `processor` sits in the list.
    pub fn index_of(&self, processor: &SharedProc) -> (r: Option<usize>)
        ensures
            r matches Some(j) ==> slot_of(self@, processor.id) == j as int,
            r is None ==> slot_of(self@, processor.id) < 0,
    {
        self.index_of_id(processor.id)
    }

    /// Where the instance with identity `id` sits in the list.
    pub fn index_of_id(&self, id: usize) -> (r: Option<usize>)
        ensures
            r matches Some(j) ==> slot_of(self@, id) == j as int,
            r is None ==> slot_of(self@, id) < 0,
    {
        proof {
            lemma_slot_of(self@, id);
        }
        let mut k: usize = 0;
        while k < self.inner.len()
            invariant
                k <= self@.len(),
                forall|t: int| 0 <= t < k ==> (#[trigger] self@[t]).id != id,
            decreases self@.len() - k,
        {
            if self.inner[k].id == id {
                proof {
                    lemma_slot_of(self@, id);
                    let s = slot_of(self@, id);
                    assert(self@[k as int].id == id);
                    assert(s >= 0);
                    if s < k as int {
                        assert(self@[s].id != id);
                    }
                    if s > k as int {
                        assert(self@[k as int].id != id);
                    }
                }
                return Some(k);
            }
            k = k + 1;
        }
        proof {
            lemma_slot_of(self@, id);
            if slot_of(self@, id) >= 0 {
                assert(self@[slot_of(self@, id)].id == id);
            }
        }
        None
    }

    /// Exchange the entries at `i` and `j`.
    pub fn swap(&mut self, i: usize, j: usize)
        requires
            (i as int) < old(self)@.len(),
            (j as int) < old(self)@.len(),
        ensures
            final(self)@ == old(self)@.update(i as int, old(self)@[j as int]).update(
                j as int,
                old(self)@[i as int],
            ),
    {
        let a = self.inner[i].duplicate();
        let b = self.inner[j].duplicate();
        self.inner.set(i, b);
        self.inner.set(j, a);
        proof {
            assert(final(self)@ =~= old(self)@.update(i as int, old(self)@[j as int]).update(
                j as int,
                old(self)@[i as int],
            ));
        }
    }

    /// Rearrange the list by a permutation: position `k` comes to hold
    /// what position `order[k]` held. The index vector must list each
    /// position exactly once — with its length fixed to the list's and
    /// its entries in range, pairwise distinctness makes it exactly a
    /// permutation — so no instance is duplicated or dropped and the
    /// list keeps its one-entry-per-instance shape.
    pub fn order(&mut self, order: Vec<usize>)
        requires
            order@.len() == old(self)@.len(),
            forall|k: int| 0 <= k < order@.len() ==> (#[trigger] order@[k] as int) < order@.len(),
            forall|a: int, b: int|
                0 <= a < order@.len() && 0 <= b < order@.len() && a != b ==> order@[a] != order@[b],
        ensures
            final(self)@.len() == old(self)@.len(),
            forall|k: int| 0 <= k < order@.len() ==> final(self)@[k] == old(self)@[
                #[trigger] order@[k] as int
            ],
    {
        let mut rebuilt: Vec<ConnectedProcessor> = Vec::new();
        let mut k: usize = 0;
        while k < order.len()
            invariant
                k <= order@.len(),
                order@.len() == self@.len(),
                forall|t: int| 0 <= t < order@.len() ==> (#[trigger] order@[t] as int)
                    < order@.len(),
                rebuilt@.len() == k,
                forall|t: int| 0 <= t < k ==> (#[trigger] rebuilt@[t])@ == self@[order@[t] as int],
            decreases order@.len() - k,
        {
            let src = order[k];
            let cp = self.inner[src].duplicate();
            rebuilt.push(cp);
            k = k + 1;
        }
        let ghost pre = self@;
        self.inner = rebuilt;
        proof {
            assert(final(self)@.len() == pre.len());
            assert forall|t: int| 0 <= t < order@.len() implies final(self)@[t] == pre[
                #[trigger] order@[t] as int
            ] by {
                assert(final(self)@[t] == self.inner@[t]@);
            }
        }
    }
}

/// The list after one connection executes: the value at the producer's
/// output port is written to the consumer's input port; a connection
/// naming an unknown instance does nothing.
pub open spec fn transfer_spec(
    procs: Seq<ConnectedProcessorView>,
    c: Connection,
) -> Seq<ConnectedProcessorView> {
    let src = slot_of(procs, c.output.proc);
    let dst = slot_of(procs, c.input.proc);
    if src >= 0 && dst >= 0 {
        let v = procs[src].unit.output_at(c.output.port as int);
        procs.update(
            dst,
            ConnectedProcessorView {
                unit: procs[dst].unit.with_input(c.input.port as int, v),
                ..procs[dst]
            },
        )
    } else {
        procs
    }
}

/// The list after the first `k` of the connections in `conns` execute in
/// order.
pub open spec fn run_transfers(
    procs: Seq<ConnectedProcessorView>,
    conns: Seq<Connection>,
    k: int,
) -> Seq<ConnectedProcessorView>
    decreases k,
{
    if k <= 0 {
        procs
    } else {
        transfer_spec(run_transfers(procs, conns, k - 1), conns[k - 1])
    }
}

/// The list after the unit at position `i` takes its per-sample step and
/// its outgoing connections execute in insertion order.
pub open spec fn step_at(procs: Seq<ConnectedProcessorView>, i: int) -> Seq<
    ConnectedProcessorView,
> {
    if 0 <= i < procs.len() {
        let p1 = procs.update(
            i,
            ConnectedProcessorView { unit: procs[i].unit.stepped(), ..procs[i] },
        );
        run_transfers(p1, procs[i].outs, procs[i].outs.len() as int)
    } else {
        procs
    }
}

/// The list after its first `i` entries have taken their steps.
pub open spec fn step_prefix(procs: Seq<ConnectedProcessorView>, i: int) -> Seq<
    ConnectedProcessorView,
>
    decreases i,
{
    if i <= 0 {
        procs
    } else {
        step_at(step_prefix(procs, i - 1), i - 1)
    }
}

/// One rendered sample: every entry in order takes its step, each
/// followed by its own outgoing transfers.
pub open spec fn step_sample(procs: Seq<ConnectedProcessorView>) -> Seq<ConnectedProcessorView> {
    step_prefix(procs, procs.len() as int)
}

/// `n` rendered samples.
pub open spec fn render_spec(procs: Seq<ConnectedProcessorView>, n: nat) -> Seq<
    ConnectedProcessorView,
>
    decreases n,
{
    if n == 0 {
        procs
    } else {
        step_sample(render_spec(procs, (n - 1) as nat))
    }
}

/// Every entry after `prepare(config)` ran on its unit, exactly once.
pub open spec fn prepare_all(procs: Seq<ConnectedProcessorView>, config: AudioConfig) -> Seq<
    ConnectedProcessorView,
> {
    Seq::new(
        procs.len(),
        |i: int| ConnectedProcessorView { unit: procs[i].unit.prepared(config), ..procs[i] },
    )
}

/// Transfers keep the list's length, ids and connections; only units
/// change.
pub proof fn lemma_run_transfers_frame(
    procs: Seq<ConnectedProcessorView>,
    conns: Seq<Connection>,
    k: int,
)
    ensures
        run_transfers(procs, conns, k).len() == procs.len(),
        forall|t: int| 0 <= t < procs.len() ==> (#[trigger] run_transfers(procs, conns, k)[t]).id
            == procs[t].id,
        forall|t: int| 0 <= t < procs.len() ==> (#[trigger] run_transfers(procs, conns, k)[t]).outs
            == procs[t].outs,
    decreases k,
{
    if k > 0 {
        lemma_run_transfers_frame(procs, conns, k - 1);
        let prev = run_transfers(procs, conns, k - 1);
        let cur = run_transfers(procs, conns, k);
        assert(cur == transfer_spec(prev, conns[k - 1]));
        let c = conns[k - 1];
        let src = slot_of(prev, c.output.proc);
        let dst = slot_of(prev, c.input.proc);
        lemma_slot_of(prev, c.output.proc);
        lemma_slot_of(prev, c.input.proc);
        if src >= 0 && dst >= 0 {
            assert(cur.len() == prev.len());
            assert forall|t: int| 0 <= t < procs.len() implies (#[trigger] cur[t]).id == procs[t].id
                && cur[t].outs == procs[t].outs by {
                if t == dst {
                    assert(cur[t].id == prev[t].id && cur[t].outs == prev[t].outs);
                } else {
                    assert(cur[t] == prev[t]);
                }
            }
        } else {
            assert(cur == prev);
        }
    }
}

/// A sample step keeps the list's length, ids and connections.
pub proof fn lemma_step_prefix_frame(procs: Seq<ConnectedProcessorView>, i: int)
    ensures
        step_prefix(procs, i).len() == procs.len(),
        forall|t: int| 0 <= t < procs.len() ==> (#[trigger] step_prefix(procs, i)[t]).id
            == procs[t].id,
        forall|t: int| 0 <= t < procs.len() ==> (#[trigger] step_prefix(procs, i)[t]).outs
            == procs[t].outs,
    decreases i,
{
    if i > 0 {
        lemma_step_prefix_frame(procs, i - 1);
        let prev = step_prefix(procs, i - 1);
        if 0 <= i - 1 < prev.len() {
            let p1 = prev.update(
                i - 1,
                ConnectedProcessorView { unit: prev[i - 1].unit.stepped(), ..prev[i - 1] },
            );
            lemma_run_transfers_frame(p1, prev[i - 1].outs, prev[i - 1].outs.len() as int);
        }
    }
}

/// Rendering keeps the list's length, ids and connections.
pub proof fn lemma_render_frame(procs: Seq<ConnectedProcessorView>, n: nat)
    ensures
        render_spec(procs, n).len() == procs.len(),
        forall|t: int| 0 <= t < procs.len() ==> (#[trigger] render_spec(procs, n)[t]).id
            == procs[t].id,
        forall|t: int| 0 <= t < procs.len() ==> (#[trigger] render_spec(procs, n)[t]).outs
            == procs[t].outs,
    decreases n,
{
    if n > 0 {
        lemma_render_frame(procs, (n - 1) as nat);
        lemma_step_prefix_frame(render_spec(procs, (n - 1) as nat), procs.len() as int);
    }
}

impl ConnectedProcessors {
    /// Read output port `port` of the instance at position `slot`.
    fn output_of_slot(&self, slot: usize, port: usize) -> (r: Sample)
        requires
            (slot as int) < self@.len(),
        ensures
            r == self@[slot as int].unit.output_at(port as int),
    {
        self.inner[slot].proc.get_output(port)
    }

    /// Write `v` to input port `port` of the instance at position `slot`.
    fn set_input_of_slot(&mut self, slot: usize, port: usize, v: Sample)
        requires
            (slot as int) < old(self)@.len(),
        ensures
            final(self)@ == old(self)@.update(
                slot as int,
                ConnectedProcessorView {
                    unit: old(self)@[slot as int].unit.with_input(port as int, v),
                    ..old(self)@[slot as int]
                },
            ),
    {
        let unit = &mut self.inner[slot].proc;
        unit.set_input(port, v);
        proof {
            assert(final(self)@ =~= old(self)@.update(
                slot as int,
                ConnectedProcessorView {
                    unit: old(self)@[slot as int].unit.with_input(port as int, v),
                    ..old(self)@[slot as int]
                },
            ));
        }
    }
}

impl Processor for ConnectedProcessors {
    /// Preparing runs `prepare` on every unit exactly once, in order.
    open spec fn prepare_rel(
        pre: ConnectedProcessors,
        post: ConnectedProcessors,
        config: AudioConfig,
    ) -> bool {
        post@ == prepare_all(pre@, config)
    }

    /// Processing renders one sample: each unit steps, then its outgoing
    /// connections execute, in list order.
    open spec fn process_rel(pre: ConnectedProcessors, post: ConnectedProcessors) -> bool {
        post@ == step_sample(pre@)
    }

    fn prepare(&mut self, config: AudioConfig) {
        let ghost start = self@;
        let n = self.inner.len();
        let mut i: usize = 0;
        while i < n
            invariant
                i <= n,
                n == start.len(),
                self@.len() == start.len(),
                forall|t: int| i <= t < start.len() ==> self@[t] == start[t],
                forall|t: int| 0 <= t < i ==> self@[t] == (ConnectedProcessorView {
                    unit: start[t].unit.prepared(config),
                    ..start[t]
                }),
            decreases n - i,
        {
            let ghost before = self@;
            let unit = &mut self.inner[i].proc;
            unit.prepare(config);
            proof {
                assert(self@ =~= before.update(
                    i as int,
                    ConnectedProcessorView {
                        unit: before[i as int].unit.prepared(config),
                        ..before[i as int]
                    },
                ));
            }
            i = i + 1;
        }
        proof {
            assert(self@ =~= prepare_all(start, config));
        }
    }

    fn process(&mut self) {
        let ghost start = self@;
        let n = self.inner.len();
        let mut i: usize = 0;
        while i < n
            invariant
                i <= n,
                n == start.len(),
                self@.len() == start.len(),
                self@ == step_prefix(start, i as int),
            decreases n - i,
        {
            let ghost before = self@;
            let unit = &mut self.inner[i].proc;
            unit.process();
            let ghost p1 = self@;
            proof {
                assert(p1 =~= before.update(
                    i as int,
                    ConnectedProcessorView {
                        unit: before[i as int].unit.stepped(),
                        ..before[i as int]
                    },
                ));
            }
            let ghost conns = before[i as int].outs;
            let m = self.inner[i].outs.len();
            let mut c: usize = 0;
            while c < m
                invariant
                    c <= m,
                    i < n,
                    n == self@.len(),
                    n == p1.len(),
                    conns.len() == m,
                    self@[i as int].outs == conns,
                    self@ == run_transfers(p1, conns, c as int),
                decreases m - c,
            {
                let ghost mid = self@;
                let conn = self.inner[i].outs[c];
                proof {
                    assert(conn == conns[c as int]);
                }
                let src = self.index_of_id(conn.output.proc);
                let dst = self.index_of_id(conn.input.proc);
                match (src, dst) {
                    (Some(s), Some(d)) => {
                        proof {
                            lemma_slot_of(mid, conn.output.proc);
                            lemma_slot_of(mid, conn.input.proc);
                        }
                        let v = self.output_of_slot(s, conn.output.port);
                        let ghost before_write = self@;
                        self.set_input_of_slot(d, conn.input.port, v);
                        proof {
                            assert(self@ == transfer_spec(mid, conn));
                            assert(self@[i as int].outs == conns);
                        }
                    },
                    _ => {
                        proof {
                            assert(self@ == transfer_spec(mid, conn));
                        }
                    },
                }
                c = c + 1;
            }
            proof {
                assert(self@ == step_at(before, i as int));
            }
            i = i + 1;
        }
    }
}

/// Anything that can render a run of samples. Each implementor pins down
/// with `render_rel` exactly what a run of `num_samples` samples does.
pub trait Renderable where Self: Sized {
    /// Exactly the state changes rendering `num_samples` samples may make.
    spec fn render_rel(pre: Self, post: Self, num_samples: usize) -> bool;

    fn render(&mut self, num_samples: usize)
        ensures
            Self::render_rel(*old(self), *final(self), num_samples),
    ;
}

/// What the verifier sees of a signal chain: its processors in execution
/// order, and its audio configuration.
pub struct SignalChainView {
    pub procs: Seq<ConnectedProcessorView>,
    pub config: AudioConfig,
}

/// An immutable, execution-ordered signal graph: rendering drives one
/// `process` per processor per sample, executing each processor's
/// outgoing connections right after its step.
pub struct SignalChain {
    processors: ConnectedProcessors,
    config: AudioConfig,
}

impl View for SignalChain {
    type V = SignalChainView;

    closed spec fn view(&self) -> SignalChainView {
        SignalChainView { procs: self.processors@, config: self.config }
    }
}

/// The list and the success flag after the control side pushes `v` at the
/// input endpoint of instance `id`: delivered when the instance exists,
/// is an input endpoint, and its stream has room.
pub open spec fn spec_enqueue_input(
    procs: Seq<ConnectedProcessorView>,
    id: usize,
    v: Sample,
) -> (Seq<ConnectedProcessorView>, bool) {
    let s = slot_of(procs, id);
    if s >= 0 {
        match procs[s].unit {
            ProcUnitView::Input(ev) => if ev.queue.len()
                < crate::stream::INPUT_STREAM_CAPACITY {
                (
                    procs.update(
                        s,
                        ConnectedProcessorView {
                            unit: ProcUnitView::Input(
                                crate::endpoints::InputEndpointView {
                                    queue: ev.queue.push(v.raw),
                                    ..ev
                                },
                            ),
                            ..procs[s]
                        },
                    ),
                    true,
                )
            } else {
                (procs, false)
            },
            _ => (procs, false),
        }
    } else {
        (procs, false)
    }
}

/// The list and the drained value after the caller pulls one rendered
/// value from the output endpoint of instance `id`.
pub open spec fn spec_dequeue_output(procs: Seq<ConnectedProcessorView>, id: usize) -> (
    Seq<ConnectedProcessorView>,
    Option<Sample>,
) {
    let s = slot_of(procs, id);
    if s >= 0 {
        match procs[s].unit {
            ProcUnitView::Output(q) => if q.len() > 0 {
                (
                    procs.update(
                        s,
                        ConnectedProcessorView {
                            unit: ProcUnitView::Output(q.drop_first()),
                            ..procs[s]
                        },
                    ),
                    Some(Sample { raw: q.first() }),
                )
            } else {
                (procs, None)
            },
            _ => (procs, None),
        }
    } else {
        (procs, None)
    }
}

/// What output port `port` of instance `id` shows; an unknown instance
/// reads zero.
pub open spec fn spec_output_of(procs: Seq<ConnectedProcessorView>, id: usize, port: int) -> Sample {
    let s = slot_of(procs, id);
    if s >= 0 {
        procs[s].unit.output_at(port)
    } else {
        Sample { raw: 0 }
    }
}

/// The list after `v` is written to input port `port` of instance `id`;
/// a write to an unknown instance goes nowhere.
pub open spec fn spec_set_input_of(
    procs: Seq<ConnectedProcessorView>,
    id: usize,
    port: int,
    v: Sample,
) -> Seq<ConnectedProcessorView> {
    let s = slot_of(procs, id);
    if s >= 0 {
        procs.update(
            s,
            ConnectedProcessorView { unit: procs[s].unit.with_input(port, v), ..procs[s] },
        )
    } else {
        procs
    }
}

impl SignalChain {
    /// How many processors the chain drives.
    pub fn len(&self) -> (n: usize)
        ensures
            n == self@.procs.len(),
    {
        self.processors.len()
    }

    /// The chain's configuration.
    pub fn config(&self) -> (r: AudioConfig)
        ensures
            r == self@.config,
    {
        self.config
    }

    /// Where the instance behind `processor` stands in execution order.
    pub fn index_of(&self, processor: &SharedProc) -> (r: Option<usize>)
        ensures
            r matches Some(j) ==> slot_of(self@.procs, processor.id) == j as int,
            r is None ==> slot_of(self@.procs, processor.id) < 0,
    {
        self.processors.index_of(processor)
    }

    /// The control side pushes `v` for the input endpoint of instance
    /// `id`; the value comes back when there is no such endpoint or its
    /// stream is full.
    pub fn enqueue_input(&mut self, id: usize, v: Sample) -> (r: Result<(), Sample>)
        ensures
            final(self)@.procs == spec_enqueue_input(old(self)@.procs, id, v).0,
            final(self)@.config == old(self)@.config,
            (r is Ok) == spec_enqueue_input(old(self)@.procs, id, v).1,
            r matches Err(x) ==> x == v,
    {
        proof {
            lemma_slot_of(self@.procs, id);
        }
        let slot = self.processors.index_of_id(id);
        match slot {
            Some(s) => {
                let ghost pre = self@.procs;
                let unit = &mut self.processors.inner[s].proc;
                match unit {
                    ProcUnit::Input(u) => {
                        let outcome = u.enqueue(v);
                        proof {
                            assert(final(self)@.procs =~= spec_enqueue_input(pre, id, v).0);
                        }
                        outcome
                    },
                    _ => Err(v),
                }
            },
            None => Err(v),
        }
    }

    /// The caller drains one rendered value from the output endpoint of
    /// instance `id`; an unknown instance or an empty stream yields
    /// nothing.
    pub fn dequeue_output(&mut self, id: usize) -> (r: Option<Sample>)
        ensures
            final(self)@.procs == spec_dequeue_output(old(self)@.procs, id).0,
            final(self)@.config == old(self)@.config,
            r == spec_dequeue_output(old(self)@.procs, id).1,
    {
        proof {
            lemma_slot_of(self@.procs, id);
        }
        let slot = self.processors.index_of_id(id);
        match slot {
            Some(s) => {
                let ghost pre = self@.procs;
                let unit = &mut self.processors.inner[s].proc;
                match unit {
                    ProcUnit::Output(u) => {
                        let outcome = u.dequeue();
                        proof {
                            assert(final(self)@.procs =~= spec_dequeue_output(pre, id).0);
                        }
                        outcome
                    },
                    _ => None,
                }
            },
            None => None,
        }
    }

    /// Read output port `port` of the instance behind `processor`.
    pub fn get_output(&self, processor: &SharedProc, port: usize) -> (r: Sample)
        ensures
            r == spec_output_of(self@.procs, processor.id, port as int),
    {
        proof {
            lemma_slot_of(self@.procs, processor.id);
        }
        let slot = self.processors.index_of_id(processor.id);
        match slot {
            Some(s) => self.processors.output_of_slot(s, port),
            None => Sample { raw: 0 },
        }
    }

    /// Write `v` to input port `port` of the instance behind `processor`.
    pub fn set_input(&mut self, processor: &SharedProc, port: usize, v: Sample)
        ensures
            final(self)@.procs == spec_set_input_of(old(self)@.procs, processor.id, port as int, v),
            final(self)@.config == old(self)@.config,
    {
        proof {
            lemma_slot_of(self@.procs, processor.id);
        }
        let slot = self.processors.index_of_id(processor.id);
        match slot {
            Some(s) => {
                self.processors.set_input_of_slot(s, port, v);
            },
            None => {},
        }
    }
}

impl Processor for SignalChain {
    /// Preparing records the block size and runs `prepare` on every
    /// processor exactly once, before any processing.
    open spec fn prepare_rel(pre: SignalChain, post: SignalChain, config: AudioConfig) -> bool {
        &&& post@.procs == prepare_all(pre@.procs, config)
        &&& post@.config == (AudioConfig { buffer_size: config.buffer_size, ..pre@.config })
    }

    /// Processing renders one block of the configured size.
    open spec fn process_rel(pre: SignalChain, post: SignalChain) -> bool {
        &&& post@.procs == render_spec(pre@.procs, pre@.config.buffer_size as nat)
        &&& post@.config == pre@.config
    }

    fn prepare(&mut self, config: AudioConfig) {
        self.config.buffer_size = config.buffer_size;
        self.processors.prepare(config);
    }

    fn process(&mut self) {
        let n = self.config.buffer_size;
        self.render(n);
    }
}

impl Renderable for SignalChain {
    /// Rendering `num_samples` samples steps every processor once per
    /// sample in execution order, each step followed by the processor's
    /// outgoing transfers.
    open spec fn render_rel(pre: SignalChain, post: SignalChain, num_samples: usize) -> bool {
        &&& post@.procs == render_spec(pre@.procs, num_samples as nat)
        &&& post@.config == pre@.config
    }

    fn render(&mut self, num_samples: usize) {
        let ghost start = self@;
        let mut s: usize = 0;
        while s < num_samples
            invariant
                s <= num_samples,
                self@.procs == render_spec(start.procs, s as nat),
                self@.config == start.config,
            decreases num_samples - s,
        {
            self.processors.process();
            s = s + 1;
        }
    }
}

/// `x` stands somewhere in `procs`.
pub open spec fn listed_in(procs: Seq<ConnectedProcessorView>, x: ConnectedProcessorView) -> bool {
    exists|j: int| 0 <= j < procs.len() && procs[j] == x
}

/// The processor list of a well-formed graph: no instance is listed
/// twice, every connection hangs off its own producer, and every
/// connection's consumer is listed.
pub open spec fn chain_wf(procs: Seq<ConnectedProcessorView>) -> bool {
    &&& forall|a: int, b: int|
        0 <= a < procs.len() && 0 <= b < procs.len() && a != b ==> (#[trigger] procs[a]).id != (
        #[trigger] procs[b]).id
    &&& forall|k: int, t: int|
        0 <= k < procs.len() && 0 <= t < procs[k].outs.len() ==> (#[trigger] procs[k].outs[t]).output.proc
            == procs[k].id && slot_of(procs, procs[k].outs[t].input.proc) >= 0
}

/// `slot_of` over an appended list: an id already listed keeps its slot,
/// the appended entry's id lands at the end, anything else stays missing.
pub proof fn lemma_slot_of_push(
    procs: Seq<ConnectedProcessorView>,
    x: ConnectedProcessorView,
    id: usize,
)
    ensures
        slot_of(procs.push(x), id) == if slot_of(procs, id) >= 0 {
            slot_of(procs, id)
        } else if x.id == id {
            procs.len() as int
        } else {
            -1
        },
    decreases procs.len(),
{
    let p = procs.push(x);
    if procs.len() == 0 {
        assert(p.len() == 1);
        assert(p[0] == x);
        assert(p.drop_first() =~= Seq::<ConnectedProcessorView>::empty());
        if x.id != id {
            assert(slot_of(p.drop_first(), id) == -1);
            assert(slot_of(p, id) == -1);
        }
    } else {
        lemma_slot_of_push(procs.drop_first(), x, id);
        assert(p.drop_first() =~= procs.drop_first().push(x));
        assert(p[0] == procs[0]);
        if procs[0].id != id {
            assert(slot_of(p.drop_first(), id) == slot_of(procs.drop_first().push(x), id));
        }
    }
}

/// The graph an accumulating builder holds; `build` linearizes it into a
/// chain.
pub struct SignalChainBuilder {
    chain: SignalChain,
}

impl View for SignalChainBuilder {
    type V = SignalChainView;

    closed spec fn view(&self) -> SignalChainView {
        self.chain@
    }
}

/// Where a connection points: the slot of its consumer's instance, or
/// slot zero for a consumer that is not listed.
pub open spec fn target_slot(procs: Seq<ConnectedProcessorView>, c: Connection) -> usize {
    if slot_of(procs, c.input.proc) >= 0 {
        slot_of(procs, c.input.proc) as usize
    } else {
        0
    }
}

/// The list after a connection is recorded: both instances are added if
/// missing, then the edge is recorded at its producer unless already
/// there.
pub open spec fn spec_connect(
    procs: Seq<ConnectedProcessorView>,
    out_id: usize,
    out_port: usize,
    out_unit: ProcUnitView,
    in_id: usize,
    in_port: usize,
    in_unit: ProcUnitView,
) -> Seq<ConnectedProcessorView> {
    let p1 = spec_add_processor(procs, out_id, out_unit);
    let p2 = spec_add_processor(p1, in_id, in_unit);
    let s = slot_of(p2, out_id);
    let edge = Connection {
        output: PortRef { proc: out_id, port: out_port },
        input: PortRef { proc: in_id, port: in_port },
    };
    if s >= 0 {
        p2.update(
            s,
            ConnectedProcessorView { outs: spec_add_connection(p2[s].outs, edge), ..p2[s] },
        )
    } else {
        p2
    }
}

impl Default for SignalChainBuilder {
    /// A builder holding no processors, at the default configuration.
    fn default() -> (r: SignalChainBuilder)
        ensures
            r@.procs == Seq::<ConnectedProcessorView>::empty(),
            r@.config == (AudioConfig { sample_rate: 48000, buffer_size: 64, num_channels: 2 }),
            chain_wf(r@.procs),
    {
        SignalChainBuilder {
            chain: SignalChain {
                processors: ConnectedProcessors::new(),
                config: AudioConfig { sample_rate: 48000, buffer_size: 64, num_channels: 2 },
            },
        }
    }
}

impl SignalChainBuilder {
    /// Add a processor instance; adding an instance again changes
    /// nothing.
    pub fn processor(self, processor: SharedProc) -> (r: SignalChainBuilder)
        ensures
            r@.procs == spec_add_processor(self@.procs, processor.id, processor.unit@),
            r@.config == self@.config,
            chain_wf(self@.procs) ==> chain_wf(r@.procs),
    {
        proof {
            lemma_add_processor_wf(self@.procs, processor.id, processor.unit@);
        }
        let mut me = self;
        me.chain.processors.push(processor);
        me
    }

    /// Record a connection; instances the ports name that are not yet
    /// added are added, and a connection recorded again changes nothing.
    pub fn connection(self, output: OutputPort, input: InputPort) -> (r: SignalChainBuilder)
        ensures
            r@.procs == spec_connect(
                self@.procs,
                output.proc.id,
                output.port,
                output.proc.unit@,
                input.proc.id,
                input.port,
                input.proc.unit@,
            ),
            r@.config == self@.config,
            chain_wf(self@.procs) ==> chain_wf(r@.procs),
    {
        proof {
            lemma_connect_wf(
                self@.procs,
                output.proc.id,
                output.port,
                output.proc.unit@,
                input.proc.id,
                input.port,
                input.proc.unit@,
            );
        }
        let out_id = output.proc.id;
        let out_port = output.port;
        let in_id = input.proc.id;
        let in_port = input.port;
        let mut me = self;
        me.chain.processors.push(output.proc);
        me.chain.processors.push(input.proc);
        proof {
            lemma_slot_of(me@.procs, out_id);
            lemma_slot_present_after_add(self@.procs, out_id, in_id);
        }
        let slot = me.chain.processors.index_of_id(out_id);
        match slot {
            Some(s) => {
                let edge = Connection {
                    output: PortRef { proc: out_id, port: out_port },
                    input: PortRef { proc: in_id, port: in_port },
                };
                let ghost pre = me@.procs;
                let cp = &mut me.chain.processors.inner[s];
                cp.add_output(edge);
                proof {
                    assert(me@.procs =~= pre.update(
                        s as int,
                        ConnectedProcessorView {
                            outs: spec_add_connection(pre[s as int].outs, edge),
                            ..pre[s as int]
                        },
                    ));
                }
            },
            None => {},
        }
        me
    }

    /// Linearize the graph. Succeeds exactly when the connections hold no
    /// directed cycle; the chain then lists the same instances, laid out
    /// in the one order the sorter determines, with every producer
    /// standing before every consumer its connections reach.
    pub fn build(self) -> (r: Result<SignalChain, BuildError>)
        requires
            chain_wf(self@.procs),
        ensures
            (r is Ok) <==> !has_cycle(&self),
            r matches Ok(chain) ==> chain@.procs == Seq::new(
                self@.procs.len(),
                |k: int| self@.procs[spec_sort_order(&self)[k] as int],
            ),
            r matches Ok(chain) ==> chain@.config == self@.config && chain@.procs.len()
                == self@.procs.len() && chain_wf(chain@.procs),
            r matches Ok(chain) ==> forall|k: int|
                0 <= k < chain@.procs.len() ==> #[trigger] listed_in(
                    self@.procs,
                    chain@.procs[k],
                ),
            r matches Ok(chain) ==> forall|k: int, t: int|
                0 <= k < chain@.procs.len() && 0 <= t < chain@.procs[k].outs.len() ==> {
                    let c = #[trigger] chain@.procs[k].outs[t];
                    slot_of(chain@.procs, c.output.proc) == k && k < slot_of(
                        chain@.procs,
                        c.input.proc,
                    )
                },
    {
        proof {
            lemma_builder_edges_in_range(&self);
        }
        let node_total = self.chain.processors.len();
        let sorted = TopologicalSort::sort(&self);
        let ghost pre = self@.procs;
        match sorted {
            Ok(order) => {
                let ghost post = Seq::new(order@.len() as nat, |k: int| pre[order@[k] as int]);
                proof {
                    assert(pre.len() == node_total as nat);
                    lemma_build_sorted(pre, post, order@, &self);
                    assert(post =~= Seq::new(
                        pre.len(),
                        |k: int| pre[spec_sort_order(&self)[k] as int],
                    ));
                }
                let mut me = self;
                me.chain.processors.order(order);
                proof {
                    assert(me@.procs =~= post);
                }
                Ok(me.chain)
            },
            Err(e) => Err(e),
        }
    }
}

/// Dedup-inserting a processor keeps the graph well formed.
pub proof fn lemma_add_processor_wf(
    procs: Seq<ConnectedProcessorView>,
    id: usize,
    unit: ProcUnitView,
)
    ensures
        chain_wf(procs) ==> chain_wf(spec_add_processor(procs, id, unit)),
{
    if chain_wf(procs) {
        lemma_slot_of(procs, id);
        if slot_of(procs, id) < 0 {
            let x = ConnectedProcessorView { id, unit, outs: Seq::empty() };
            let p2 = procs.push(x);
            assert forall|a: int, b: int|
                0 <= a < p2.len() && 0 <= b < p2.len() && a != b implies (#[trigger] p2[a]).id != (
            #[trigger] p2[b]).id by {
                if a < procs.len() && b < procs.len() {
                    assert(p2[a] == procs[a] && p2[b] == procs[b]);
                } else if a == procs.len() {
                    assert(p2[b] == procs[b]);
                    assert(procs[b].id != id);
                } else {
                    assert(p2[a] == procs[a]);
                    assert(procs[a].id != id);
                }
            }
            assert forall|k: int, t: int|
                0 <= k < p2.len() && 0 <= t < p2[k].outs.len() implies (#[trigger] p2[k].outs[t]).output.proc
                == p2[k].id && slot_of(p2, p2[k].outs[t].input.proc) >= 0 by {
                assert(k < procs.len());
                assert(p2[k] == procs[k]);
                lemma_slot_of_push(procs, x, procs[k].outs[t].input.proc);
            }
        }
    }
}

/// After both endpoint instances are added, the producer's id resolves.
pub proof fn lemma_slot_present_after_add(
    procs: Seq<ConnectedProcessorView>,
    out_id: usize,
    in_id: usize,
)
    ensures
        forall|u1: ProcUnitView, u2: ProcUnitView|
            slot_of(
                #[trigger] spec_add_processor(spec_add_processor(procs, out_id, u1), in_id, u2),
                out_id,
            ) >= 0,
{
    assert forall|u1: ProcUnitView, u2: ProcUnitView|
        slot_of(
            #[trigger] spec_add_processor(spec_add_processor(procs, out_id, u1), in_id, u2),
            out_id,
        ) >= 0 by {
        let p1 = spec_add_processor(procs, out_id, u1);
        let p2 = spec_add_processor(p1, in_id, u2);
        lemma_slot_of(procs, out_id);
        if slot_of(procs, out_id) < 0 {
            lemma_slot_of_push(procs, ConnectedProcessorView { id: out_id, unit: u1, outs: Seq::empty() }, out_id);
        }
        assert(slot_of(p1, out_id) >= 0);
        lemma_slot_of(p1, in_id);
        if slot_of(p1, in_id) < 0 {
            lemma_slot_of_push(p1, ConnectedProcessorView { id: in_id, unit: u2, outs: Seq::empty() }, out_id);
        }
    }
}

/// Recording a connection keeps the graph well formed.
pub proof fn lemma_connect_wf(
    procs: Seq<ConnectedProcessorView>,
    out_id: usize,
    out_port: usize,
    out_unit: ProcUnitView,
    in_id: usize,
    in_port: usize,
    in_unit: ProcUnitView,
)
    ensures
        chain_wf(procs) ==> chain_wf(
            spec_connect(procs, out_id, out_port, out_unit, in_id, in_port, in_unit),
        ),
{
    if chain_wf(procs) {
        lemma_add_processor_wf(procs, out_id, out_unit);
        let p1 = spec_add_processor(procs, out_id, out_unit);
        lemma_add_processor_wf(p1, in_id, in_unit);
        let p2 = spec_add_processor(p1, in_id, in_unit);
        lemma_slot_present_after_add(procs, out_id, in_id);
        let s = slot_of(p2, out_id);
        lemma_slot_of(p2, out_id);
        let edge = Connection {
            output: PortRef { proc: out_id, port: out_port },
            input: PortRef { proc: in_id, port: in_port },
        };
        let p3 = spec_connect(procs, out_id, out_port, out_unit, in_id, in_port, in_unit);
        assert(p3 == p2.update(
            s,
            ConnectedProcessorView { outs: spec_add_connection(p2[s].outs, edge), ..p2[s] },
        ));
        // the consumer's id resolves in `p2`, hence in `p3`, whose ids match
        lemma_slot_of(p1, in_id);
        if slot_of(p1, in_id) < 0 {
            lemma_slot_of_push(p1, ConnectedProcessorView { id: in_id, unit: in_unit, outs: Seq::empty() }, in_id);
        }
        assert(slot_of(p2, in_id) >= 0);
        assert forall|id2: usize| slot_of(p2, id2) >= 0 implies #[trigger] slot_of(p3, id2)
            >= 0 by {
            lemma_slot_of(p2, id2);
            let j = slot_of(p2, id2);
            assert(p3[j].id == id2);
            lemma_slot_of(p3, id2);
        }
        assert forall|k: int, t: int|
            0 <= k < p3.len() && 0 <= t < p3[k].outs.len() implies (#[trigger] p3[k].outs[t]).output.proc
            == p3[k].id && slot_of(p3, p3[k].outs[t].input.proc) >= 0 by {
            if k == s && !p2[s].outs.contains(edge) && t == p3[k].outs.len() - 1 {
                assert(p3[k].outs[t] == edge);
                assert(p3[k].id == out_id);
            } else {
                assert(p3[k].outs[t] == p2[k].outs[t]);
                assert(p3[k].id == p2[k].id);
                assert(slot_of(p2, p2[k].outs[t].input.proc) >= 0);
            }
        }
    }
}

/// Every builder's edges stay inside its own processor list.
pub proof fn lemma_builder_edges_in_range(b: &SignalChainBuilder)
    ensures
        edges_in_range(b),
{
    assert forall|i: int, k: int|
        0 <= i < b.node_count() && 0 <= k < b.successors_of(i).len() implies ((
    #[trigger] b.successors_of(i)[k]) as nat) < b.node_count() by {
        let procs = b@.procs;
        let c = procs[i].outs[k];
        lemma_slot_of(procs, c.input.proc);
        assert(b.successors_of(i)[k] == target_slot(procs, c));
    }
}

impl Sortable for SignalChainBuilder {
    open spec fn node_count(&self) -> nat {
        self@.procs.len()
    }

    open spec fn successors_of(&self, i: int) -> Seq<usize> {
        if 0 <= i < self@.procs.len() {
            Seq::new(
                self@.procs[i].outs.len(),
                |k: int| target_slot(self@.procs, self@.procs[i].outs[k]),
            )
        } else {
            Seq::empty()
        }
    }

    fn num_nodes(&self) -> (n: usize) {
        self.chain.processors.len()
    }

    fn next_nodes(&self, index: usize) -> (r: Vec<usize>) {
        let cp = &self.chain.processors.inner[index];
        let mut r: Vec<usize> = Vec::new();
        let mut k: usize = 0;
        while k < cp.outs.len()
            invariant
                k <= cp@.outs.len(),
                cp@ == self@.procs[index as int],
                (index as int) < self@.procs.len(),
                r@.len() == k,
                forall|t: int| 0 <= t < k ==> r@[t] == target_slot(
                    self@.procs,
                    #[trigger] cp@.outs[t],
                ),
            decreases cp@.outs.len() - k,
        {
            let conn = cp.outs[k];
            let slot = self.chain.processors.index_of_id(conn.input.proc);
            match slot {
                Some(t) => {
                    r.push(t);
                },
                None => {
                    r.push(0);
                },
            }
            k = k + 1;
        }
        proof {
            assert(r@ =~= self.successors_of(index as int));
        }
        r
    }
}

/// The sorted list `build` returns is the builder's list reordered by
/// `order`, every producer standing before its consumers.
proof fn lemma_build_sorted(
    pre: Seq<ConnectedProcessorView>,
    post: Seq<ConnectedProcessorView>,
    order: Seq<usize>,
    b: &SignalChainBuilder,
)
    requires
        chain_wf(pre),
        pre.len() <= usize::MAX,
        b@.procs == pre,
        crate::sort::lists_nodes_once(b, order),
        crate::sort::respects_edges(b, order),
        post.len() == pre.len(),
        forall|k: int| 0 <= k < order.len() ==> post[k] == pre[#[trigger] order[k] as int],
    ensures
        chain_wf(post),
        forall|k: int| 0 <= k < post.len() ==> #[trigger] listed_in(pre, post[k]),
        forall|k: int, t: int|
            0 <= k < post.len() && 0 <= t < post[k].outs.len() ==> {
                let c = #[trigger] post[k].outs[t];
                slot_of(post, c.output.proc) == k && k < slot_of(post, c.input.proc)
            },
{
    assert(order.len() == pre.len());
    assert forall|a: int, b2: int|
        0 <= a < post.len() && 0 <= b2 < post.len() && a != b2 implies (#[trigger] post[a]).id != (
    #[trigger] post[b2]).id by {
        assert(post[a] == pre[order[a] as int]);
        assert(post[b2] == pre[order[b2] as int]);
        assert(order[a] != order[b2]);
    }
    assert forall|k: int| 0 <= k < post.len() implies #[trigger] listed_in(pre, post[k]) by {
        assert(0 <= (order[k] as int) < pre.len() && post[k] == pre[order[k] as int]);
    }
    assert forall|k: int, t: int|
        0 <= k < post.len() && 0 <= t < post[k].outs.len() implies {
        let c = #[trigger] post[k].outs[t];
        slot_of(post, c.output.proc) == k && k < slot_of(post, c.input.proc)
    } by {
        let c = post[k].outs[t];
        let src = order[k] as int;
        assert(post[k] == pre[src]);
        assert(c.output.proc == pre[src].id);
        lemma_slot_of_distinct(post, k);
        assert(slot_of(post, c.output.proc) == k);
        // the consumer's position in the order stands past `k`
        lemma_slot_of(pre, c.input.proc);
        let j = slot_of(pre, c.input.proc);
        assert(j >= 0);
        assert(b.successors_of(src)[t] == target_slot(pre, c));
        assert(target_slot(pre, c) == j as usize);
        assert(crate::sort::has_edge(b, order[k], j as usize)) by {
            assert(b.successors_of(src).contains(j as usize));
        }
        assert(order.contains(j as usize));
        let j2 = choose|j2: int| 0 <= j2 < order.len() && order[j2] == j as usize;
        assert(crate::sort::has_edge(b, order[k], order[j2]));
        assert(k < j2);
        assert(post[j2] == pre[j]);
        assert(post[j2].id == c.input.proc);
        lemma_slot_of_distinct(post, j2);
        assert(slot_of(post, c.input.proc) == j2);
    }
    assert forall|k: int, t: int|
        0 <= k < post.len() && 0 <= t < post[k].outs.len() implies (#[trigger] post[k].outs[t]).output.proc
        == post[k].id && slot_of(post, post[k].outs[t].input.proc) >= 0 by {
        let c = post[k].outs[t];
        let src = order[k] as int;
        assert(post[k] == pre[src]);
        lemma_slot_of(pre, c.input.proc);
        let j = slot_of(pre, c.input.proc);
        assert(j >= 0);
        assert(b.successors_of(src)[t] == target_slot(pre, c));
        assert(order.contains(j as usize));
        let j2 = choose|j2: int| 0 <= j2 < order.len() && order[j2] == j as usize;
        assert(post[j2] == pre[j]);
        lemma_slot_of_distinct(post, j2);
    }
}

/// Idempotent insertion law, processors: adding an instance twice leaves
/// exactly the list one add leaves, whatever the second handle carries.
pub proof fn lemma_processor_idempotent(
    procs: Seq<ConnectedProcessorView>,
    id: usize,
    unit: ProcUnitView,
    unit2: ProcUnitView,
)
    ensures
        spec_add_processor(spec_add_processor(procs, id, unit), id, unit2) == spec_add_processor(
            procs,
            id,
            unit,
        ),
{
    let p1 = spec_add_processor(procs, id, unit);
    lemma_slot_of(procs, id);
    if slot_of(procs, id) < 0 {
        lemma_slot_of_push(
            procs,
            ConnectedProcessorView { id, unit, outs: Seq::empty() },
            id,
        );
    }
    assert(slot_of(p1, id) >= 0);
}

/// Idempotent insertion law, connections: recording the same connection
/// twice leaves exactly the list one recording leaves.
pub proof fn lemma_connection_idempotent(
    procs: Seq<ConnectedProcessorView>,
    out_id: usize,
    out_port: usize,
    out_unit: ProcUnitView,
    in_id: usize,
    in_port: usize,
    in_unit: ProcUnitView,
)
    ensures
        spec_connect(
            spec_connect(procs, out_id, out_port, out_unit, in_id, in_port, in_unit),
            out_id,
            out_port,
            out_unit,
            in_id,
            in_port,
            in_unit,
        ) == spec_connect(procs, out_id, out_port, out_unit, in_id, in_port, in_unit),
{
    let p2 = spec_add_processor(spec_add_processor(procs, out_id, out_unit), in_id, in_unit);
    lemma_slot_present_after_add(procs, out_id, in_id);
    let s = slot_of(p2, out_id);
    lemma_slot_of(p2, out_id);
    let edge = Connection {
        output: PortRef { proc: out_id, port: out_port },
        input: PortRef { proc: in_id, port: in_port },
    };
    let q = spec_connect(procs, out_id, out_port, out_unit, in_id, in_port, in_unit);
    assert(q == p2.update(
        s,
        ConnectedProcessorView { outs: spec_add_connection(p2[s].outs, edge), ..p2[s] },
    ));
    // both instances stay listed, so the second recording adds nothing new
    assert forall|id2: usize| slot_of(p2, id2) >= 0 implies #[trigger] slot_of(q, id2) >= 0 by {
        lemma_slot_of(p2, id2);
        let j = slot_of(p2, id2);
        assert(q[j].id == id2);
        lemma_slot_of(q, id2);
    }
    assert(slot_of(q, out_id) >= 0);
    lemma_slot_of(spec_add_processor(procs, out_id, out_unit), in_id);
    lemma_slot_of(procs, out_id);
    assert(spec_add_processor(q, out_id, out_unit) == q);
    lemma_slot_of(q, in_id);
    assert(slot_of(p2, in_id) >= 0) by {
        let p1 = spec_add_processor(procs, out_id, out_unit);
        lemma_slot_of(p1, in_id);
        if slot_of(p1, in_id) < 0 {
            lemma_slot_of_push(
                p1,
                ConnectedProcessorView { id: in_id, unit: in_unit, outs: Seq::empty() },
                in_id,
            );
        }
    }
    assert(slot_of(q, in_id) >= 0);
    assert(spec_add_processor(spec_add_processor(q, out_id, out_unit), in_id, in_unit) == q);
    // the producer sits where it sat, already carrying the edge
    let s2 = slot_of(q, out_id);
    lemma_slot_of(q, out_id);
    assert(q[s2].id == out_id);
    assert(p2[s].id == out_id);
    assert forall|j: int| 0 <= j < s2 implies (#[trigger] q[j]).id != out_id by {
        lemma_slot_of(q, out_id);
    }
    assert(s2 == s) by {
        if s2 < s {
            assert(p2[s2].id != out_id);
            assert(q[s2] == p2[s2]);
        }
        if s2 > s {
            assert(q[s].id == out_id);
        }
    }
    assert(q[s].outs.contains(edge)) by {
        if p2[s].outs.contains(edge) {
            assert(q[s].outs == p2[s].outs);
        } else {
            assert(q[s].outs == p2[s].outs.push(edge));
            assert(q[s].outs[q[s].outs.len() - 1] == edge);
        }
    }
    assert(spec_add_connection(q[s].outs, edge) == q[s].outs);
    assert(spec_connect(q, out_id, out_port, out_unit, in_id, in_port, in_unit) =~= q) by {
        assert(spec_connect(q, out_id, out_port, out_unit, in_id, in_port, in_unit) == q.update(
            s,
            ConnectedProcessorView { outs: q[s].outs, ..q[s] },
        ));
        assert((ConnectedProcessorView { outs: q[s].outs, ..q[s] }) == q[s]);
    }
}

/// A relay line: an unconditioned follow-mode input endpoint feeding a
/// run of pass-through units, each connected to the next on port 0.
pub open spec fn is_relay_line(procs: Seq<ConnectedProcessorView>) -> bool {
    &&& procs.len() >= 1
    &&& chain_wf(procs)
    &&& (procs[0].unit matches ProcUnitView::Input(ev) && ev.range is None && ev.smooth is None
        && ev.kind == crate::endpoints::InputEndpointKind::Follow)
    &&& forall|t: int| 1 <= t < procs.len() ==> (#[trigger] procs[t].unit) is Dummy
    &&& forall|t: int|
        0 <= t < procs.len() - 1 ==> (#[trigger] procs[t].outs) == seq![
            Connection {
                output: PortRef { proc: procs[t].id, port: 0 },
                input: PortRef { proc: procs[t + 1].id, port: 0 },
            },
        ]
    &&& procs[procs.len() - 1].outs == Seq::<Connection>::empty()
}

/// Per-sample propagation law: in a relay line with a queued value, one
/// rendered sample carries that value all the way to the last unit's
/// output port — there is no per-hop delay.
pub proof fn lemma_relay_line_propagates(procs: Seq<ConnectedProcessorView>, q: Seq<i64>)
    requires
        is_relay_line(procs),
        procs[0].unit matches ProcUnitView::Input(ev) && ev.queue == q,
        q.len() > 0,
    ensures
        step_sample(procs)[procs.len() - 1].unit.output_at(0) == (Sample { raw: q.first() }),
{
    lemma_relay_prefix(procs, q, procs.len() as int);
    let last = procs.len() - 1;
    if last > 0 {
        assert(step_prefix(procs, procs.len() as int)[last].unit == ProcUnitView::Dummy(
            crate::processors::DummyProcessor { value: Sample { raw: q.first() } },
        ));
    }
}

/// After the first `m` units of a relay line step, the queued value shows
/// on the input endpoint and on every pass-through unit up to `m`.
proof fn lemma_relay_prefix(procs: Seq<ConnectedProcessorView>, q: Seq<i64>, m: int)
    requires
        is_relay_line(procs),
        procs[0].unit matches ProcUnitView::Input(ev) && ev.queue == q,
        q.len() > 0,
        0 <= m <= procs.len(),
    ensures
        step_prefix(procs, m).len() == procs.len(),
        forall|t: int| 0 <= t < procs.len() ==> (#[trigger] step_prefix(procs, m)[t]).id
            == procs[t].id,
        forall|t: int| 0 <= t < procs.len() ==> (#[trigger] step_prefix(procs, m)[t]).outs
            == procs[t].outs,
        m >= 1 ==> step_prefix(procs, m)[0].unit == procs[0].unit.stepped(),
        m >= 1 ==> step_prefix(procs, m)[0].unit.output_at(0) == (Sample { raw: q.first() }),
        forall|t: int|
            1 <= t <= m && t < procs.len() ==> (#[trigger] step_prefix(procs, m)[t]).unit
                == ProcUnitView::Dummy(
                crate::processors::DummyProcessor { value: Sample { raw: q.first() } },
            ),
        forall|t: int|
            m < t < procs.len() ==> (#[trigger] step_prefix(procs, m)[t]).unit == procs[t].unit,
    decreases m,
{
    lemma_step_prefix_frame(procs, m);
    let v = Sample { raw: q.first() };
    if m > 0 {
        lemma_relay_prefix(procs, q, m - 1);
        lemma_step_prefix_frame(procs, m - 1);
        let st = step_prefix(procs, m - 1);
        let i = m - 1;
        assert(step_prefix(procs, m) == step_at(st, i));
        let p1 = st.update(
            i,
            ConnectedProcessorView { unit: st[i].unit.stepped(), ..st[i] },
        );
        assert(step_at(st, i) == run_transfers(p1, st[i].outs, st[i].outs.len() as int));
        // the stepped unit at `i` shows the value
        if i == 0 {
            assert(st[0].unit == procs[0].unit);
            assert(st[0].unit.stepped().output_at(0) == v);
        } else {
            assert(st[i].unit == ProcUnitView::Dummy(
                crate::processors::DummyProcessor { value: v },
            ));
            assert(st[i].unit.stepped() == st[i].unit);
        }
        assert(st[i].outs == procs[i].outs);
        if i < procs.len() - 1 {
            // one outgoing connection hands the value to the next unit
            let c = procs[i].outs[0];
            assert(procs[i].outs.len() == 1);
            assert(run_transfers(p1, procs[i].outs, 1) == transfer_spec(
                run_transfers(p1, procs[i].outs, 0),
                c,
            ));
            assert(run_transfers(p1, procs[i].outs, 0) == p1);
            assert forall|a: int, b: int|
                0 <= a < p1.len() && 0 <= b < p1.len() && a != b implies (#[trigger] p1[a]).id != (
            #[trigger] p1[b]).id by {
                assert(p1[a].id == procs[a].id && p1[b].id == procs[b].id);
            }
            lemma_slot_of_distinct(p1, i);
            lemma_slot_of_distinct(p1, i + 1);
            assert(p1[i].id == procs[i].id && p1[i + 1].id == procs[i + 1].id);
            assert(slot_of(p1, c.output.proc) == i);
            assert(slot_of(p1, c.input.proc) == i + 1);
            assert(p1[i].unit.output_at(0) == v);
            let after = transfer_spec(p1, c);
            assert(after == p1.update(
                i + 1,
                ConnectedProcessorView {
                    unit: p1[i + 1].unit.with_input(0, v),
                    ..p1[i + 1]
                },
            ));
            assert(procs[i + 1].unit is Dummy);
            assert(p1[i + 1].unit == procs[i + 1].unit || (1 <= i + 1 <= m - 1
                && p1[i + 1].unit == ProcUnitView::Dummy(
                crate::processors::DummyProcessor { value: v },
            )));
            assert(after[i + 1].unit == ProcUnitView::Dummy(
                crate::processors::DummyProcessor { value: v },
            ));
        } else {
            assert(procs[i].outs == Seq::<Connection>::empty());
            assert(run_transfers(p1, procs[i].outs, 0) == p1);
        }
    }
}

/// A fan-out star: one fanning unit whose three outputs feed three
/// distinct pass-through units, one connection per output port, in port
/// order.
pub open spec fn is_fanout_star(procs: Seq<ConnectedProcessorView>) -> bool {
    &&& procs.len() == 4
    &&& chain_wf(procs)
    &&& procs[0].unit is MultiOut
    &&& forall|t: int| 1 <= t < 4 ==> (#[trigger] procs[t].unit) is Dummy
    &&& procs[0].outs == seq![
        Connection {
            output: PortRef { proc: procs[0].id, port: 0 },
            input: PortRef { proc: procs[1].id, port: 0 },
        },
        Connection {
            output: PortRef { proc: procs[0].id, port: 1 },
            input: PortRef { proc: procs[2].id, port: 0 },
        },
        Connection {
            output: PortRef { proc: procs[0].id, port: 2 },
            input: PortRef { proc: procs[3].id, port: 0 },
        },
    ]
    &&& forall|t: int| 1 <= t < 4 ==> (#[trigger] procs[t].outs) == Seq::<Connection>::empty()
}

/// Multi-fanout law: in every rendered sample, all three consumers of the
/// fanning unit observe the value it produced in that same sample — its
/// transfers run after its own step and before any consumer's step.
pub proof fn lemma_fanout_star_propagates(procs: Seq<ConnectedProcessorView>, w: Sample)
    requires
        is_fanout_star(procs),
        procs[0].unit == ProcUnitView::MultiOut(crate::processors::MultiOutProcessor { value: w }),
    ensures
        forall|t: int| 1 <= t < 4 ==> (#[trigger] step_sample(procs)[t].unit) == ProcUnitView::Dummy(
            crate::processors::DummyProcessor { value: w },
        ),
        forall|t: int| 1 <= t < 4 ==> #[trigger] step_sample(procs)[t].unit.output_at(0) == w,
{
    let du = ProcUnitView::Dummy(crate::processors::DummyProcessor { value: w });
    // the fanning unit steps (a pass-through step), then its three
    // transfers hand its value to slots 1, 2 and 3 in turn
    let p1 = procs.update(0, ConnectedProcessorView { unit: procs[0].unit.stepped(), ..procs[0] });
    assert(p1[0].unit == procs[0].unit);
    assert(p1 =~= procs);
    let outs = procs[0].outs;
    assert forall|a: int, b: int|
        0 <= a < p1.len() && 0 <= b < p1.len() && a != b implies (#[trigger] p1[a]).id != (
    #[trigger] p1[b]).id by {
        assert(p1[a].id == procs[a].id && p1[b].id == procs[b].id);
    }
    let st1 = transfer_spec(p1, outs[0]);
    lemma_slot_of_distinct(p1, 0);
    lemma_slot_of_distinct(p1, 1);
    assert(st1 == p1.update(1, ConnectedProcessorView { unit: du, ..p1[1] }));
    let st2 = transfer_spec(st1, outs[1]);
    assert forall|a: int, b: int|
        0 <= a < st1.len() && 0 <= b < st1.len() && a != b implies (#[trigger] st1[a]).id != (
    #[trigger] st1[b]).id by {
        assert(st1[a].id == p1[a].id && st1[b].id == p1[b].id);
    }
    lemma_slot_of_distinct(st1, 0);
    lemma_slot_of_distinct(st1, 2);
    assert(st2 == st1.update(2, ConnectedProcessorView { unit: du, ..st1[2] }));
    let st3 = transfer_spec(st2, outs[2]);
    assert forall|a: int, b: int|
        0 <= a < st2.len() && 0 <= b < st2.len() && a != b implies (#[trigger] st2[a]).id != (
    #[trigger] st2[b]).id by {
        assert(st2[a].id == p1[a].id && st2[b].id == p1[b].id);
    }
    lemma_slot_of_distinct(st2, 0);
    lemma_slot_of_distinct(st2, 3);
    assert(st3 == st2.update(3, ConnectedProcessorView { unit: du, ..st2[3] }));
    assert(run_transfers(p1, outs, 0) == p1);
    assert(run_transfers(p1, outs, 1) == st1);
    assert(run_transfers(p1, outs, 2) == st2);
    assert(run_transfers(p1, outs, 3) == st3);
    assert(outs.len() == 3);
    assert(step_prefix(procs, 0) == procs);
    assert(step_prefix(procs, 1) == step_at(procs, 0));
    assert(step_at(procs, 0) == run_transfers(p1, outs, 3));
    assert(step_prefix(procs, 1) == st3);
    // the three consumers then take their own steps, which change nothing
    assert(st3[1].unit == du && st3[2].unit == du && st3[3].unit == du);
    assert(st3[1].outs == procs[1].outs && st3[2].outs == procs[2].outs && st3[3].outs
        == procs[3].outs);
    lemma_relay_style_idle_step(procs, st3, 1);
    lemma_relay_style_idle_step(procs, st3, 2);
    lemma_relay_style_idle_step(procs, st3, 3);
    assert(step_sample(procs) == step_prefix(procs, 4));
    assert(step_prefix(procs, 4) == st3);
    assert forall|t: int| 1 <= t < 4 implies (#[trigger] step_sample(procs)[t].unit) == du by {
        if t == 1 {
            assert(st3[1].unit == du);
        } else if t == 2 {
            assert(st3[2].unit == du);
        } else {
            assert(st3[3].unit == du);
        }
    }
}

/// A step of a unit with no outgoing connections and an idle step
/// relation leaves the list unchanged.
proof fn lemma_relay_style_idle_step(
    procs: Seq<ConnectedProcessorView>,
    prev: Seq<ConnectedProcessorView>,
    m: int,
)
    requires
        prev == step_prefix(procs, m),
        prev.len() == procs.len(),
        0 <= m < procs.len(),
        prev[m].unit is Dummy,
        prev[m].outs == procs[m].outs,
        procs[m].outs == Seq::<Connection>::empty(),
    ensures
        step_prefix(procs, m + 1) == prev,
{
    let p1 = prev.update(m, ConnectedProcessorView { unit: prev[m].unit.stepped(), ..prev[m] });
    assert(prev[m].unit.stepped() == prev[m].unit);
    assert(p1 =~= prev);
    assert(run_transfers(p1, prev[m].outs, 0) == p1);
    assert(step_prefix(procs, m + 1) == step_at(prev, m));
}

} // verus!
