//! The dispatch/correlation bridge: many submitters hand work to exactly one
//! serialized render worker and each gets back its own result.
//!
//! Submissions enter a FIFO queue; each gets a fresh single-use correlation
//! slot, keyed by its index. The worker serves the queue strictly in order,
//! one request at a time, and completes exactly the slot of the request it
//! served. A waiter polls only its own slot, so it can never observe another
//! submitter's pixels; if the worker dies, the slot of the request in
//! service and of every request still queued closes unwritten, so each of
//! those waiters sees the abort rather than hanging on a slot that could
//! never be completed.

use vstd::prelude::*;

use vstd::pervasive::VecAdditionalExecFns;

use crate::params::SunParams;

verus! {

/// What one correlation slot holds over its life: created pending, written
/// at most once (completed or aborted), emptied at most once (taken).
pub enum Slot {
    Pending,
    Completed(Vec<u8>),
    Aborted,
    Taken,
}

/// Ghost image of a slot.
pub enum SlotModel {
    Pending,
    Completed(Seq<u8>),
    Aborted,
    Taken,
}

impl View for Slot {
    type V = SlotModel;

    open spec fn view(&self) -> SlotModel {
        match self {
            Slot::Pending => SlotModel::Pending,
            Slot::Completed(p) => SlotModel::Completed(p@),
            Slot::Aborted => SlotModel::Aborted,
            Slot::Taken => SlotModel::Taken,
        }
    }
}

/// Phase of the single render worker.
pub enum EngineState {
    Ready,
    Rendering(usize),
    Terminated,
}

/// Ghost image of the worker phase.
pub enum EngineModel {
    Ready,
    Rendering(int),
    Terminated,
}

impl View for EngineState {
    type V = EngineModel;

    open spec fn view(&self) -> EngineModel {
        match self {
            EngineState::Ready => EngineModel::Ready,
            EngineState::Rendering(i) => EngineModel::Rendering(*i as int),
            EngineState::Terminated => EngineModel::Terminated,
        }
    }
}

/// One queued unit of work: the slot it will complete and its parameters.
pub struct QueueEntry {
    pub id: usize,
    pub params: SunParams,
}

/// Ghost image of the whole bridge.
pub struct BridgeModel {
    pub width: int,
    pub height: int,
    pub queue: Seq<(int, SunParams)>,
    pub slots: Seq<SlotModel>,
    pub engine: EngineModel,
    pub renders_started: int,
}

impl BridgeModel {
    /// Everything the bridge maintains across its life: queued requests
    /// point at distinct pending slots, at most one request is in service
    /// and it is pending and no longer queued, every completed slot holds a
    /// full frame, and the worker cannot have started more requests than
    /// were ever submitted.
    pub open spec fn wf(self) -> bool {
        &&& 1 <= self.width <= 32768
        &&& self.height == self.width / 2
        &&& forall|k: int|
            0 <= k < self.queue.len() ==> 0 <= (#[trigger] self.queue[k]).0 < self.slots.len()
                && self.slots[self.queue[k].0] is Pending
        &&& forall|k1: int, k2: int|
            0 <= k1 < k2 < self.queue.len() ==> (#[trigger] self.queue[k1]).0 != (
            #[trigger] self.queue[k2]).0
        &&& (self.engine matches EngineModel::Rendering(i) ==> 0 <= i < self.slots.len()
            && self.slots[i] is Pending && (forall|k: int|
            0 <= k < self.queue.len() ==> (#[trigger] self.queue[k]).0 != i))
        &&& forall|j: int|
            0 <= j < self.slots.len() ==> ((#[trigger] self.slots[j]) matches SlotModel::Completed(
                p,
            ) ==> p.len() == 4 * self.width * self.height)
        &&& 0 <= self.renders_started
        &&& self.renders_started + self.queue.len() <= self.slots.len()
    }
}

/// A submission appends a fresh pending slot and queues its index.
pub open spec fn spec_submit(m: BridgeModel, p: SunParams) -> BridgeModel {
    BridgeModel {
        queue: m.queue.push((m.slots.len() as int, p)),
        slots: m.slots.push(SlotModel::Pending),
        ..m
    }
}

/// Starting a render takes the oldest queued request into service.
pub open spec fn spec_begin(m: BridgeModel) -> BridgeModel {
    BridgeModel {
        queue: m.queue.skip(1),
        engine: EngineModel::Rendering(m.queue[0].0),
        renders_started: m.renders_started + 1,
        ..m
    }
}

/// Finishing a render completes exactly the slot in service.
pub open spec fn spec_finish(m: BridgeModel, id: int, px: Seq<u8>) -> BridgeModel {
    BridgeModel {
        slots: m.slots.update(id, SlotModel::Completed(px)),
        engine: EngineModel::Ready,
        ..m
    }
}

/// Whether some queued entry points at slot `j`.
pub open spec fn is_queued(queue: Seq<(int, SunParams)>, j: int) -> bool {
    exists|k: int| 0 <= k < queue.len() && (#[trigger] queue[k]).0 == j
}

/// Every queued slot closed unwritten: what an engine death leaves behind
/// for the requests it will never serve.
pub open spec fn close_queued(slots: Seq<SlotModel>, queue: Seq<(int, SunParams)>) -> Seq<
    SlotModel,
>
    decreases queue.len(),
{
    if queue.len() == 0 {
        slots
    } else {
        close_queued(slots.update(queue[0].0, SlotModel::Aborted), queue.skip(1))
    }
}

pub proof fn lemma_close_queued(slots: Seq<SlotModel>, queue: Seq<(int, SunParams)>)
    requires
        forall|k: int| 0 <= k < queue.len() ==> 0 <= (#[trigger] queue[k]).0 < slots.len(),
    ensures
        close_queued(slots, queue).len() == slots.len(),
        forall|j: int|
            0 <= j < slots.len() ==> close_queued(slots, queue)[j] == (if is_queued(queue, j) {
                SlotModel::Aborted
            } else {
                slots[j]
            }),
    decreases queue.len(),
{
    if queue.len() > 0 {
        let s1 = slots.update(queue[0].0, SlotModel::Aborted);
        let q1 = queue.skip(1);
        assert forall|k: int| 0 <= k < q1.len() implies 0 <= (#[trigger] q1[k]).0 < s1.len() by {
            assert(q1[k] == queue[k + 1]);
        }
        lemma_close_queued(s1, q1);
        assert forall|j: int|
            0 <= j < slots.len() implies close_queued(slots, queue)[j] == (if is_queued(queue, j) {
            SlotModel::Aborted
        } else {
            slots[j]
        }) by {
            if is_queued(q1, j) {
                let k = choose|k: int| 0 <= k < q1.len() && (#[trigger] q1[k]).0 == j;
                assert(queue[k + 1].0 == j);
            } else if j == queue[0].0 {
                assert(is_queued(queue, j));
            } else {
                if is_queued(queue, j) {
                    let k = choose|k: int| 0 <= k < queue.len() && (#[trigger] queue[k]).0 == j;
                    assert(q1[k - 1].0 == j);
                }
            }
        }
    }
}

/// An aborted render closes its own slot unwritten and the engine for good;
/// the requests still queued will never be served, so their slots close
/// unwritten too — every waiter observes the failure instead of hanging.
pub open spec fn spec_abort(m: BridgeModel, id: int) -> BridgeModel {
    BridgeModel {
        slots: close_queued(m.slots, m.queue).update(id, SlotModel::Aborted),
        queue: Seq::empty(),
        engine: EngineModel::Terminated,
        ..m
    }
}

/// Delivery empties the one closed slot it came from.
pub open spec fn spec_take(m: BridgeModel, id: int) -> BridgeModel {
    BridgeModel { slots: m.slots.update(id, SlotModel::Taken), ..m }
}

/// Orderly shutdown between renders: the engine stops consuming, and the
/// queued requests it abandons close unwritten so their waiters observe it.
pub open spec fn spec_terminate(m: BridgeModel) -> BridgeModel {
    BridgeModel {
        slots: close_queued(m.slots, m.queue),
        queue: Seq::empty(),
        engine: EngineModel::Terminated,
        ..m
    }
}

pub proof fn lemma_submit_wf(m: BridgeModel, p: SunParams)
    requires
        m.wf(),
    ensures
        spec_submit(m, p).wf(),
{
    let m2 = spec_submit(m, p);
    assert forall|k: int|
        0 <= k < m2.queue.len() implies 0 <= (#[trigger] m2.queue[k]).0 < m2.slots.len()
        && m2.slots[m2.queue[k].0] is Pending by {
        if k < m.queue.len() {
            assert(m2.queue[k] == m.queue[k]);
            assert(m2.slots[m.queue[k].0] == m.slots[m.queue[k].0]);
        }
    }
    assert forall|k1: int, k2: int|
        0 <= k1 < k2 < m2.queue.len() implies (#[trigger] m2.queue[k1]).0 != (
    #[trigger] m2.queue[k2]).0 by {
        if k2 < m.queue.len() {
        } else {
            assert(m2.queue[k1] == m.queue[k1]);
            assert(m.queue[k1].0 < m.slots.len());
            assert(m2.queue[k2].0 == m.slots.len());
        }
    }
    match m.engine {
        EngineModel::Rendering(i) => {
            assert(m2.slots[i] == m.slots[i]);
            assert forall|k: int|
                0 <= k < m2.queue.len() implies (#[trigger] m2.queue[k]).0 != i by {
                if k < m.queue.len() {
                    assert(m2.queue[k] == m.queue[k]);
                }
            }
        },
        _ => {},
    }
    assert forall|j: int|
        0 <= j < m2.slots.len() implies ((#[trigger] m2.slots[j]) matches SlotModel::Completed(px)
        ==> px.len() == 4 * m2.width * m2.height) by {
        if j < m.slots.len() {
            assert(m2.slots[j] == m.slots[j]);
        }
    }
}

pub proof fn lemma_begin_wf(m: BridgeModel)
    requires
        m.wf(),
        m.engine is Ready,
        m.queue.len() > 0,
    ensures
        spec_begin(m).wf(),
{
    let m2 = spec_begin(m);
    assert forall|k: int|
        0 <= k < m2.queue.len() implies 0 <= (#[trigger] m2.queue[k]).0 < m2.slots.len()
        && m2.slots[m2.queue[k].0] is Pending by {
        assert(m2.queue[k] == m.queue[k + 1]);
    }
    assert forall|k1: int, k2: int|
        0 <= k1 < k2 < m2.queue.len() implies (#[trigger] m2.queue[k1]).0 != (
    #[trigger] m2.queue[k2]).0 by {
        assert(m2.queue[k1] == m.queue[k1 + 1]);
        assert(m2.queue[k2] == m.queue[k2 + 1]);
    }
    assert(m.queue[0].0 < m.slots.len() && m.slots[m.queue[0].0] is Pending);
    assert forall|k: int|
        0 <= k < m2.queue.len() implies (#[trigger] m2.queue[k]).0 != m.queue[0].0 by {
        assert(m2.queue[k] == m.queue[k + 1]);
    }
}

pub proof fn lemma_finish_wf(m: BridgeModel, id: int, px: Seq<u8>)
    requires
        m.wf(),
        m.engine == EngineModel::Rendering(id),
        px.len() == 4 * m.width * m.height,
    ensures
        spec_finish(m, id, px).wf(),
{
    let m2 = spec_finish(m, id, px);
    assert forall|k: int|
        0 <= k < m2.queue.len() implies 0 <= (#[trigger] m2.queue[k]).0 < m2.slots.len()
        && m2.slots[m2.queue[k].0] is Pending by {
        assert(m.queue[k].0 != id);
        assert(m2.slots[m.queue[k].0] == m.slots[m.queue[k].0]);
    }
    assert forall|j: int|
        0 <= j < m2.slots.len() implies ((#[trigger] m2.slots[j]) matches SlotModel::Completed(q)
        ==> q.len() == 4 * m2.width * m2.height) by {
        if j != id {
            assert(m2.slots[j] == m.slots[j]);
        }
    }
}

pub proof fn lemma_abort_wf(m: BridgeModel, id: int)
    requires
        m.wf(),
        m.engine == EngineModel::Rendering(id),
    ensures
        spec_abort(m, id).wf(),
{
    lemma_close_queued(m.slots, m.queue);
    let m2 = spec_abort(m, id);
    assert forall|j: int|
        0 <= j < m2.slots.len() implies ((#[trigger] m2.slots[j]) matches SlotModel::Completed(q)
        ==> q.len() == 4 * m2.width * m2.height) by {
        if j != id && !is_queued(m.queue, j) {
            assert(m2.slots[j] == m.slots[j]);
        }
    }
}

pub proof fn lemma_terminate_wf(m: BridgeModel)
    requires
        m.wf(),
        !(m.engine is Rendering),
    ensures
        spec_terminate(m).wf(),
{
    lemma_close_queued(m.slots, m.queue);
    let m2 = spec_terminate(m);
    assert forall|j: int|
        0 <= j < m2.slots.len() implies ((#[trigger] m2.slots[j]) matches SlotModel::Completed(q)
        ==> q.len() == 4 * m2.width * m2.height) by {
        if !is_queued(m.queue, j) {
            assert(m2.slots[j] == m.slots[j]);
        }
    }
}

pub proof fn lemma_take_wf(m: BridgeModel, id: int)
    requires
        m.wf(),
        0 <= id < m.slots.len(),
        m.slots[id] is Completed || m.slots[id] is Aborted,
    ensures
        spec_take(m, id).wf(),
{
    let m2 = spec_take(m, id);
    assert forall|k: int|
        0 <= k < m2.queue.len() implies 0 <= (#[trigger] m2.queue[k]).0 < m2.slots.len()
        && m2.slots[m2.queue[k].0] is Pending by {
        assert(m.slots[m.queue[k].0] is Pending);
        assert(m.queue[k].0 != id);
        assert(m2.slots[m.queue[k].0] == m.slots[m.queue[k].0]);
    }
    match m.engine {
        EngineModel::Rendering(i) => {
            assert(i != id);
            assert(m2.slots[i] == m.slots[i]);
        },
        _ => {},
    }
    assert forall|j: int|
        0 <= j < m2.slots.len() implies ((#[trigger] m2.slots[j]) matches SlotModel::Completed(q)
        ==> q.len() == 4 * m2.width * m2.height) by {
        if j != id {
            assert(m2.slots[j] == m.slots[j]);
        }
    }
}

/// What a waiter sees when it polls its own slot.
pub enum PollResult {
    NotReady,
    Delivered(Vec<u8>),
    Aborted,
    AlreadyDelivered,
}

/// The bridge itself: the shared state between submitters and the worker.
pub struct Bridge {
    width: u32,
    height: u32,
    queue: Vec<QueueEntry>,
    slots: Vec<Slot>,
    engine: EngineState,
    renders_started: u64,
}

impl View for Bridge {
    type V = BridgeModel;

    closed spec fn view(&self) -> BridgeModel {
        BridgeModel {
            width: self.width as int,
            height: self.height as int,
            queue: self.queue@.map_values(|e: QueueEntry| (e.id as int, e.params)),
            slots: self.slots@.map_values(|s: Slot| s@),
            engine: self.engine@,
            renders_started: self.renders_started as int,
        }
    }
}

impl Bridge {
    /// A fresh bridge with a ready engine and the fixed output size chosen
    /// at startup: height is half the width, the equirectangular shape.
    pub fn new(width: u32) -> (r: Bridge)
        requires
            2 <= width <= 32768,
        ensures
            r@.wf(),
            r@ == (BridgeModel {
                width: width as int,
                height: width as int / 2,
                queue: Seq::<(int, SunParams)>::empty(),
                slots: Seq::<SlotModel>::empty(),
                engine: EngineModel::Ready,
                renders_started: 0,
            }),
    {
        let r = Bridge {
            width,
            height: width / 2,
            queue: Vec::new(),
            slots: Vec::new(),
            engine: EngineState::Ready,
            renders_started: 0,
        };
        proof {
            assert(r@.queue =~= Seq::<(int, SunParams)>::empty());
            assert(r@.slots =~= Seq::<SlotModel>::empty());
        }
        r
    }

    /// Submits one request: always accepted while the engine lives, in
    /// which case the returned id names the fresh correlation slot; refused
    /// without any other effect once the engine has terminated.
    pub fn submit(&mut self, p: SunParams) -> (r: Option<usize>)
        requires
            old(self)@.wf(),
        ensures
            final(self)@.wf(),
            old(self)@.engine is Terminated ==> r is None && final(self)@ == old(self)@,
            !(old(self)@.engine is Terminated) ==> (r matches Some(id) && id as int == old(self)@.slots.len() && final(self)@ == spec_submit(old(self)@, p)),
    {
        match self.engine {
            EngineState::Terminated => None,
            _ => {
                let id = self.slots.len();
                self.queue.push(QueueEntry { id, params: p });
                self.slots.push(Slot::Pending);
                proof {
                    lemma_submit_wf(old(self)@, p);
                    assert(self@.queue =~= spec_submit(old(self)@, p).queue);
                    assert(self@.slots =~= spec_submit(old(self)@, p).slots);
                }
                Some(id)
            },
        }
    }

    /// Takes the oldest queued request into service; the engine must be
    /// idle, so two renders can never overlap.
    pub fn begin_render(&mut self) -> (r: Option<(usize, SunParams)>)
        requires
            old(self)@.wf(),
            old(self)@.engine is Ready,
        ensures
            final(self)@.wf(),
            old(self)@.queue.len() == 0 ==> r is None && final(self)@ == old(self)@,
            old(self)@.queue.len() > 0 ==> (r matches Some(pair) && (pair.0 as int, pair.1) == old(self)@.queue[0] && final(self)@ == spec_begin(old(self)@)),
    {
        if self.queue.len() == 0 {
            return None;
        }
        let cap = self.slots.len();
        proof {
            assert(self@.renders_started + self@.queue.len() <= cap as int);
        }
        let entry = self.queue.remove(0);
        self.engine = EngineState::Rendering(entry.id);
        self.renders_started = self.renders_started + 1;
        proof {
            lemma_begin_wf(old(self)@);
            assert(self@.queue =~= spec_begin(old(self)@).queue);
            assert(self@.slots =~= spec_begin(old(self)@).slots);
        }
        Some((entry.id, entry.params))
    }

    /// Delivers the frame of the request in service into its own slot and
    /// returns the engine to idle. Nothing else changes: no other waiter's
    /// slot can be touched by a completion.
    pub fn finish_render(&mut self, id: usize, pixels: Vec<u8>)
        requires
            old(self)@.wf(),
            old(self)@.engine == EngineModel::Rendering(id as int),
            pixels@.len() == 4 * old(self)@.width * old(self)@.height,
        ensures
            final(self)@.wf(),
            final(self)@ == spec_finish(old(self)@, id as int, pixels@),
    {
        proof {
            lemma_finish_wf(old(self)@, id as int, pixels@);
        }
        let ghost px = pixels@;
        self.slots.set(id, Slot::Completed(pixels));
        self.engine = EngineState::Ready;
        proof {
            assert(self@.queue =~= spec_finish(old(self)@, id as int, px).queue);
            assert(self@.slots =~= spec_finish(old(self)@, id as int, px).slots);
        }
    }

    /// Closes every queued slot unwritten and empties the queue: the shared
    /// step of engine death and orderly shutdown.
    #[verifier::loop_isolation(false)]
    fn close_queue(&mut self)
        requires
            forall|k: int|
                0 <= k < old(self)@.queue.len() ==> 0 <= (#[trigger] old(self)@.queue[k]).0 < old(
                    self,
                )@.slots.len(),
        ensures
            final(self)@.slots == close_queued(old(self)@.slots, old(self)@.queue),
            final(self)@.queue == Seq::<(int, SunParams)>::empty(),
            final(self)@.width == old(self)@.width,
            final(self)@.height == old(self)@.height,
            final(self)@.engine == old(self)@.engine,
            final(self)@.renders_started == old(self)@.renders_started,
    {
        while self.queue.len() > 0
            invariant
                close_queued(self@.slots, self@.queue) == close_queued(
                    old(self)@.slots,
                    old(self)@.queue,
                ),
                forall|k: int|
                    0 <= k < self@.queue.len() ==> 0 <= (#[trigger] self@.queue[k]).0
                        < self@.slots.len(),
                self@.slots.len() == old(self)@.slots.len(),
                self@.width == old(self)@.width,
                self@.height == old(self)@.height,
                self@.engine == old(self)@.engine,
                self@.renders_started == old(self)@.renders_started,
            decreases self@.queue.len(),
        {
            let ghost pre = self@;
            let entry = self.queue.remove(0);
            self.slots.set(entry.id, Slot::Aborted);
            proof {
                assert(self@.queue =~= pre.queue.skip(1));
                assert(self@.slots =~= pre.slots.update(entry.id as int, SlotModel::Aborted));
                assert forall|k: int|
                    0 <= k < self@.queue.len() implies 0 <= (#[trigger] self@.queue[k]).0
                    < self@.slots.len() by {
                    assert(self@.queue[k] == pre.queue[k + 1]);
                }
            }
        }
        proof {
            assert(self@.queue =~= Seq::<(int, SunParams)>::empty());
        }
    }

    /// The worker died mid-render: its request's slot closes unwritten, the
    /// engine is gone for good, and every request still queued closes
    /// unwritten too — each waiter observes the abort instead of hanging on
    /// a slot that could never be completed.
    pub fn abort_render(&mut self, id: usize)
        requires
            old(self)@.wf(),
            old(self)@.engine == EngineModel::Rendering(id as int),
        ensures
            final(self)@.wf(),
            final(self)@ == spec_abort(old(self)@, id as int),
    {
        proof {
            lemma_abort_wf(old(self)@, id as int);
            lemma_close_queued(old(self)@.slots, old(self)@.queue);
        }
        self.close_queue();
        self.slots.set(id, Slot::Aborted);
        self.engine = EngineState::Terminated;
        proof {
            assert(self@.queue =~= spec_abort(old(self)@, id as int).queue);
            assert(self@.slots =~= spec_abort(old(self)@, id as int).slots);
        }
    }

    /// Orderly shutdown between renders: later submissions are refused, and
    /// the queued requests the engine abandons close unwritten so their
    /// waiters observe the failure.
    pub fn terminate(&mut self)
        requires
            old(self)@.wf(),
            !(old(self)@.engine is Rendering),
        ensures
            final(self)@.wf(),
            final(self)@ == spec_terminate(old(self)@),
    {
        proof {
            lemma_terminate_wf(old(self)@);
        }
        self.close_queue();
        self.engine = EngineState::Terminated;
        proof {
            assert(self@.queue =~= spec_terminate(old(self)@).queue);
            assert(self@.slots =~= spec_terminate(old(self)@).slots);
        }
    }

    /// A waiter that stopped listening hands its slot back: a delivered
    /// frame or a recorded abort is dropped, so nothing is retained for a
    /// submitter that went away. A pending slot stays as it is — its render
    /// is still owed and will arrive through the normal path.
    pub fn discard_result(&mut self, id: usize) -> (r: bool)
        requires
            old(self)@.wf(),
            id < old(self)@.slots.len(),
        ensures
            final(self)@.wf(),
            (match old(self)@.slots[id as int] {
                SlotModel::Completed(_) => r && final(self)@ == spec_take(old(self)@, id as int),
                SlotModel::Aborted => r && final(self)@ == spec_take(old(self)@, id as int),
                _ => !r && final(self)@ == old(self)@,
            }),
    {
        let closed = match &self.slots[id] {
            Slot::Completed(_) => true,
            Slot::Aborted => true,
            _ => false,
        };
        if closed {
            proof {
                lemma_take_wf(old(self)@, id as int);
            }
            self.slots.set(id, Slot::Taken);
            proof {
                assert(self@.queue =~= spec_take(old(self)@, id as int).queue);
                assert(self@.slots =~= spec_take(old(self)@, id as int).slots);
            }
            true
        } else {
            false
        }
    }

    /// A waiter polls its own slot: it sees nothing until its own request
    /// completes, receives exactly the frame delivered for that slot (once),
    /// or learns that the render was abandoned.
    pub fn poll_result(&mut self, id: usize) -> (r: PollResult)
        requires
            old(self)@.wf(),
            0 <= id < old(self)@.slots.len(),
        ensures
            final(self)@.wf(),
            (match old(self)@.slots[id as int] {
                SlotModel::Pending => r is NotReady && final(self)@ == old(self)@,
                SlotModel::Completed(p) => r matches PollResult::Delivered(px) && px@ == p && final(self)@ == spec_take(old(self)@, id as int),
                SlotModel::Aborted => r is Aborted && final(self)@ == old(self)@,
                SlotModel::Taken => r is AlreadyDelivered && final(self)@ == old(self)@,
            }),
    {
        let completed = match &self.slots[id] {
            Slot::Completed(_) => true,
            _ => false,
        };
        if completed {
            let mut taken = Slot::Taken;
            self.slots.set_and_swap(id, &mut taken);
            proof {
                lemma_take_wf(old(self)@, id as int);
                assert(self@.queue =~= spec_take(old(self)@, id as int).queue);
                assert(self@.slots =~= spec_take(old(self)@, id as int).slots);
            }
            match taken {
                Slot::Completed(px) => PollResult::Delivered(px),
                _ => unreached(),
            }
        } else {
            match &self.slots[id] {
                Slot::Pending => PollResult::NotReady,
                Slot::Aborted => PollResult::Aborted,
                _ => PollResult::AlreadyDelivered,
            }
        }
    }

    /// How many renders the engine has started: the request counter that a
    /// test reads to see that rejected input never reached the engine.
    pub fn renders_started(&self) -> (r: u64)
        ensures
            r as int == self@.renders_started,
    {
        self.renders_started
    }

    /// How many requests wait in the queue.
    pub fn pending_count(&self) -> (r: usize)
        ensures
            r as int == self@.queue.len(),
    {
        self.queue.len()
    }

    /// How many slots were ever created: one per accepted submission.
    pub fn slot_count(&self) -> (r: usize)
        ensures
            r as int == self@.slots.len(),
    {
        self.slots.len()
    }

    /// The fixed output width chosen at startup.
    pub fn width(&self) -> (r: u32)
        ensures
            r as int == self@.width,
    {
        self.width
    }

    /// The fixed output height: half the width.
    pub fn height(&self) -> (r: u32)
        ensures
            r as int == self@.height,
    {
        self.height
    }

    /// Whether the engine is gone (no further submission will be accepted).
    pub fn is_terminated(&self) -> (r: bool)
        ensures
            r == (self@.engine is Terminated),
    {
        match self.engine {
            EngineState::Terminated => true,
            _ => false,
        }
    }
}


/// Render passes are serialized: the engine phase can name at most one
/// request in service, and `begin_render` demands an idle engine while
/// `finish_render` returns it to idle, so no second pass can start before
/// the first has ended.
pub proof fn lemma_single_render_in_flight(m: BridgeModel, i: int, j: int)
    requires
        m.wf(),
        m.engine == EngineModel::Rendering(i),
        m.engine == EngineModel::Rendering(j),
    ensures
        i == j,
{
}

/// Submissions keep their order: after submitting p1 and then p2, the two
/// fresh entries stand at the back of the queue in that order, under
/// distinct fresh ids, and every older entry keeps its place.
pub proof fn lemma_submissions_keep_order(m: BridgeModel, p1: SunParams, p2: SunParams)
    requires
        m.wf(),
    ensures
        ({
            let m2 = spec_submit(spec_submit(m, p1), p2);
            let n = m.queue.len() as int;
            &&& m2.queue.len() == n + 2
            &&& m2.queue[n] == (m.slots.len() as int, p1)
            &&& m2.queue[n + 1] == (m.slots.len() as int + 1, p2)
            &&& m2.queue[n].0 != m2.queue[n + 1].0
            &&& m2.queue.take(n) == m.queue
        }),
{
    let m2 = spec_submit(spec_submit(m, p1), p2);
    assert(m2.queue.take(m.queue.len() as int) =~= m.queue);
}

/// The worker serves the queue strictly in submission order: the first
/// begin takes the oldest entry into service with its own parameters, and
/// once that render finishes, the next begin takes the second-oldest.
pub proof fn lemma_fifo_service_order(m: BridgeModel, px: Seq<u8>)
    requires
        m.wf(),
        m.engine is Ready,
        m.queue.len() >= 2,
        px.len() == 4 * m.width * m.height,
    ensures
        ({
            let m1 = spec_begin(m);
            let m2 = spec_finish(m1, m.queue[0].0, px);
            let m3 = spec_begin(m2);
            &&& m1.engine == EngineModel::Rendering(m.queue[0].0)
            &&& m1.wf()
            &&& m2.wf()
            &&& m3.engine == EngineModel::Rendering(m.queue[1].0)
            &&& m3.wf()
        }),
{
    lemma_begin_wf(m);
    let m1 = spec_begin(m);
    lemma_finish_wf(m1, m.queue[0].0, px);
    let m2 = spec_finish(m1, m.queue[0].0, px);
    assert(m2.queue == m.queue.skip(1));
    assert(m2.queue[0] == m.queue[1]);
    lemma_begin_wf(m2);
}

/// Correlation is exact: finishing the request in service completes that
/// request's own slot with the delivered frame and leaves every other slot
/// untouched, so no waiter can ever receive another submitter's pixels.
pub proof fn lemma_correlation(m: BridgeModel, id: int, px: Seq<u8>)
    requires
        m.wf(),
        m.engine == EngineModel::Rendering(id),
        px.len() == 4 * m.width * m.height,
    ensures
        spec_finish(m, id, px).slots[id] == SlotModel::Completed(px),
        forall|j: int|
            0 <= j < m.slots.len() && j != id ==> spec_finish(m, id, px).slots[j] == #[trigger] m.slots[j],
{
}

/// Abandonment is observable, not a hang: when the worker dies mid-render,
/// the slot of the request in service reads Aborted afterwards, and so does
/// the slot of every request that was still queued — none of those waiters
/// can be left pending on a slot no transition could ever complete. Slots
/// already settled (completed, aborted, taken) keep their state, so every
/// other waiter still sees its own result.
pub proof fn lemma_abandonment(m: BridgeModel, id: int)
    requires
        m.wf(),
        m.engine == EngineModel::Rendering(id),
    ensures
        spec_abort(m, id).wf(),
        spec_abort(m, id).slots[id] == SlotModel::Aborted,
        forall|j: int|
            0 <= j < m.slots.len() && is_queued(m.queue, j) ==> spec_abort(m, id).slots[j]
                == SlotModel::Aborted,
        forall|j: int|
            0 <= j < m.slots.len() && j != id && !is_queued(m.queue, j) ==> spec_abort(
                m,
                id,
            ).slots[j] == #[trigger] m.slots[j],
{
    lemma_abort_wf(m, id);
    lemma_close_queued(m.slots, m.queue);
}


/// One observable action of the pipeline, as the model sees it.
pub enum Event {
    Submit(SunParams),
    Begin,
    Finish(Seq<u8>),
    Abort,
    Take(int),
    Terminate,
}

/// The guarded transition relation of the bridge: `None` where the action's
/// precondition does not hold in `m`. Exactly one request can be taken into
/// service at a time, and only by an idle engine.
pub open spec fn step(m: BridgeModel, ev: Event) -> Option<BridgeModel> {
    match ev {
        Event::Submit(p) => if !(m.engine is Terminated) {
            Some(spec_submit(m, p))
        } else {
            None
        },
        Event::Begin => if m.engine is Ready && m.queue.len() > 0 {
            Some(spec_begin(m))
        } else {
            None
        },
        Event::Finish(px) => match m.engine {
            EngineModel::Rendering(id) => if px.len() == 4 * m.width * m.height {
                Some(spec_finish(m, id, px))
            } else {
                None
            },
            _ => None,
        },
        Event::Abort => match m.engine {
            EngineModel::Rendering(id) => Some(spec_abort(m, id)),
            _ => None,
        },
        Event::Take(id) => if 0 <= id < m.slots.len() && (m.slots[id] is Completed
            || m.slots[id] is Aborted) {
            Some(spec_take(m, id))
        } else {
            None
        },
        Event::Terminate => if !(m.engine is Rendering) {
            Some(spec_terminate(m))
        } else {
            None
        },
    }
}

/// Every reachable state of the pipeline is well-formed: `Bridge::new`
/// establishes `wf` and every step preserves it. Together with
/// `lemma_single_render_in_flight` this says render passes never overlap in
/// any run: in every reachable state at most one request is in service, and
/// a second one cannot begin before the first finishes or aborts.
pub proof fn lemma_step_preserves_wf(m: BridgeModel, ev: Event)
    requires
        m.wf(),
    ensures
        step(m, ev) matches Some(m2) ==> m2.wf(),
{
    match ev {
        Event::Submit(p) => {
            lemma_submit_wf(m, p);
        },
        Event::Begin => {
            if m.engine is Ready && m.queue.len() > 0 {
                lemma_begin_wf(m);
            }
        },
        Event::Finish(px) => {
            match m.engine {
                EngineModel::Rendering(id) => {
                    if px.len() == 4 * m.width * m.height {
                        lemma_finish_wf(m, id, px);
                    }
                },
                _ => {},
            }
        },
        Event::Abort => {
            match m.engine {
                EngineModel::Rendering(id) => {
                    lemma_abort_wf(m, id);
                },
                _ => {},
            }
        },
        Event::Take(id) => {
            if 0 <= id < m.slots.len() && (m.slots[id] is Completed || m.slots[id] is Aborted) {
                lemma_take_wf(m, id);
            }
        },
        Event::Terminate => {
            if !(m.engine is Rendering) {
                lemma_terminate_wf(m);
            }
        },
    }
}

} // verus!

