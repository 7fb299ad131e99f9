use vstd::prelude::*;

verus! {

/// What a read through the bridge comes to.
pub enum ReadOutcome<E> {
    /// Bytes for the caller, at most as many as it asked for; none when the worker's
    /// read found the end of input.
    Bytes(Vec<u8>),
    /// Nothing is available yet; the caller should try again later.
    WouldBlock,
    /// The blocking source failed; its error, as it was.
    Failed(E),
    /// The channel that carries results is broken.
    BrokenPipe,
    /// The worker is gone, and no result is left: a fatal condition.
    Stopped,
}

/// What polling the channel of results gave.
pub enum ResultPoll<E> {
    /// The worker's result for the last request.
    Ready(Result<Vec<u8>, E>),
    /// The worker is gone and every result was taken.
    Closed,
    /// No result yet.
    NotReady,
    /// The channel failed.
    Broken,
}

/// What handing a size request to the worker gave.
pub enum SendPoll {
    Accepted,
    /// A request is already outstanding.
    Full,
    /// The worker is gone.
    Gone,
}

/// What the driver of the bridge is to do next.
pub enum BridgeAction<E> {
    /// Poll the channel of results and report with `polled`.
    PollResult,
    /// Ask the worker for a read of this many bytes and report with `sent`.
    RequestSize(usize),
    /// The read is over, with this outcome.
    Finish(ReadOutcome<E>),
}

/// Where the bridge stands within one read.
pub enum Stage {
    /// No read is under way.
    Idle,
    /// The results were polled once, before any request.
    FirstPoll,
    /// A size request is being handed to the worker.
    Sending,
    /// The results are polled again after a request was accepted.
    AfterSend,
    /// The results are polled again after the worker was found gone.
    AfterFailedSend,
}

/// The decisions of a non-blocking reader over a blocking byte source that a single
/// worker reads on request. Bytes that the worker returned beyond what the caller
/// could take are kept as debt and handed out before anything else.
pub struct ReadBridge {
    debt: Vec<u8>,
    stage: Stage,
    capacity: usize,
    received: Ghost<Seq<u8>>,
    delivered: Ghost<Seq<u8>>,
}

impl ReadBridge {
    /// Bytes received from the worker and not handed out yet.
    pub closed spec fn debt(&self) -> Seq<u8> {
        self.debt@
    }

    pub closed spec fn stage(&self) -> Stage {
        self.stage
    }

    /// The size the caller asked for in the read under way.
    pub closed spec fn capacity(&self) -> usize {
        self.capacity
    }

    /// Every byte that the worker returned, in order.
    pub closed spec fn received(&self) -> Seq<u8> {
        self.received@
    }

    /// Every byte handed out to callers, in order.
    pub closed spec fn delivered(&self) -> Seq<u8> {
        self.delivered@
    }

    /// No byte is lost or repeated: what was handed out, then the debt, is what was
    /// received; and a read under way starts with no debt.
    pub open spec fn wf(&self) -> bool {
        &&& self.delivered() + self.debt() == self.received()
        &&& !(self.stage() is Idle) ==> self.debt().len() == 0
    }

    pub fn new() -> (r: ReadBridge)
        ensures
            r.wf(),
            r.stage() is Idle,
            r.debt() == Seq::<u8>::empty(),
            r.received() == Seq::<u8>::empty(),
            r.delivered() == Seq::<u8>::empty(),
    {
        let r = ReadBridge {
            debt: Vec::new(),
            stage: Stage::Idle,
            capacity: 0,
            received: Ghost(Seq::empty()),
            delivered: Ghost(Seq::empty()),
        };
        assert(r.delivered() + r.debt() =~= r.received());
        r
    }

    /// Starts a read for a caller that can take `capacity` bytes. Debt is paid first,
    /// with no request to the worker; without debt, the results are polled.
    pub fn start<E>(&mut self, capacity: usize) -> (r: BridgeAction<E>)
        requires
            old(self).wf(),
            old(self).stage() is Idle,
        ensures
            final(self).wf(),
            final(self).received() == old(self).received(),
            old(self).debt().len() > 0 ==> {
                let n = if old(self).debt().len() < capacity {
                    old(self).debt().len() as int
                } else {
                    capacity as int
                };
                &&& r matches BridgeAction::Finish(ReadOutcome::Bytes(v)) && v@ == old(
                    self,
                ).debt().take(n)
                &&& final(self).debt() == old(self).debt().skip(n)
                &&& final(self).delivered() == old(self).delivered() + old(self).debt().take(n)
                &&& final(self).stage() is Idle
            },
            old(self).debt().len() == 0 ==> {
                &&& r is PollResult
                &&& final(self).stage() is FirstPoll
                &&& final(self).capacity() == capacity
                &&& final(self).debt() == old(self).debt()
                &&& final(self).delivered() == old(self).delivered()
            },
    {
        if self.debt.len() > 0 {
            let n = if self.debt.len() < capacity {
                self.debt.len()
            } else {
                capacity
            };
            let mut paid = self.debt.split_off(n);
            std::mem::swap(&mut paid, &mut self.debt);
            proof {
                self.delivered@ = self.delivered@ + paid@;
                assert(old(self).debt@ =~= paid@ + self.debt@);
                assert(self.delivered@ + self.debt@ =~= old(self).delivered@ + old(self).debt@);
            }
            BridgeAction::Finish(ReadOutcome::Bytes(paid))
        } else {
            self.stage = Stage::FirstPoll;
            self.capacity = capacity;
            BridgeAction::PollResult
        }
    }

    /// Hands the caller what a result of the worker holds, up to its capacity, and
    /// keeps the rest as debt.
    fn take_result(&mut self, data: Vec<u8>) -> (r: Vec<u8>)
        requires
            old(self).wf(),
            old(self).debt().len() == 0,
        ensures
            final(self).wf(),
            ({
                let n = if data@.len() < old(self).capacity() {
                    data@.len() as int
                } else {
                    old(self).capacity() as int
                };
                &&& r@ == data@.take(n)
                &&& final(self).debt() == data@.skip(n)
            }),
            final(self).received() == old(self).received() + data@,
            final(self).delivered() == old(self).delivered() + r@,
            final(self).stage() is Idle,
            final(self).capacity() == old(self).capacity(),
    {
        let mut data = data;
        let ghost all = data@;
        let n = if data.len() < self.capacity {
            data.len()
        } else {
            self.capacity
        };
        let rest = data.split_off(n);
        self.debt = rest;
        self.stage = Stage::Idle;
        proof {
            self.received@ = self.received@ + all;
            self.delivered@ = self.delivered@ + data@;
            assert(old(self).debt@ =~= Seq::<u8>::empty());
            assert(all =~= data@ + self.debt@);
            assert(self.delivered@ + self.debt@ =~= self.received@);
            assert(self.debt@ =~= all.skip(n as int));
            assert(data@ =~= all.take(n as int));
        }
        data
    }

    /// Continues the read with what polling the results gave.
    pub fn polled<E>(&mut self, poll: ResultPoll<E>) -> (r: BridgeAction<E>)
        requires
            old(self).wf(),
            old(self).stage() is FirstPoll || old(self).stage() is AfterSend || old(
                self,
            ).stage() is AfterFailedSend,
        ensures
            final(self).wf(),
            final(self).capacity() == old(self).capacity(),
            match poll {
                ResultPoll::Ready(Ok(data)) => {
                    let n = if data@.len() < old(self).capacity() {
                        data@.len() as int
                    } else {
                        old(self).capacity() as int
                    };
                    &&& r matches BridgeAction::Finish(ReadOutcome::Bytes(v)) && v@ == data@.take(
                        n,
                    )
                    &&& final(self).debt() == data@.skip(n)
                    &&& final(self).received() == old(self).received() + data@
                    &&& final(self).delivered() == old(self).delivered() + data@.take(n)
                    &&& final(self).stage() is Idle
                },
                ResultPoll::Ready(Err(e)) => {
                    &&& r == BridgeAction::Finish(ReadOutcome::Failed(e))
                    &&& final(self).stage() is Idle
                },
                ResultPoll::Closed => {
                    &&& r == BridgeAction::<E>::Finish(ReadOutcome::Stopped)
                    &&& final(self).stage() is Idle
                },
                ResultPoll::NotReady => if old(self).stage() is FirstPoll {
                    &&& r == BridgeAction::<E>::RequestSize(old(self).capacity())
                    &&& final(self).stage() is Sending
                } else {
                    &&& r == BridgeAction::<E>::Finish(ReadOutcome::WouldBlock)
                    &&& final(self).stage() is Idle
                },
                ResultPoll::Broken => {
                    &&& if old(self).stage() is AfterFailedSend {
                        r == BridgeAction::<E>::Finish(ReadOutcome::Stopped)
                    } else {
                        r == BridgeAction::<E>::Finish(ReadOutcome::BrokenPipe)
                    }
                    &&& final(self).stage() is Idle
                },
            },
            !(poll matches ResultPoll::Ready(Ok(_))) ==> final(self).received() == old(
                self,
            ).received() && final(self).delivered() == old(self).delivered() && final(self).debt()
                == old(self).debt(),
    {
        match poll {
            ResultPoll::Ready(Ok(data)) => {
                let v = self.take_result(data);
                BridgeAction::Finish(ReadOutcome::Bytes(v))
            },
            ResultPoll::Ready(Err(e)) => {
                self.stage = Stage::Idle;
                BridgeAction::Finish(ReadOutcome::Failed(e))
            },
            ResultPoll::Closed => {
                self.stage = Stage::Idle;
                BridgeAction::Finish(ReadOutcome::Stopped)
            },
            ResultPoll::NotReady => {
                match self.stage {
                    Stage::FirstPoll => {
                        self.stage = Stage::Sending;
                        BridgeAction::RequestSize(self.capacity)
                    },
                    _ => {
                        self.stage = Stage::Idle;
                        BridgeAction::Finish(ReadOutcome::WouldBlock)
                    },
                }
            },
            ResultPoll::Broken => {
                let stopped = match self.stage {
                    Stage::AfterFailedSend => true,
                    _ => false,
                };
                self.stage = Stage::Idle;
                if stopped {
                    BridgeAction::Finish(ReadOutcome::Stopped)
                } else {
                    BridgeAction::Finish(ReadOutcome::BrokenPipe)
                }
            },
        }
    }

    /// Continues the read with what handing the size request to the worker gave: once
    /// accepted, or with the worker gone, the results are polled once more; with a
    /// request already outstanding, the caller must wait.
    pub fn sent<E>(&mut self, outcome: SendPoll) -> (r: BridgeAction<E>)
        requires
            old(self).wf(),
            old(self).stage() is Sending,
        ensures
            final(self).wf(),
            final(self).capacity() == old(self).capacity(),
            final(self).debt() == old(self).debt(),
            final(self).received() == old(self).received(),
            final(self).delivered() == old(self).delivered(),
            match outcome {
                SendPoll::Accepted => r is PollResult && final(self).stage() is AfterSend,
                SendPoll::Full => r == BridgeAction::<E>::Finish(ReadOutcome::WouldBlock)
                    && final(self).stage() is Idle,
                SendPoll::Gone => r is PollResult && final(self).stage() is AfterFailedSend,
            },
    {
        match outcome {
            SendPoll::Accepted => {
                self.stage = Stage::AfterSend;
                BridgeAction::PollResult
            },
            SendPoll::Full => {
                self.stage = Stage::Idle;
                BridgeAction::Finish(ReadOutcome::WouldBlock)
            },
            SendPoll::Gone => {
                self.stage = Stage::AfterFailedSend;
                BridgeAction::PollResult
            },
        }
    }

    pub fn is_idle(&self) -> (r: bool)
        ensures
            r == self.stage() is Idle,
    {
        match self.stage {
            Stage::Idle => true,
            _ => false,
        }
    }
}

/// Nothing is lost or repeated: once the debt is paid, the bytes handed out are
/// exactly the bytes the worker returned, in order.
pub proof fn lemma_read_fidelity(b: ReadBridge)
    requires
        b.wf(),
        b.debt().len() == 0,
    ensures
        b.delivered() == b.received(),
{
    assert(b.delivered() + b.debt() =~= b.delivered());
}

} // verus!
