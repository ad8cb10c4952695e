use vstd::prelude::*;

use crate::frame::{Frame, FrameV};

verus! {

/// A backend session as the proxy sees it: requests waiting in arrival order,
/// and the one whose response is awaited, if any.
pub struct SessionV {
    pub pending: Seq<u64>,
    pub in_flight: Option<u64>,
}

pub open spec fn submit_spec(s: SessionV, id: u64) -> SessionV {
    SessionV { pending: s.pending.push(id), ..s }
}

/// Starts the oldest waiting request, but only on an idle session.
pub open spec fn start_spec(s: SessionV) -> (SessionV, Option<u64>) {
    if s.in_flight is None && s.pending.len() > 0 {
        (SessionV { pending: s.pending.skip(1), in_flight: Some(s.pending[0]) }, Some(s.pending[0]))
    } else {
        (s, None)
    }
}

/// Ends the request in flight, whatever its outcome.
pub open spec fn finish_spec(s: SessionV) -> (SessionV, Option<u64>) {
    (SessionV { in_flight: None, ..s }, s.in_flight)
}

/// The sole owner of one backend connection's request order.
pub struct Session {
    pub pending: Vec<u64>,
    pub in_flight: Option<u64>,
}

impl Session {
    pub open spec fn view(&self) -> SessionV {
        SessionV { pending: self.pending@, in_flight: self.in_flight }
    }

    pub fn new() -> (r: Session)
        ensures
            r@.pending == Seq::<u64>::empty(),
            r@.in_flight is None,
    {
        Session { pending: Vec::new(), in_flight: None }
    }

    /// Queues request `id` behind every request already waiting.
    pub fn submit(&mut self, id: u64)
        ensures
            final(self)@ == submit_spec(old(self)@, id),
    {
        self.pending.push(id);
    }

    /// The request to write next, when the connection is free.
    pub fn start_next(&mut self) -> (r: Option<u64>)
        ensures
            (final(self)@, r) == start_spec(old(self)@),
    {
        if self.in_flight.is_none() && self.pending.len() > 0 {
            let id = self.pending.remove(0);
            self.in_flight = Some(id);
            assert(self.pending@ =~= old(self).pending@.skip(1));
            Some(id)
        } else {
            None
        }
    }

    /// Marks the request in flight as answered, or as failed.
    pub fn finish(&mut self) -> (r: Option<u64>)
        ensures
            (final(self)@, r) == finish_spec(old(self)@),
    {
        let r = self.in_flight;
        self.in_flight = None;
        r
    }
}

/// The reply a caller receives: the backend's frame, or an error frame when
/// the backend could not be reached, failed mid-request or timed out.
pub open spec fn reply_spec(outcome: Option<FrameV>) -> FrameV {
    match outcome {
        Some(f) => f,
        None => FrameV::Error(backend_error_text()),
    }
}

pub open spec fn backend_error_text() -> Seq<char> {
    "ERR backend unavailable"@
}

/// Turns what the backend returned into the caller's reply.
pub fn reply_for(outcome: Option<Frame>) -> (r: Frame)
    ensures
        r@ == reply_spec(
            match outcome {
                Some(f) => Some(f@),
                None => None,
            },
        ),
{
    match outcome {
        Some(f) => f,
        None => {
            let t = String::from_str("ERR backend unavailable");
            proof {
                reveal_strlit("ERR backend unavailable");
            }
            Frame::Error(t)
        },
    }
}

/// One session per configured slice, in topology order.
pub struct Shards {
    pub sessions: Vec<Session>,
}

impl Shards {
    pub open spec fn view(&self) -> Seq<SessionV> {
        self.sessions@.map_values(|s: Session| s@)
    }

    pub fn new(n: usize) -> (r: Shards)
        ensures
            r@.len() == n,
            forall|i: int| 0 <= i < n ==> (#[trigger] r@[i]).pending.len() == 0 && r@[i].in_flight is None,
    {
        let mut sessions: Vec<Session> = Vec::new();
        let mut i: usize = 0;
        while i < n
            invariant
                i <= n,
                sessions@.len() == i,
                forall|j: int| 0 <= j < i ==> (#[trigger] sessions@[j])@.pending.len() == 0
                    && sessions@[j].in_flight is None,
            decreases n - i,
        {
            sessions.push(Session::new());
            i = i + 1;
        }
        Shards { sessions }
    }

    /// Queues request `id` on shard `k`.
    pub fn submit(&mut self, k: usize, id: u64)
        requires
            k < old(self)@.len(),
        ensures
            final(self)@ == old(self)@.update(k as int, submit_spec(old(self)@[k as int], id)),
    {
        let mut s = self.sessions.remove(k);
        s.submit(id);
        self.sessions.insert(k, s);
        assert(self@ =~= old(self)@.update(k as int, submit_spec(old(self)@[k as int], id)));
    }

    /// The request that shard `k` writes next, if its connection is free.
    pub fn start_next(&mut self, k: usize) -> (r: Option<u64>)
        requires
            k < old(self)@.len(),
        ensures
            final(self)@ == old(self)@.update(k as int, start_spec(old(self)@[k as int]).0),
            r == start_spec(old(self)@[k as int]).1,
    {
        let mut s = self.sessions.remove(k);
        let r = s.start_next();
        self.sessions.insert(k, s);
        assert(self@ =~= old(self)@.update(k as int, start_spec(old(self)@[k as int]).0));
        r
    }

    /// Ends the request in flight on shard `k`.
    pub fn finish(&mut self, k: usize) -> (r: Option<u64>)
        requires
            k < old(self)@.len(),
        ensures
            final(self)@ == old(self)@.update(k as int, finish_spec(old(self)@[k as int]).0),
            r == finish_spec(old(self)@[k as int]).1,
    {
        let mut s = self.sessions.remove(k);
        let r = s.finish();
        self.sessions.insert(k, s);
        assert(self@ =~= old(self)@.update(k as int, finish_spec(old(self)@[k as int]).0));
        r
    }
}

/// Two requests queued one after the other on an idle shard go to the backend
/// in that order, and the second is not written until the first is answered.
pub proof fn lemma_session_order(s: SessionV, c1: u64, c2: u64)
    requires
        s.pending.len() == 0,
        s.in_flight is None,
    ensures
        ({
            let queued = submit_spec(submit_spec(s, c1), c2);
            let (s1, first) = start_spec(queued);
            let (s2, blocked) = start_spec(s1);
            let (s3, answered) = finish_spec(s2);
            let (s4, second) = start_spec(s3);
            &&& first == Some(c1)
            &&& blocked is None
            &&& answered == Some(c1)
            &&& second == Some(c2)
        }),
{
    let queued = submit_spec(submit_spec(s, c1), c2);
    assert(queued.pending =~= seq![c1, c2]);
    let (s1, first) = start_spec(queued);
    assert(s1.pending =~= seq![c2]);
}

/// A failure on one shard touches no other shard, and the caller waiting on
/// the failed shard is told so with an error frame.
pub proof fn lemma_fault_isolation(shards: Seq<SessionV>, a: int, b: int)
    requires
        0 <= a < shards.len(),
        0 <= b < shards.len(),
        a != b,
    ensures
        shards.update(a, finish_spec(shards[a]).0)[b] == shards[b],
        finish_spec(shards[a]).1 == shards[a].in_flight,
        reply_spec(None) is Error,
{
}

} // verus!
