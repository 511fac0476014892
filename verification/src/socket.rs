//! The hub that every update passes through: it keeps the replay caches for clients that
//! connect later, and decides who receives what.
use vstd::prelude::*;
use std::collections::VecDeque;
use crate::etl::parser::string_views;

verus! {

/// How many log updates, and how many metric updates, a newly connected client is sent.
pub const REPLAY_LIMIT: usize = 500;

/// The last `REPLAY_LIMIT` messages of `s` (all of them if there are fewer).
pub open spec fn window(s: Seq<Seq<char>>) -> Seq<Seq<char>> {
    if s.len() > 500 {
        s.subrange(s.len() - 500, s.len() as int)
    } else {
        s
    }
}

/// A cache after one more message: appended at the back, and the oldest dropped when
/// the cache would hold more than `REPLAY_LIMIT`.
pub open spec fn cache_push(cache: Seq<Seq<char>>, msg: Seq<char>) -> Seq<Seq<char>> {
    if cache.len() + 1 > 500 {
        cache.push(msg).drop_first()
    } else {
        cache.push(msg)
    }
}

/// The cache after recording each of `msgs` in turn, starting empty.
pub open spec fn cache_after(msgs: Seq<Seq<char>>) -> Seq<Seq<char>>
    decreases msgs.len(),
{
    if msgs.len() == 0 {
        Seq::empty()
    } else {
        cache_push(cache_after(msgs.drop_last()), msgs.last())
    }
}

/// A replay cache, fed one message at a time from empty, always holds exactly the last
/// `REPLAY_LIMIT` messages received (all of them while there are fewer), oldest first.
pub proof fn replay_cache_holds_latest(msgs: Seq<Seq<char>>)
    ensures
        cache_after(msgs) == window(msgs),
        cache_after(msgs).len() <= 500,
    decreases msgs.len(),
{
    if msgs.len() > 0 {
        let d = msgs.drop_last();
        let m = msgs.last();
        replay_cache_holds_latest(d);
        assert(msgs == d.push(m));
        if d.len() >= 500 {
            assert(window(d).push(m).drop_first() =~= window(msgs));
        } else {
            assert(window(d).push(m) =~= window(msgs));
        }
    }
}

/// The views of the strings in a deque.
pub open spec fn deque_views(d: Seq<String>) -> Seq<Seq<char>> {
    d.map_values(|s: String| s@)
}

/// The replay caches: the most recent log updates and the most recent metric updates,
/// oldest first.
pub struct LogState {
    pub log_cache: VecDeque<String>,
    pub metric_cache: VecDeque<String>,
}

impl LogState {
    /// The cached log updates, oldest first.
    pub open spec fn logs(&self) -> Seq<Seq<char>> {
        deque_views(self.log_cache@)
    }

    /// The cached metric updates, oldest first.
    pub open spec fn metrics(&self) -> Seq<Seq<char>> {
        deque_views(self.metric_cache@)
    }

    /// Neither cache holds more than `REPLAY_LIMIT` messages.
    pub open spec fn wf(&self) -> bool {
        self.log_cache@.len() <= 500 && self.metric_cache@.len() <= 500
    }

    /// Empty caches.
    pub fn new() -> (s: LogState)
        ensures
            s.wf(),
            s.logs() == Seq::<Seq<char>>::empty(),
            s.metrics() == Seq::<Seq<char>>::empty(),
    {
        let s = LogState {
            log_cache: VecDeque::with_capacity(REPLAY_LIMIT),
            metric_cache: VecDeque::with_capacity(REPLAY_LIMIT),
        };
        assert(s.logs() =~= Seq::<Seq<char>>::empty());
        assert(s.metrics() =~= Seq::<Seq<char>>::empty());
        s
    }

    /// Records a log update for later replay.
    pub fn record_log(&mut self, msg: String)
        requires
            old(self).wf(),
        ensures
            final(self).wf(),
            final(self).logs() == cache_push(old(self).logs(), msg@),
            final(self).metrics() == old(self).metrics(),
    {
        push_bounded(&mut self.log_cache, msg);
    }

    /// Records a metric update for later replay.
    pub fn record_metric(&mut self, msg: String)
        requires
            old(self).wf(),
        ensures
            final(self).wf(),
            final(self).metrics() == cache_push(old(self).metrics(), msg@),
            final(self).logs() == old(self).logs(),
    {
        push_bounded(&mut self.metric_cache, msg);
    }

    /// What a newly connected client is sent: the cached log updates, then the cached
    /// metric updates, each oldest first.
    pub fn replay(&self) -> (r: Vec<String>)
        ensures
            string_views(r@) == self.logs() + self.metrics(),
    {
        let mut out: Vec<String> = Vec::new();
        copy_into(&self.log_cache, &mut out);
        copy_into(&self.metric_cache, &mut out);
        assert(string_views(out@) =~= self.logs() + self.metrics());
        out
    }
}

fn push_bounded(cache: &mut VecDeque<String>, msg: String)
    requires
        old(cache)@.len() <= 500,
    ensures
        final(cache)@.len() <= 500,
        deque_views(final(cache)@) == cache_push(deque_views(old(cache)@), msg@),
{
    let ghost before = cache@;
    cache.push_back(msg);
    assert(deque_views(cache@) =~= deque_views(before).push(msg@));
    if cache.len() > REPLAY_LIMIT {
        let ghost full = cache@;
        let _ = cache.pop_front();
        assert(deque_views(cache@) =~= deque_views(full).drop_first());
    }
}

fn copy_into(src: &VecDeque<String>, out: &mut Vec<String>)
    ensures
        string_views(final(out)@) == string_views(old(out)@) + deque_views(src@),
{
    let ghost start = string_views(out@);
    let mut i: usize = 0;
    while i < src.len()
        invariant
            i <= src@.len(),
            string_views(out@) == start + deque_views(src@).take(i as int),
        decreases src@.len() - i,
    {
        let s = src[i].clone();
        let ghost prev = out@;
        out.push(s);
        assert(string_views(out@) =~= string_views(prev).push(src@[i as int]@));
        assert(deque_views(src@).take(i + 1) =~= deque_views(src@).take(i as int).push(src@[i as int]@));
        i = i + 1;
    }
    assert(deque_views(src@).take(src@.len() as int) =~= deque_views(src@));
}

/// A message to the hub.
pub enum HubMsg {
    /// A client connected; the number identifies it.
    NewClient(u64),
    /// A log update to broadcast.
    LogData(String),
    /// A metric update to broadcast.
    MetricData(String),
}

/// What the hub asks to be sent after a message.
pub enum Dispatch {
    /// Send these messages, in order, to the client that just connected.
    Replay { client: u64, messages: Vec<String> },
    /// Send this message to every connected client, in the order of `Hub::clients`.
    Broadcast(String),
}

/// The clients of `clients` whose send succeeded (`delivered[i]`), in order.
pub open spec fn kept(clients: Seq<u64>, delivered: Seq<bool>) -> Seq<u64>
    decreases clients.len(),
{
    if clients.len() == 0 || delivered.len() == 0 {
        Seq::empty()
    } else {
        let rest = kept(clients.drop_last(), delivered.drop_last());
        if delivered.last() {
            rest.push(clients.last())
        } else {
            rest
        }
    }
}

/// The hub: the replay caches and the connected clients.
pub struct Hub {
    state: LogState,
    clients: Vec<u64>,
}

impl Hub {
    /// The connected clients, in the order they connected.
    pub closed spec fn client_ids(&self) -> Seq<u64> {
        self.clients@
    }

    /// The cached log updates, oldest first.
    pub closed spec fn logs(&self) -> Seq<Seq<char>> {
        self.state.logs()
    }

    /// The cached metric updates, oldest first.
    pub closed spec fn metrics(&self) -> Seq<Seq<char>> {
        self.state.metrics()
    }

    /// Neither cache holds more than `REPLAY_LIMIT` messages.
    pub open spec fn wf(&self) -> bool {
        self.logs().len() <= 500 && self.metrics().len() <= 500
    }

    /// A hub with empty caches and no clients.
    pub fn new() -> (h: Hub)
        ensures
            h.wf(),
            h.logs() == Seq::<Seq<char>>::empty(),
            h.metrics() == Seq::<Seq<char>>::empty(),
            h.client_ids() == Seq::<u64>::empty(),
    {
        Hub { state: LogState::new(), clients: Vec::new() }
    }

    /// The connected clients, in the order they connected.
    pub fn clients(&self) -> (r: &Vec<u64>)
        ensures
            r@ == self.client_ids(),
    {
        &self.clients
    }

    /// Handles one message. A new client is sent the replay (cached logs, then cached
    /// metrics) and joins the clients; a log or metric update is cached and broadcast.
    pub fn handle(&mut self, msg: HubMsg) -> (d: Dispatch)
        requires
            old(self).wf(),
        ensures
            final(self).wf(),
            match msg {
                HubMsg::NewClient(id) => {
                    &&& d matches Dispatch::Replay { client, messages } && client == id
                        && string_views(messages@) == old(self).logs() + old(self).metrics()
                    &&& final(self).client_ids() == old(self).client_ids().push(id)
                    &&& final(self).logs() == old(self).logs()
                    &&& final(self).metrics() == old(self).metrics()
                },
                HubMsg::LogData(text) => {
                    &&& d matches Dispatch::Broadcast(t) && t@ == text@
                    &&& final(self).logs() == cache_push(old(self).logs(), text@)
                    &&& final(self).metrics() == old(self).metrics()
                    &&& final(self).client_ids() == old(self).client_ids()
                },
                HubMsg::MetricData(text) => {
                    &&& d matches Dispatch::Broadcast(t) && t@ == text@
                    &&& final(self).metrics() == cache_push(old(self).metrics(), text@)
                    &&& final(self).logs() == old(self).logs()
                    &&& final(self).client_ids() == old(self).client_ids()
                },
            },
    {
        match msg {
            HubMsg::NewClient(id) => {
                let messages = self.state.replay();
                self.clients.push(id);
                Dispatch::Replay { client: id, messages }
            },
            HubMsg::LogData(text) => {
                let out = text.clone();
                self.state.record_log(text);
                Dispatch::Broadcast(out)
            },
            HubMsg::MetricData(text) => {
                let out = text.clone();
                self.state.record_metric(text);
                Dispatch::Broadcast(out)
            },
        }
    }

    /// After a broadcast: keeps exactly the clients to which the message was delivered
    /// (`delivered[i]` for the `i`-th client), in order.
    pub fn prune(&mut self, delivered: &Vec<bool>)
        requires
            delivered.len() == old(self).client_ids().len(),
        ensures
            final(self).client_ids() == kept(old(self).client_ids(), delivered@),
            final(self).wf() == old(self).wf(),
            final(self).logs() == old(self).logs(),
            final(self).metrics() == old(self).metrics(),
    {
        let mut out: Vec<u64> = Vec::new();
        let mut i: usize = 0;
        while i < self.clients.len()
            invariant
                i <= self.clients.len() == delivered.len(),
                out@ == kept(self.clients@.take(i as int), delivered@.take(i as int)),
            decreases self.clients.len() - i,
        {
            assert(self.clients@.take(i + 1).drop_last() == self.clients@.take(i as int));
            assert(delivered@.take(i + 1).drop_last() == delivered@.take(i as int));
            if delivered[i] {
                out.push(self.clients[i]);
            }
            i = i + 1;
        }
        assert(self.clients@.take(i as int) == self.clients@);
        assert(delivered@.take(i as int) == delivered@);
        self.clients = out;
    }
}

/// Pruning keeps the clients in their order and drops only those whose send failed: a
/// client that received the broadcast stays, one that did not is gone, and when every
/// send succeeded nobody is dropped.
pub proof fn pruning_keeps_reachable_clients(clients: Seq<u64>, delivered: Seq<bool>)
    requires
        clients.len() == delivered.len(),
    ensures
        kept(clients, delivered).len() <= clients.len(),
        (forall|i: int| 0 <= i < delivered.len() ==> #[trigger] delivered[i]) ==> kept(clients, delivered) == clients,
        (forall|i: int| 0 <= i < delivered.len() ==> !#[trigger] delivered[i]) ==> kept(clients, delivered).len() == 0,
    decreases clients.len(),
{
    if clients.len() > 0 {
        pruning_keeps_reachable_clients(clients.drop_last(), delivered.drop_last());
        if forall|i: int| 0 <= i < delivered.len() ==> #[trigger] delivered[i] {
            assert forall|i: int| 0 <= i < delivered.drop_last().len() implies #[trigger] delivered.drop_last()[i] by {
                assert(delivered.drop_last()[i] == delivered[i]);
            }
            assert(delivered.last() == delivered[delivered.len() - 1]);
            assert(clients.drop_last().push(clients.last()) == clients);
        }
        if forall|i: int| 0 <= i < delivered.len() ==> !#[trigger] delivered[i] {
            assert forall|i: int| 0 <= i < delivered.drop_last().len() implies !#[trigger] delivered.drop_last()[i] by {
                assert(delivered.drop_last()[i] == delivered[i]);
            }
            assert(delivered.last() == delivered[delivered.len() - 1]);
        }
    }
}

} // verus!
