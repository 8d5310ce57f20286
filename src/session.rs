//! One shared clipboard session: its content, its clients and its lifecycle,
//! and the decision of where each incoming message goes.
use vstd::prelude::*;
use crate::message::{Error, Message, Msg, MsgView, error_message};

verus! {

/// Lifecycle of a session.
#[derive(Clone, Copy, Debug, PartialEq, Eq, Structural)]
pub enum Phase {
    Starting,
    Running,
    Stopping,
    Stopped,
}

/// The client-facing state of one session. `C` is the handle through which
/// a client is reached.
pub struct Session<C> {
    contents: String,
    clients: Vec<(u128, C)>,
    phase: Phase,
}

/// Relies on `uuid::Uuid::now_v7`: a fresh time-ordered identifier, as a
/// 128-bit integer.
#[verifier::external_body]
fn new_client_id() -> (r: u128) {
    uuid::Uuid::now_v7().as_u128()
}

/// Every id below `m` is in `s`, so `s` holds at least `m` ids.
proof fn lemma_full_prefix(s: Set<u128>, m: nat)
    requires
        s.finite(),
        m <= u128::MAX,
        forall|j: u128| (j as nat) < m ==> s.contains(j),
    ensures
        s.len() >= m,
    decreases m,
{
    if m > 0 {
        let k = (m - 1) as u128;
        assert(s.contains(k));
        lemma_full_prefix(s.remove(k), (m - 1) as nat);
    }
}

/// The messages an update `m` from `sender` turns into: one for each other
/// client, in the order the clients joined.
pub open spec fn fan_out(ids: Seq<u128>, sender: u128, m: Option<MsgView>) -> Seq<(u128, Option<MsgView>)> {
    ids.filter_map(to_others(sender, m))
}

/// Addresses `m` to each client but `sender`.
pub open spec fn to_others(sender: u128, m: Option<MsgView>) -> spec_fn(u128) -> Option<(u128, Option<MsgView>)> {
    |id: u128| if id != sender { Some((id, m)) } else { None }
}

/// A message `m` to `sender` alone, if it is still a client.
pub open spec fn reply(ids: Seq<u128>, sender: u128, m: Option<MsgView>) -> Seq<(u128, Option<MsgView>)> {
    if ids.contains(sender) {
        seq![(sender, m)]
    } else {
        Seq::empty()
    }
}

/// Where the item `item` received from `sender` goes, given the session's
/// clients `ids`.
pub open spec fn plan(ids: Seq<u128>, sender: u128, item: Result<Message, Error>) -> Seq<(u128, Option<MsgView>)> {
    match item {
        Ok(m) => match m@ {
            Some(MsgView::Update(_)) => fan_out(ids, sender, m@),
            Some(MsgView::Error(_)) => Seq::empty(),
            None => reply(ids, sender, Some(MsgView::Error("Unexpected message"@))),
        },
        Err(e) => reply(ids, sender, error_message(e)),
    }
}

impl<C> Session<C> {
    /// The clients, in the order they joined, each with its id.
    pub closed spec fn clients(&self) -> Seq<(u128, C)> {
        self.clients@
    }

    /// The current clipboard content.
    pub closed spec fn content(&self) -> Seq<char> {
        self.contents@
    }

    /// The current lifecycle phase.
    pub closed spec fn state(&self) -> Phase {
        self.phase
    }

    /// The ids of the clients, in the order they joined.
    pub open spec fn ids(&self) -> Seq<u128> {
        self.clients().map_values(|p: (u128, C)| p.0)
    }

    /// Client ids are unique.
    pub open spec fn wf(&self) -> bool {
        self.ids().no_duplicates()
    }

    /// A new session: no content, no clients, not yet running.
    pub fn new() -> (s: Self)
        ensures
            s.wf(),
            s.state() == Phase::Starting,
            s.content() == Seq::<char>::empty(),
            s.clients() == Seq::<(u128, C)>::empty(),
    {
        Session { contents: String::new(), clients: Vec::new(), phase: Phase::Starting }
    }

    /// Marks a starting session as running; any other phase stays.
    pub fn start(&mut self)
        ensures
            final(self).state() == (if old(self).state() == Phase::Starting {
                Phase::Running
            } else {
                old(self).state()
            }),
            final(self).clients() == old(self).clients(),
            final(self).content() == old(self).content(),
    {
        if self.phase == Phase::Starting {
            self.phase = Phase::Running;
        }
    }

    /// Where client `id` stands in the client list, if it is a client.
    fn position(&self, id: u128) -> (r: Option<usize>)
        ensures
            match r {
                Some(i) => i < self.clients().len() && self.clients()[i as int].0 == id,
                None => !self.ids().contains(id),
            },
    {
        let mut i: usize = 0;
        while i < self.clients.len()
            invariant
                i <= self.clients@.len(),
                forall|j: int| 0 <= j < i ==> self.clients@[j].0 != id,
            decreases self.clients@.len() - i,
        {
            if self.clients[i].0 == id {
                return Some(i);
            }
            i = i + 1;
        }
        proof {
            assert forall|j: int| 0 <= j < self.ids().len() implies self.ids()[j] != id by {
                assert(self.ids()[j] == self.clients@[j].0);
            }
        }
        None
    }

    /// Whether `id` is one of the session's clients.
    pub fn has_client(&self, id: u128) -> (r: bool)
        ensures
            r == self.ids().contains(id),
    {
        match self.position(id) {
            Some(i) => {
                assert(self.ids()[i as int] == id);
                true
            },
            None => false,
        }
    }

    /// The handle of client `id`, if it is a client.
    pub fn client(&self, id: u128) -> (r: Option<&C>)
        ensures
            match r {
                Some(h) => exists|i: int|
                    0 <= i < self.clients().len() && #[trigger] self.clients()[i] == (id, *h),
                None => !self.ids().contains(id),
            },
    {
        match self.position(id) {
            Some(i) => {
                let h = &self.clients[i].1;
                assert(self.clients()[i as int] == (id, *h));
                Some(h)
            },
            None => None,
        }
    }

    /// Admits the client with handle `client` under the id `id`. Only a
    /// running session admits clients; an id already in use is refused.
    pub fn connect_with_id(&mut self, id: u128, client: C) -> (r: Result<(), Error>)
        requires
            old(self).wf(),
        ensures
            final(self).wf(),
            old(self).state() != Phase::Running ==> r == Err::<(), Error>(Error::InvalidId),
            old(self).state() == Phase::Running && old(self).ids().contains(id) ==> r == Err::<
                (),
                Error,
            >(Error::InvalidCid),
            r is Err ==> *final(self) == *old(self),
            r is Ok <==> old(self).state() == Phase::Running && !old(self).ids().contains(id),
            r is Ok ==> {
                &&& final(self).clients() == old(self).clients().push((id, client))
                &&& final(self).content() == old(self).content()
                &&& final(self).state() == old(self).state()
            },
    {
        if self.phase != Phase::Running {
            return Err(Error::InvalidId);
        }
        if self.has_client(id) {
            return Err(Error::InvalidCid);
        }
        let ghost before = self.ids();
        self.clients.push((id, client));
        proof {
            assert(self.ids() =~= before.push(id));
            assert forall|a: int, b: int| 0 <= a < b < self.ids().len() implies self.ids()[a] != self.ids()[b] by {
                if b == before.len() {
                    assert(before[a] != id);
                }
            }
        }
        Ok(())
    }

    /// `drawn` if no client has it, else the least id that no client has.
    fn free_id(&self, drawn: u128) -> (r: u128)
        ensures
            !self.ids().contains(r),
            !self.ids().contains(drawn) ==> r == drawn,
    {
        if !self.has_client(drawn) {
            return drawn;
        }
        let n = self.clients.len();
        let mut k: u128 = 0;
        while k <= n as u128
            invariant
                n == self.clients@.len(),
                self.ids().contains(drawn),
                forall|j: u128| j < k ==> self.ids().contains(j),
            decreases n + 1 - k,
        {
            if !self.has_client(k) {
                return k;
            }
            k = k + 1;
        }
        proof {
            assert forall|j: u128| (j as nat) < n + 1 implies self.ids().to_set().contains(j) by {
                assert(self.ids().contains(j));
            }
            lemma_full_prefix(self.ids().to_set(), (n + 1) as nat);
            self.ids().lemma_cardinality_of_set();
        }
        0
    }

    /// Admits the client with handle `client` under `drawn`, or, should a
    /// client already have that id, under the least id no client has; returns
    /// the id. Only a running session admits clients.
    pub fn join(&mut self, drawn: u128, client: C) -> (r: Result<u128, Error>)
        requires
            old(self).wf(),
        ensures
            final(self).wf(),
            r is Ok <==> old(self).state() == Phase::Running,
            r is Err ==> r == Err::<u128, Error>(Error::InvalidId) && *final(self) == *old(self),
            r matches Ok(id) ==> {
                &&& !old(self).ids().contains(id)
                &&& (!old(self).ids().contains(drawn) ==> id == drawn)
                &&& final(self).clients() == old(self).clients().push((id, client))
                &&& final(self).content() == old(self).content()
                &&& final(self).state() == old(self).state()
            },
    {
        if self.phase != Phase::Running {
            return Err(Error::InvalidId);
        }
        let id = self.free_id(drawn);
        match self.connect_with_id(id, client) {
            Ok(()) => Ok(id),
            Err(e) => Err(e),
        }
    }

    /// Admits the client with handle `client` under a fresh time-ordered id
    /// (or, should that id be taken, the least free one), and returns the id.
    /// Only a running session admits clients.
    pub fn connect(&mut self, client: C) -> (r: Result<u128, Error>)
        requires
            old(self).wf(),
        ensures
            final(self).wf(),
            r is Ok <==> old(self).state() == Phase::Running,
            r is Err ==> r == Err::<u128, Error>(Error::InvalidId) && *final(self) == *old(self),
            r matches Ok(id) ==> {
                &&& !old(self).ids().contains(id)
                &&& final(self).clients() == old(self).clients().push((id, client))
                &&& final(self).content() == old(self).content()
                &&& final(self).state() == old(self).state()
            },
    {
        self.join(new_client_id(), client)
    }

    /// Removes client `id` and hands back its handle. When the last client of
    /// a running session leaves, the session starts stopping.
    pub fn disconnect(&mut self, id: u128) -> (r: Option<C>)
        requires
            old(self).wf(),
        ensures
            final(self).wf(),
            final(self).content() == old(self).content(),
            !final(self).ids().contains(id),
            forall|x: u128| x != id ==> (final(self).ids().contains(x) <==> old(self).ids().contains(x)),
            match r {
                Some(h) => exists|i: int|
                    0 <= i < old(self).clients().len() && old(self).clients()[i] == (id, h)
                        && final(self).clients() == old(self).clients().remove(i),
                None => !old(self).ids().contains(id) && final(self).clients() == old(self).clients(),
            },
            final(self).state() == (if r is Some && old(self).state() == Phase::Running
                && final(self).clients().len() == 0 {
                Phase::Stopping
            } else {
                old(self).state()
            }),
    {
        match self.position(id) {
            Some(i) => {
                let ghost before = self.clients@;
                let (_, h) = self.clients.remove(i);
                proof {
                    assert(self.ids() =~= old(self).ids().remove(i as int));
                    assert forall|a: int, b: int| 0 <= a < b < self.ids().len() implies self.ids()[a] != self.ids()[b] by {
                        let a0 = if a < i { a } else { a + 1 };
                        let b0 = if b < i { b } else { b + 1 };
                        assert(old(self).ids()[a0] != old(self).ids()[b0]);
                    }
                    assert forall|j: int| 0 <= j < self.ids().len() implies self.ids()[j] != id by {
                        let j0 = if j < i { j } else { j + 1 };
                        assert(old(self).ids()[j0] != old(self).ids()[i as int]);
                    }
                    assert forall|x: u128| x != id implies (self.ids().contains(x) <==> old(self).ids().contains(x)) by {
                        if old(self).ids().contains(x) {
                            let j0 = choose|j0: int| 0 <= j0 < old(self).ids().len() && old(self).ids()[j0] == x;
                            assert(j0 != i);
                            let j = if j0 < i { j0 } else { j0 - 1 };
                            assert(self.ids()[j] == x);
                        }
                        if self.ids().contains(x) {
                            let j = choose|j: int| 0 <= j < self.ids().len() && self.ids()[j] == x;
                            let j0 = if j < i { j } else { j + 1 };
                            assert(old(self).ids()[j0] == x);
                        }
                    }
                }
                if self.phase == Phase::Running && self.clients.len() == 0 {
                    self.phase = Phase::Stopping;
                }
                Some(h)
            },
            None => None,
        }
    }

    /// Removes every client in `failed`, say because delivery to it failed,
    /// and hands back the handles removed. The second part of the result is
    /// whether the session task is to end: the session no longer runs.
    pub fn evict(&mut self, failed: &Vec<u128>) -> (r: (Vec<(u128, C)>, bool))
        requires
            old(self).wf(),
        ensures
            final(self).wf(),
            final(self).content() == old(self).content(),
            forall|k: int| 0 <= k < failed@.len() ==> !final(self).ids().contains(#[trigger] failed@[k]),
            forall|x: u128|
                !failed@.contains(x) ==> (final(self).ids().contains(x) <==> old(self).ids().contains(x)),
            final(self).state() == old(self).state() || final(self).state() == Phase::Stopping,
            old(self).state() == Phase::Running && old(self).clients().len() > 0 && final(self).clients().len() == 0 ==> final(self).state() == Phase::Stopping,
            r.1 == (final(self).state() != Phase::Running),
    {
        let mut removed: Vec<(u128, C)> = Vec::new();
        let mut i: usize = 0;
        while i < failed.len()
            invariant
                i <= failed@.len(),
                self.wf(),
                self.content() == old(self).content(),
                forall|k: int| 0 <= k < i ==> !self.ids().contains(#[trigger] failed@[k]),
                forall|x: u128|
                    !failed@.subrange(0, i as int).contains(x) ==> (self.ids().contains(x) <==> old(self).ids().contains(x)),
                self.state() == old(self).state() || self.state() == Phase::Stopping,
                old(self).state() == Phase::Running && old(self).clients().len() > 0
                    && self.clients().len() == 0 ==> self.state() == Phase::Stopping,
            decreases failed@.len() - i,
        {
            let id = failed[i];
            let ghost before = *self;
            if let Some(h) = self.disconnect(id) {
                removed.push((id, h));
            }
            proof {
                assert forall|x: u128| !failed@.subrange(0, i + 1).contains(x) implies (self.ids().contains(x)
                    <==> old(self).ids().contains(x)) by {
                    assert(failed@.subrange(0, i + 1)[i as int] == id);
                    if failed@.subrange(0, i as int).contains(x) {
                        let j = choose|j: int| 0 <= j < i && failed@.subrange(0, i as int)[j] == x;
                        assert(failed@.subrange(0, i + 1)[j] == x);
                    }
                }
                if before.clients().len() == 0 {
                    assert(before.ids().len() == 0);
                    assert(!before.ids().contains(id));
                }
            }
            i = i + 1;
        }
        assert(failed@.subrange(0, failed@.len() as int) =~= failed@);
        let over = self.phase != Phase::Running;
        (removed, over)
    }

    /// The session task's decision on `event`: the messages to deliver for an
    /// item received while the session runs, or `None` when the task is to
    /// end (the mailbox closed, the session was told to stop, or it no longer
    /// runs).
    pub fn step(&mut self, event: SessionEvent) -> (r: Option<Vec<(u128, Message)>>)
        requires
            old(self).wf(),
        ensures
            final(self).wf(),
            final(self).clients() == old(self).clients(),
            final(self).state() == old(self).state(),
            match event {
                SessionEvent::Received(sender, item) => if old(self).state() == Phase::Running {
                    &&& r matches Some(out) && out@.map_values(|p: (u128, Message)| (p.0, p.1@)) == plan(
                        old(self).ids(),
                        sender,
                        item,
                    )
                    &&& final(self).content() == (match item {
                        Ok(m) => match m@ {
                            Some(MsgView::Update(p)) => p,
                            _ => old(self).content(),
                        },
                        Err(_) => old(self).content(),
                    })
                } else {
                    r is None && final(self).content() == old(self).content()
                },
                _ => r is None && final(self).content() == old(self).content(),
            },
    {
        match event {
            SessionEvent::Received(sender, item) => {
                if self.phase == Phase::Running {
                    Some(self.route(sender, item))
                } else {
                    None
                }
            },
            SessionEvent::MailboxClosed => None,
            SessionEvent::Cancelled => None,
        }
    }

    /// Ends the session's admission of clients and hands back every client,
    /// so that each can be told to stop.
    pub fn stop(&mut self) -> (r: Vec<(u128, C)>)
        requires
            old(self).wf(),
        ensures
            final(self).wf(),
            r@ == old(self).clients(),
            final(self).clients() == Seq::<(u128, C)>::empty(),
            final(self).content() == old(self).content(),
            final(self).state() == (if old(self).state() == Phase::Stopped {
                Phase::Stopped
            } else {
                Phase::Stopping
            }),
    {
        let mut drained: Vec<(u128, C)> = Vec::new();
        std::mem::swap(&mut drained, &mut self.clients);
        if self.phase != Phase::Stopped {
            self.phase = Phase::Stopping;
        }
        proof {
            assert(self.ids() =~= Seq::<u128>::empty());
        }
        drained
    }

    /// Marks the session as stopped for good, dropping any client left.
    pub fn finish(&mut self)
        ensures
            final(self).wf(),
            final(self).state() == Phase::Stopped,
            final(self).clients() == Seq::<(u128, C)>::empty(),
            final(self).content() == old(self).content(),
    {
        self.clients = Vec::new();
        self.phase = Phase::Stopped;
        proof {
            assert(self.ids() =~= Seq::<u128>::empty());
        }
    }

    /// The current lifecycle phase.
    pub fn phase(&self) -> (r: Phase)
        ensures
            r == self.state(),
    {
        self.phase
    }

    /// The current clipboard content.
    pub fn contents(&self) -> (r: String)
        ensures
            r@ == self.content(),
    {
        self.contents.clone()
    }

    /// The ids of the clients, in the order they joined.
    pub fn client_ids(&self) -> (r: Vec<u128>)
        ensures
            r@ == self.ids(),
    {
        let mut r: Vec<u128> = Vec::new();
        let mut i: usize = 0;
        while i < self.clients.len()
            invariant
                i <= self.clients@.len(),
                r@ == self.ids().take(i as int),
            decreases self.clients@.len() - i,
        {
            r.push(self.clients[i].0);
            assert(r@ =~= self.ids().take(i + 1));
            i = i + 1;
        }
        assert(r@ =~= self.ids());
        r
    }

    /// A reply of `m` to `sender` alone, if it is still a client.
    fn reply_to(&self, sender: u128, m: Message) -> (r: Vec<(u128, Message)>)
        ensures
            r@.map_values(|p: (u128, Message)| (p.0, p.1@)) == reply(self.ids(), sender, m@),
    {
        let mut out: Vec<(u128, Message)> = Vec::new();
        let ghost v = m@;
        if self.has_client(sender) {
            out.push((sender, m));
            assert(out@.map_values(|p: (u128, Message)| (p.0, p.1@)) =~= seq![(sender, v)]);
        } else {
            assert(out@.map_values(|p: (u128, Message)| (p.0, p.1@)) =~= Seq::empty());
        }
        out
    }

    /// Takes in the item `item` that client `sender` sent, and returns the
    /// messages to deliver, each with the id of the client it goes to. An
    /// update becomes the session's content and goes to every other client;
    /// an undecodable item or a failure is reported to the sender alone.
    pub fn route(&mut self, sender: u128, item: Result<Message, Error>) -> (r: Vec<(u128, Message)>)
        requires
            old(self).wf(),
        ensures
            final(self).wf(),
            final(self).clients() == old(self).clients(),
            final(self).state() == old(self).state(),
            r@.map_values(|p: (u128, Message)| (p.0, p.1@)) == plan(old(self).ids(), sender, item),
            final(self).content() == (match item {
                Ok(m) => match m@ {
                    Some(MsgView::Update(p)) => p,
                    _ => old(self).content(),
                },
                Err(_) => old(self).content(),
            }),
    {
        match item {
            Ok(m) => match m.msg {
                Some(Msg::Update(p)) => {
                    let ghost v = Some(MsgView::Update(p@));
                    let ghost f = to_others(sender, v);
                    let mut out: Vec<(u128, Message)> = Vec::new();
                    let mut i: usize = 0;
                    while i < self.clients.len()
                        invariant
                            i <= self.clients@.len(),
                            self.clients@ == old(self).clients@,
                            v == Some(MsgView::Update(p@)),
                            f == to_others(sender, v),
                            out@.map_values(|q: (u128, Message)| (q.0, q.1@)) == self.ids().take(i as int).filter_map(f),
                        decreases self.clients@.len() - i,
                    {
                        let id = self.clients[i].0;
                        proof {
                            self.ids().lemma_filter_map_take_succ(f, i as int);
                            assert(self.ids()[i as int] == id);
                        }
                        if id != sender {
                            let ghost before = out@;
                            let msg = Message { msg: Some(Msg::Update(p.clone())) };
                            out.push((id, msg));
                            assert(out@.map_values(|q: (u128, Message)| (q.0, q.1@)) =~= before.map_values(|q: (u128, Message)| (q.0, q.1@)).push((id, v)));
                        }
                        i = i + 1;
                    }
                    assert(self.ids().take(self.ids().len() as int) =~= self.ids());
                    self.contents = p;
                    out
                },
                Some(Msg::Error(_)) => {
                    let out: Vec<(u128, Message)> = Vec::new();
                    assert(out@.map_values(|q: (u128, Message)| (q.0, q.1@)) =~= Seq::empty());
                    out
                },
                None => self.reply_to(sender, Error::UnexpectedMessage(String::new()).serialize()),
            },
            Err(e) => self.reply_to(sender, e.serialize()),
        }
    }
}

/// An update from client `a` goes to every other client `b` of the session,
/// and never back to `a`.
pub proof fn lemma_update_reaches_others(ids: Seq<u128>, a: u128, b: u128, p: Seq<char>)
    requires
        ids.contains(b),
        a != b,
    ensures
        fan_out(ids, a, Some(MsgView::Update(p))).contains((b, Some(MsgView::Update(p)))),
        forall|k: int|
            0 <= k < fan_out(ids, a, Some(MsgView::Update(p))).len() ==> (#[trigger] fan_out(
                ids,
                a,
                Some(MsgView::Update(p)),
            )[k]).0 != a,
    decreases ids.len(),
{
    let m = Some(MsgView::Update(p));
    lemma_fan_out_skips_sender(ids, a, m);
    let rest = ids.drop_last();
    assert(ids =~= rest.push(ids.last()));
    if ids.last() == b {
        assert(fan_out(ids, a, m) == fan_out(rest, a, m) + seq![(b, m)]);
        assert(fan_out(ids, a, m).last() == (b, m));
    } else {
        assert(rest.contains(b));
        lemma_update_reaches_others(rest, a, b, p);
        let k = choose|k: int| 0 <= k < fan_out(rest, a, m).len() && fan_out(rest, a, m)[k] == (b, m);
        assert(fan_out(ids, a, m)[k] == (b, m));
    }
}

/// No fanned-out message goes to its sender.
proof fn lemma_fan_out_skips_sender(ids: Seq<u128>, a: u128, m: Option<MsgView>)
    ensures
        forall|k: int| 0 <= k < fan_out(ids, a, m).len() ==> (#[trigger] fan_out(ids, a, m)[k]).0 != a,
    decreases ids.len(),
{
    if ids.len() > 0 {
        let rest = ids.drop_last();
        lemma_fan_out_skips_sender(rest, a, m);
        if ids.last() != a {
            assert(fan_out(ids, a, m) == fan_out(rest, a, m) + seq![(ids.last(), m)]);
        } else {
            assert(fan_out(ids, a, m) == fan_out(rest, a, m) + Seq::<(u128, Option<MsgView>)>::empty());
            assert(fan_out(ids, a, m) =~= fan_out(rest, a, m));
        }
    }
}

/// When client `c` is removed, say because its sink broke, every other
/// client stays, and an update from client `a` still goes to client `b`;
/// `c` is no longer a client.
pub proof fn lemma_eviction_keeps_others<C>(
    clients: Seq<(u128, C)>,
    i: int,
    a: u128,
    b: u128,
    p: Seq<char>,
)
    requires
        0 <= i < clients.len(),
        clients.map_values(|q: (u128, C)| q.0).no_duplicates(),
        clients.map_values(|q: (u128, C)| q.0).contains(b),
        a != b,
        b != clients[i].0,
    ensures
        !clients.remove(i).map_values(|q: (u128, C)| q.0).contains(clients[i].0),
        clients.remove(i).map_values(|q: (u128, C)| q.0).contains(b),
        fan_out(clients.remove(i).map_values(|q: (u128, C)| q.0), a, Some(MsgView::Update(p))).contains(
            (b, Some(MsgView::Update(p))),
        ),
{
    let ids = clients.map_values(|q: (u128, C)| q.0);
    let after = clients.remove(i).map_values(|q: (u128, C)| q.0);
    assert(after =~= ids.remove(i));
    let j = choose|j: int| 0 <= j < ids.len() && ids[j] == b;
    assert(j != i);
    let j2 = if j < i { j } else { j - 1 };
    assert(after[j2] == b);
    assert forall|k: int| 0 <= k < after.len() implies after[k] != ids[i] by {
        let k0 = if k < i { k } else { k + 1 };
        assert(ids[k0] != ids[i]);
    }
    lemma_update_reaches_others(after, a, b, p);
}

/// What the session task observes.
pub enum SessionEvent {
    /// An item from the mailbox, with the id of the client that sent it.
    Received(u128, Result<Message, Error>),
    /// Every sender of the mailbox is gone.
    MailboxClosed,
    /// The session is told to stop.
    Cancelled,
}

/// What the relay task of one client observes.
pub enum RelayEvent {
    /// The client's stream yielded an item.
    Received(Result<Message, Error>),
    /// The client's stream ended.
    StreamEnded,
    /// The session is shutting down.
    SessionCancelled,
    /// The client alone is told to stop.
    ClientCancelled,
}

/// What the relay task does next.
pub struct RelayAction {
    /// The item to pass on to the session's mailbox.
    pub forward: Option<Result<Message, Error>>,
    /// Whether the relay task ends.
    pub stop: bool,
    /// Whether to fire the client's own stop signal, so that whatever else
    /// serves the client ends too.
    pub cancel_client: bool,
}

/// An error that ends the client's stream: a transport or internal failure.
pub open spec fn is_terminal(e: Error) -> bool {
    e is Unknown
}

/// The relay task's decision on `event`. Items are passed on, errors
/// included, so that the client hears of them; the relay ends on the end of
/// the stream, a terminal error or either stop signal, and on ending fires the
/// client's stop signal unless that signal is what ended it.
pub fn relay_step(event: RelayEvent) -> (a: RelayAction)
    ensures
        match event {
            RelayEvent::Received(item) => {
                &&& a.forward == Some(item)
                &&& a.stop == (item matches Err(e) && is_terminal(e))
                &&& a.cancel_client == a.stop
            },
            RelayEvent::StreamEnded => a.forward is None && a.stop && a.cancel_client,
            RelayEvent::SessionCancelled => a.forward is None && a.stop && a.cancel_client,
            RelayEvent::ClientCancelled => a.forward is None && a.stop && !a.cancel_client,
        },
{
    match event {
        RelayEvent::Received(item) => {
            let stop = match &item {
                Err(Error::Unknown(_)) => true,
                _ => false,
            };
            RelayAction { forward: Some(item), stop, cancel_client: stop }
        },
        RelayEvent::StreamEnded => RelayAction { forward: None, stop: true, cancel_client: true },
        RelayEvent::SessionCancelled => RelayAction { forward: None, stop: true, cancel_client: true },
        RelayEvent::ClientCancelled => RelayAction { forward: None, stop: true, cancel_client: false },
    }
}

} // verus!
