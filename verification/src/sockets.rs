//! The roster of connected WebSocket clients and the selections scripts
//! send to: the current client, its peers in the same group, everyone in
//! the group, or the members of a named group. A client that is closing
//! receives nothing. The connections themselves are the server's.
use vstd::prelude::*;

verus! {

/// The clients a script addresses, relative to the current client.
#[derive(Debug, Clone, PartialEq)]
pub enum Selection {
    /// The current client only.
    This,
    /// The other clients of the current client's group.
    Peers,
    /// Every client of the current client's group, itself included.
    Everyone,
    /// The other clients of the named group.
    Group(String),
}

/// A selection as plain values.
pub enum SelectionV {
    This,
    Peers,
    Everyone,
    Group(Seq<char>),
}

pub open spec fn selection_v(s: Selection) -> SelectionV {
    match s {
        Selection::This => SelectionV::This,
        Selection::Peers => SelectionV::Peers,
        Selection::Everyone => SelectionV::Everyone,
        Selection::Group(g) => SelectionV::Group(g@),
    }
}

/// One connected client: its id, the group it joined (empty at first) and
/// whether it is closing.
#[derive(Debug, Clone)]
pub struct ClientInfo {
    pub id: u128,
    pub group: String,
    pub closing: bool,
}

/// A client as plain values.
pub struct ClientV {
    pub id: u128,
    pub group: Seq<char>,
    pub closing: bool,
}

pub open spec fn client_v(c: ClientInfo) -> ClientV {
    ClientV { id: c.id, group: c.group@, closing: c.closing }
}

pub open spec fn clients_v(s: Seq<ClientInfo>) -> Seq<ClientV> {
    s.map_values(|c: ClientInfo| client_v(c))
}

/// The index of client `id`, searching from `i`.
pub open spec fn index_from(s: Seq<ClientV>, id: u128, i: int) -> Option<int>
    decreases s.len() - i,
{
    if i < 0 || i >= s.len() {
        None
    } else if s[i].id == id {
        Some(i)
    } else {
        index_from(s, id, i + 1)
    }
}

pub open spec fn index_of(s: Seq<ClientV>, id: u128) -> Option<int> {
    index_from(s, id, 0)
}

/// The group of client `id`, if it is connected.
pub open spec fn group_of(s: Seq<ClientV>, id: u128) -> Option<Seq<char>> {
    match index_of(s, id) {
        Some(i) => Some(s[i].group),
        None => None,
    }
}

/// Whether client `c` is addressed by `sel` from client `me`, whose group is `g`.
pub open spec fn selected(c: ClientV, sel: SelectionV, me: u128, g: Option<Seq<char>>) -> bool {
    !c.closing && match sel {
        SelectionV::This => c.id == me,
        SelectionV::Peers => c.id != me && g == Some(c.group),
        SelectionV::Everyone => g == Some(c.group),
        SelectionV::Group(name) => c.id != me && c.group == name,
    }
}

/// The ids of the clients of `s` addressed by `sel`, in roster order.
pub open spec fn members_of(s: Seq<ClientV>, sel: SelectionV, me: u128, g: Option<Seq<char>>) -> Seq<u128>
    decreases s.len(),
{
    if s.len() == 0 {
        seq![]
    } else {
        let rest = members_of(s.drop_last(), sel, me, g);
        if selected(s.last(), sel, me, g) {
            rest.push(s.last().id)
        } else {
            rest
        }
    }
}

/// Ids are unique.
pub open spec fn unique_ids(s: Seq<ClientV>) -> bool {
    forall|i: int, j: int| 0 <= i < j < s.len() ==> s[i].id != s[j].id
}

/// The connected clients, in the order they registered, each id once.
/// A list rather than a hash map keeps that order: a selection's members
/// come out in a defined sequence that the contracts state exactly.
pub struct Roster {
    clients: Vec<ClientInfo>,
}

proof fn lemma_index_from(s: Seq<ClientV>, id: u128, i: int)
    ensures
        index_from(s, id, i) matches Some(j) ==> 0 <= i <= j < s.len() && s[j].id == id,
        i >= 0 && index_from(s, id, i) is None ==> forall|j: int| i <= j < s.len() ==> s[j].id
            != id,
    decreases s.len() - i,
{
    if 0 <= i < s.len() && s[i].id != id {
        lemma_index_from(s, id, i + 1);
    }
}

proof fn lemma_index_unique(s: Seq<ClientV>, k: int)
    requires
        unique_ids(s),
        0 <= k < s.len(),
    ensures
        index_of(s, s[k].id) == Some(k),
{
    lemma_index_from(s, s[k].id, 0);
    if let Some(j) = index_of(s, s[k].id) {
        assert(j == k);
    }
}

impl Roster {
    pub closed spec fn view_seq(&self) -> Seq<ClientV> {
        clients_v(self.clients@)
    }

    /// No two clients share an id.
    pub open spec fn wf(&self) -> bool {
        unique_ids(self.view_seq())
    }

    /// No clients.
    pub fn new() -> (r: Self)
        ensures
            r.wf(),
            r.view_seq().len() == 0,
    {
        Roster { clients: Vec::new() }
    }

    fn find(&self, id: u128) -> (r: Option<usize>)
        ensures
            match r {
                Some(i) => index_of(self.view_seq(), id) == Some(i as int) && i < self.clients.len(),
                None => index_of(self.view_seq(), id) is None,
            },
    {
        let ghost s = self.view_seq();
        let mut i: usize = 0;
        while i < self.clients.len()
            invariant
                i <= self.clients.len(),
                s == self.view_seq(),
                index_of(s, id) == index_from(s, id, i as int),
            decreases self.clients.len() - i,
        {
            if self.clients[i].id == id {
                proof {
                    lemma_index_from(s, id, i as int);
                }
                return Some(i);
            }
            i += 1;
        }
        None
    }

    /// Add client `id`, in no group and not closing (replacing a client
    /// with the same id).
    pub fn register(&mut self, id: u128)
        requires
            old(self).wf(),
        ensures
            final(self).wf(),
            final(self).view_seq() == match index_of(old(self).view_seq(), id) {
                Some(i) => old(self).view_seq().update(
                    i,
                    ClientV { id, group: Seq::<char>::empty(), closing: false },
                ),
                None => old(self).view_seq().push(
                    ClientV { id, group: Seq::<char>::empty(), closing: false },
                ),
            },
            group_of(final(self).view_seq(), id) == Some(Seq::<char>::empty()),
            index_of(final(self).view_seq(), id) matches Some(i) && !final(self).view_seq()[i].closing,
            forall|other: u128| other != id ==> group_of(final(self).view_seq(), other) == group_of(
                old(self).view_seq(),
                other,
            ),
    {
        let ghost s0 = self.view_seq();
        let info = ClientInfo { id, group: String::new(), closing: false };
        match self.find(id) {
            Some(i) => {
                self.clients.set(i, info);
                proof {
                    lemma_index_from(s0, id, 0);
                    let s1 = self.view_seq();
                    assert(s1 =~= s0.update(i as int, client_v(info)));
                    assert(unique_ids(s1));
                    lemma_index_unique(s1, i as int);
                    assert forall|other: u128| other != id implies group_of(s1, other) == group_of(
                        s0,
                        other,
                    ) by {
                        lemma_index_from(s0, other, 0);
                        lemma_index_from(s1, other, 0);
                        if let Some(j) = index_of(s0, other) {
                            lemma_index_unique(s1, j);
                        }
                        if let Some(j) = index_of(s1, other) {
                            lemma_index_unique(s0, j);
                        }
                    }
                }
            },
            None => {
                self.clients.push(info);
                proof {
                    lemma_index_from(s0, id, 0);
                    let s1 = self.view_seq();
                    assert(s1 =~= s0.push(client_v(info)));
                    assert(unique_ids(s1));
                    lemma_index_unique(s1, s0.len() as int);
                    assert forall|other: u128| other != id implies group_of(s1, other) == group_of(
                        s0,
                        other,
                    ) by {
                        lemma_index_from(s0, other, 0);
                        lemma_index_from(s1, other, 0);
                        if let Some(j) = index_of(s0, other) {
                            lemma_index_unique(s1, j);
                        }
                        if let Some(j) = index_of(s1, other) {
                            lemma_index_unique(s0, j);
                        }
                    }
                }
            },
        }
    }

    /// Remove client `id`.
    pub fn remove(&mut self, id: u128)
        requires
            old(self).wf(),
        ensures
            final(self).wf(),
            final(self).view_seq() == match index_of(old(self).view_seq(), id) {
                Some(i) => old(self).view_seq().remove(i),
                None => old(self).view_seq(),
            },
            group_of(final(self).view_seq(), id) is None,
            forall|other: u128| other != id ==> group_of(final(self).view_seq(), other) == group_of(
                old(self).view_seq(),
                other,
            ),
    {
        let ghost s0 = self.view_seq();
        match self.find(id) {
            Some(i) => {
                let ghost raw = self.clients@;
                self.clients.remove(i);
                proof {
                    lemma_index_from(s0, id, 0);
                    let s1 = self.view_seq();
                    raw.remove_ensures(i as int);
                    assert(s1 =~= s0.remove(i as int));
                    assert(unique_ids(s1));
                    lemma_index_from(s1, id, 0);
                    if let Some(j) = index_of(s1, id) {
                        if j < i {
                            assert(s0[j].id == id);
                        } else {
                            assert(s0[j + 1].id == id);
                        }
                    }
                    assert forall|other: u128| other != id implies group_of(s1, other) == group_of(
                        s0,
                        other,
                    ) by {
                        lemma_index_from(s0, other, 0);
                        lemma_index_from(s1, other, 0);
                        if let Some(j) = index_of(s0, other) {
                            if j < i {
                                lemma_index_unique(s1, j);
                            } else {
                                lemma_index_unique(s1, j - 1);
                            }
                        }
                        if let Some(j) = index_of(s1, other) {
                            if j < i {
                                lemma_index_unique(s0, j);
                            } else {
                                lemma_index_unique(s0, j + 1);
                            }
                        }
                    }
                }
            },
            None => {},
        }
    }

    /// Client `id` joins group `group` (leaving its former group).
    pub fn join(&mut self, id: u128, group: String)
        requires
            old(self).wf(),
        ensures
            final(self).wf(),
            final(self).view_seq() == match index_of(old(self).view_seq(), id) {
                Some(i) => old(self).view_seq().update(
                    i,
                    ClientV { id, group: group@, closing: old(self).view_seq()[i].closing },
                ),
                None => old(self).view_seq(),
            },
            group_of(old(self).view_seq(), id) is Some ==> group_of(final(self).view_seq(), id)
                == Some(group@),
            group_of(old(self).view_seq(), id) is None ==> group_of(final(self).view_seq(), id) is None,
            forall|other: u128| other != id ==> group_of(final(self).view_seq(), other) == group_of(
                old(self).view_seq(),
                other,
            ),
    {
        self.update(id, Some(group), false);
    }

    /// Client `id` is closing: it is addressed by no selection any more.
    pub fn mark_closing(&mut self, id: u128)
        requires
            old(self).wf(),
        ensures
            final(self).wf(),
            final(self).view_seq() == match index_of(old(self).view_seq(), id) {
                Some(i) => old(self).view_seq().update(
                    i,
                    ClientV { id, group: old(self).view_seq()[i].group, closing: true },
                ),
                None => old(self).view_seq(),
            },
            group_of(final(self).view_seq(), id) == group_of(old(self).view_seq(), id),
            index_of(final(self).view_seq(), id) matches Some(i) ==> final(self).view_seq()[i].closing,
            forall|other: u128| other != id ==> group_of(final(self).view_seq(), other) == group_of(
                old(self).view_seq(),
                other,
            ),
    {
        self.update(id, None, true);
    }

    fn update(&mut self, id: u128, group: Option<String>, closing: bool)
        requires
            old(self).wf(),
        ensures
            final(self).wf(),
            final(self).view_seq() == match index_of(old(self).view_seq(), id) {
                Some(i) => old(self).view_seq().update(
                    i,
                    ClientV {
                        id,
                        group: match group {
                            Some(g) => g@,
                            None => old(self).view_seq()[i].group,
                        },
                        closing: old(self).view_seq()[i].closing || closing,
                    },
                ),
                None => old(self).view_seq(),
            },
            group_of(old(self).view_seq(), id) is Some ==> group_of(final(self).view_seq(), id)
                == Some(
                match group {
                    Some(g) => g@,
                    None => group_of(old(self).view_seq(), id)->0,
                },
            ),
            group_of(old(self).view_seq(), id) is None ==> group_of(final(self).view_seq(), id) is None,
            closing ==> (index_of(final(self).view_seq(), id) matches Some(i)
                ==> final(self).view_seq()[i].closing),
            forall|other: u128| other != id ==> group_of(final(self).view_seq(), other) == group_of(
                old(self).view_seq(),
                other,
            ),
    {
        let ghost s0 = self.view_seq();
        match self.find(id) {
            Some(i) => {
                let new_group = match group {
                    Some(g) => g,
                    None => self.clients[i].group.clone(),
                };
                let new_closing = self.clients[i].closing || closing;
                let info = ClientInfo { id, group: new_group, closing: new_closing };
                self.clients.set(i, info);
                proof {
                    lemma_index_from(s0, id, 0);
                    let s1 = self.view_seq();
                    assert(s1 =~= s0.update(i as int, client_v(info)));
                    assert(unique_ids(s1));
                    lemma_index_unique(s1, i as int);
                    assert forall|other: u128| other != id implies group_of(s1, other) == group_of(
                        s0,
                        other,
                    ) by {
                        lemma_index_from(s0, other, 0);
                        lemma_index_from(s1, other, 0);
                        if let Some(j) = index_of(s0, other) {
                            lemma_index_unique(s1, j);
                        }
                        if let Some(j) = index_of(s1, other) {
                            lemma_index_unique(s0, j);
                        }
                    }
                }
            },
            None => {},
        }
    }

    /// The group of client `id`, if it is connected.
    pub fn group(&self, id: u128) -> (r: Option<String>)
        ensures
            match r {
                Some(g) => group_of(self.view_seq(), id) == Some(g@),
                None => group_of(self.view_seq(), id) is None,
            },
    {
        match self.find(id) {
            Some(i) => Some(self.clients[i].group.clone()),
            None => None,
        }
    }

    /// The ids of the clients that `selection` addresses from client `me`,
    /// in roster order; closing clients are never addressed.
    pub fn members(&self, selection: &Selection, me: u128) -> (r: Vec<u128>)
        ensures
            r@ == members_of(
                self.view_seq(),
                selection_v(*selection),
                me,
                group_of(self.view_seq(), me),
            ),
    {
        let my_group = self.group(me);
        let ghost g = group_of(self.view_seq(), me);
        let ghost s = self.view_seq();
        let ghost sel = selection_v(*selection);
        let mut out: Vec<u128> = Vec::new();
        let mut i: usize = 0;
        assert(s.take(0) =~= Seq::<ClientV>::empty());
        while i < self.clients.len()
            invariant
                i <= self.clients.len(),
                s == self.view_seq(),
                sel == selection_v(*selection),
                g == group_of(s, me),
                match my_group {
                    Some(x) => g == Some(x@),
                    None => g is None,
                },
                out@ == members_of(s.take(i as int), sel, me, g),
            decreases self.clients.len() - i,
        {
            let c = &self.clients[i];
            let same_group = match &my_group {
                Some(x) => c.group == *x,
                None => false,
            };
            let addressed = !c.closing && match selection {
                Selection::This => c.id == me,
                Selection::Peers => c.id != me && same_group,
                Selection::Everyone => same_group,
                Selection::Group(name) => c.id != me && c.group == *name,
            };
            proof {
                assert(s.take(i + 1).drop_last() =~= s.take(i as int));
                assert(s.take(i + 1).last() == client_v(*c));
                assert(addressed == selected(client_v(*c), sel, me, g));
            }
            if addressed {
                out.push(c.id);
            }
            i += 1;
        }
        assert(s.take(self.clients.len() as int) =~= s);
        out
    }
}

/// What a selection addresses: a closing client never; `Peers` and named
/// groups never the current client; `This` nothing but the current client.
pub proof fn lemma_members(s: Seq<ClientV>, sel: SelectionV, me: u128, g: Option<Seq<char>>, x: u128)
    requires
        members_of(s, sel, me, g).contains(x),
    ensures
        exists|i: int| 0 <= i < s.len() && s[i].id == x && !s[i].closing,
        sel is This ==> x == me,
        sel is Peers ==> x != me,
        sel matches SelectionV::Group(_) ==> x != me,
    decreases s.len(),
{
    let rest = members_of(s.drop_last(), sel, me, g);
    if s.len() > 0 {
        if rest.contains(x) {
            lemma_members(s.drop_last(), sel, me, g, x);
            let i = choose|i: int| 0 <= i < s.drop_last().len() && s.drop_last()[i].id == x
                && !s.drop_last()[i].closing;
            assert(s[i] == s.drop_last()[i]);
        } else {
            assert(selected(s.last(), sel, me, g));
            assert(members_of(s, sel, me, g) == rest.push(s.last().id));
            assert(s.last().id == x) by {
                let k = choose|k: int| 0 <= k < rest.push(s.last().id).len() && rest.push(
                    s.last().id,
                )[k] == x;
                if k < rest.len() {
                    assert(rest.contains(x));
                }
            }
            assert(s[s.len() - 1].id == x);
        }
    }
}

// ---- a connection's life ----

/// Where a connection is in its life: open, closing (its `OnClose` handler
/// is running), or closed (gone from the roster).
#[derive(Debug, Clone, Copy, PartialEq, Eq, Structural)]
pub enum ConnPhase {
    Open,
    Closing,
    Closed,
}

/// What happens on a connection.
#[derive(Debug, Clone, PartialEq)]
pub enum ConnEvent {
    /// The client sent a text (a binary message is read as text).
    Received(String),
    /// A ping or a pong.
    Heartbeat,
    /// A message for the client is waiting in its queue.
    Outgoing,
    /// The client closed, the connection failed, or the queue was dropped.
    Gone,
    /// The `OnClose` handler has finished.
    OnCloseDone,
}

/// What the server does next on a connection.
#[derive(Debug, Clone, PartialEq)]
pub enum ConnAction {
    /// Hand the text to the script's `OnMessage` handler.
    HandleMessage(String),
    /// Send the waiting message to the client.
    Deliver,
    /// Nothing.
    Ignore,
    /// Mark the client as closing, then run the script's `OnClose` handler.
    MarkClosing,
    /// Take the client out of the roster.
    Remove,
}

/// An action as plain values.
pub enum ConnActionV {
    HandleMessage(Seq<char>),
    Deliver,
    Ignore,
    MarkClosing,
    Remove,
}

/// An event as plain values.
pub enum ConnEventV {
    Received(Seq<char>),
    Heartbeat,
    Outgoing,
    Gone,
    OnCloseDone,
}

pub open spec fn conn_event_v(e: ConnEvent) -> ConnEventV {
    match e {
        ConnEvent::Received(t) => ConnEventV::Received(t@),
        ConnEvent::Heartbeat => ConnEventV::Heartbeat,
        ConnEvent::Outgoing => ConnEventV::Outgoing,
        ConnEvent::Gone => ConnEventV::Gone,
        ConnEvent::OnCloseDone => ConnEventV::OnCloseDone,
    }
}

pub open spec fn conn_action_v(a: ConnAction) -> ConnActionV {
    match a {
        ConnAction::HandleMessage(t) => ConnActionV::HandleMessage(t@),
        ConnAction::Deliver => ConnActionV::Deliver,
        ConnAction::Ignore => ConnActionV::Ignore,
        ConnAction::MarkClosing => ConnActionV::MarkClosing,
        ConnAction::Remove => ConnActionV::Remove,
    }
}

/// The next phase and action: an open connection handles messages and
/// delivers its queue until the client is gone; then it is marked closing
/// while `OnClose` runs, and removed once that is done. Anything else is
/// ignored.
pub open spec fn conn_step_spec(phase: ConnPhase, e: ConnEventV) -> (ConnPhase, ConnActionV) {
    match phase {
        ConnPhase::Open => match e {
            ConnEventV::Received(t) => (ConnPhase::Open, ConnActionV::HandleMessage(t)),
            ConnEventV::Outgoing => (ConnPhase::Open, ConnActionV::Deliver),
            ConnEventV::Gone => (ConnPhase::Closing, ConnActionV::MarkClosing),
            _ => (ConnPhase::Open, ConnActionV::Ignore),
        },
        ConnPhase::Closing => match e {
            ConnEventV::OnCloseDone => (ConnPhase::Closed, ConnActionV::Remove),
            _ => (ConnPhase::Closing, ConnActionV::Ignore),
        },
        ConnPhase::Closed => (ConnPhase::Closed, ConnActionV::Ignore),
    }
}

/// The actions taken for the events `es`, starting in `phase`.
pub open spec fn conn_run(phase: ConnPhase, es: Seq<ConnEventV>) -> Seq<ConnActionV>
    decreases es.len(),
{
    if es.len() == 0 {
        seq![]
    } else {
        let (next, a) = conn_step_spec(phase, es[0]);
        seq![a] + conn_run(next, es.drop_first())
    }
}

/// The step for `event` in `phase`.
pub fn conn_step(phase: ConnPhase, event: ConnEvent) -> (r: (ConnPhase, ConnAction))
    ensures
        (r.0, conn_action_v(r.1)) == conn_step_spec(phase, conn_event_v(event)),
{
    match phase {
        ConnPhase::Open => match event {
            ConnEvent::Received(t) => (ConnPhase::Open, ConnAction::HandleMessage(t)),
            ConnEvent::Outgoing => (ConnPhase::Open, ConnAction::Deliver),
            ConnEvent::Gone => (ConnPhase::Closing, ConnAction::MarkClosing),
            _ => (ConnPhase::Open, ConnAction::Ignore),
        },
        ConnPhase::Closing => match event {
            ConnEvent::OnCloseDone => (ConnPhase::Closed, ConnAction::Remove),
            _ => (ConnPhase::Closing, ConnAction::Ignore),
        },
        ConnPhase::Closed => (ConnPhase::Closed, ConnAction::Ignore),
    }
}

/// Once a connection is closing, no message is handled or delivered and it
/// is not marked closing again; once closed, nothing at all happens.
pub proof fn lemma_closing_handles_nothing(phase: ConnPhase, es: Seq<ConnEventV>)
    requires
        phase != ConnPhase::Open,
    ensures
        forall|i: int| 0 <= i < conn_run(phase, es).len() ==> {
            let a = #[trigger] conn_run(phase, es)[i];
            !(a is HandleMessage || a is Deliver || a is MarkClosing)
        },
        phase == ConnPhase::Closed ==> forall|i: int| 0 <= i < conn_run(phase, es).len() ==> (
        #[trigger] conn_run(phase, es)[i]) is Ignore,
        conn_run(phase, es).len() == es.len(),
    decreases es.len(),
{
    if es.len() > 0 {
        let (next, a) = conn_step_spec(phase, es[0]);
        lemma_closing_handles_nothing(next, es.drop_first());
        let r = conn_run(phase, es);
        assert forall|i: int| 0 < i < r.len() implies r[i] == conn_run(next, es.drop_first())[i - 1] by {}
    }
}

/// A client is removed at most once, and only after it was marked closing
/// (so its `OnClose` handler has run while it was still in the roster).
pub proof fn lemma_remove_after_closing(phase: ConnPhase, es: Seq<ConnEventV>)
    ensures
        forall|i: int| 0 <= i < conn_run(phase, es).len() && (#[trigger] conn_run(phase, es)[i]) is Remove
            ==> phase == ConnPhase::Closing || exists|j: int| 0 <= j < i && conn_run(phase, es)[j] is MarkClosing,
        forall|i: int, k: int| 0 <= i < k < conn_run(phase, es).len() && (#[trigger] conn_run(phase, es)[i]) is Remove
            ==> !((#[trigger] conn_run(phase, es)[k]) is Remove),
        conn_run(phase, es).len() == es.len(),
    decreases es.len(),
{
    if es.len() > 0 {
        let (next, a) = conn_step_spec(phase, es[0]);
        lemma_remove_after_closing(next, es.drop_first());
        if next != ConnPhase::Open {
            lemma_closing_handles_nothing(next, es.drop_first());
        }
        let r = conn_run(phase, es);
        let t = conn_run(next, es.drop_first());
        assert forall|i: int| 0 < i < r.len() implies r[i] == t[i - 1] by {}
        assert forall|i: int| 0 <= i < r.len() && (#[trigger] r[i]) is Remove implies phase
            == ConnPhase::Closing || exists|j: int| 0 <= j < i && r[j] is MarkClosing by {
            if i > 0 && phase != ConnPhase::Closing {
                assert(t[i - 1] is Remove);
                if next == ConnPhase::Closing {
                    assert(r[0] is MarkClosing);
                } else {
                    let j = choose|j: int| 0 <= j < i - 1 && t[j] is MarkClosing;
                    assert(r[j + 1] is MarkClosing);
                }
            }
        }
        assert forall|i: int, k: int| 0 <= i < k < r.len() && (#[trigger] r[i]) is Remove implies !((
        #[trigger] r[k]) is Remove) by {
            assert(r[k] == t[k - 1]);
            if i > 0 {
                assert(t[i - 1] is Remove);
            } else {
                assert(next == ConnPhase::Closed);
            }
        }
    }
}

/// What a socket section's completion value is, as far as the first
/// message goes: `null` (or nothing), a string, or another value in its
/// JSON text.
#[derive(Debug, Clone, PartialEq)]
pub enum SectionValue {
    Null,
    Text(String),
    Json(String),
}

/// The message a socket section's completion value sends to the connecting
/// client: a string as it is, another value as its JSON text, and nothing
/// for `null`.
pub fn first_message(v: SectionValue) -> (r: Option<String>)
    ensures
        match v {
            SectionValue::Null => r is None,
            SectionValue::Text(t) => r matches Some(m) && m@ == t@,
            SectionValue::Json(j) => r matches Some(m) && m@ == j@,
        },
{
    match v {
        SectionValue::Null => None,
        SectionValue::Text(t) => Some(t),
        SectionValue::Json(j) => Some(j),
    }
}

} // verus!
