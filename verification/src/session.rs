//! Per-connection session state: the handshake machine (`New` to `Greeted`
//! to `Ready` to `Disconnected`), per-packet protocol versions, and the
//! bookkeeping that disconnect-driven cleanup relies on. Socket reads and
//! writes stay outside; this module only decides.
use vstd::prelude::*;

use crate::errors::OperationFailResult;
use crate::subscribers::{SessionId, SubscriberId};

verus! {

/// String equality by contents.
///
/// Relies on `str`'s `PartialEq`: two string slices compare equal exactly
/// when their character sequences are equal.
#[verifier::external_body]
pub fn str_eq(a: &str, b: &str) -> (r: bool)
    ensures
        r == (a@ == b@),
{
    a == b
}

/// An owned copy of a string slice.
pub fn str_to_string(s: &str) -> (r: String)
    ensures
        r@ == s@,
{
    s.to_owned()
}

/// Whether the session has recorded itself as a publisher of the topic.
pub open spec fn publishes_topic(s: MyServiceBusSession, name: Seq<char>) -> bool {
    exists|k: int|
        0 <= k < s.publisher_topics@.len() && (#[trigger] s.publisher_topics@[k])@ == name
}

/// The handshake states of a connection.
#[derive(Clone, Copy, PartialEq, Eq, Structural, Debug)]
pub enum SessionStatus {
    New,
    Greeted,
    Ready,
    Disconnected,
}

/// The wire packet families.
#[derive(Clone, Copy, PartialEq, Eq, Structural, Debug)]
pub enum PacketKind {
    Ping,
    Pong,
    Greeting,
    Publish,
    PublishResponse,
    Subscribe,
    NewMessages,
    ConfirmDelivery,
    Reject,
    PacketVersionsInfo,
}

/// Which client packets a session accepts in each state: a fresh connection
/// must greet first; a greeted one may announce packet versions or start
/// working right away; a disconnected one accepts nothing.
pub open spec fn spec_session_accepts(status: SessionStatus, kind: PacketKind) -> bool {
    match status {
        SessionStatus::New => kind == PacketKind::Greeting,
        SessionStatus::Greeted => match kind {
            PacketKind::PacketVersionsInfo | PacketKind::Ping | PacketKind::Publish
                | PacketKind::Subscribe | PacketKind::ConfirmDelivery => true,
            _ => false,
        },
        SessionStatus::Ready => match kind {
            PacketKind::Ping | PacketKind::Publish | PacketKind::Subscribe
                | PacketKind::ConfirmDelivery => true,
            _ => false,
        },
        SessionStatus::Disconnected => false,
    }
}

pub fn session_accepts(status: SessionStatus, kind: PacketKind) -> (r: bool)
    ensures
        r == spec_session_accepts(status, kind),
{
    match status {
        SessionStatus::New => matches!(kind, PacketKind::Greeting),
        SessionStatus::Greeted => matches!(
            kind,
            PacketKind::PacketVersionsInfo | PacketKind::Ping | PacketKind::Publish
                | PacketKind::Subscribe | PacketKind::ConfirmDelivery
        ),
        SessionStatus::Ready => matches!(
            kind,
            PacketKind::Ping | PacketKind::Publish | PacketKind::Subscribe
                | PacketKind::ConfirmDelivery
        ),
        SessionStatus::Disconnected => false,
    }
}

/// The protocol version each packet family uses; families never announced
/// use version zero.
pub struct PacketVersions {
    pub entries: Vec<(u8, i32)>,
}

impl PacketVersions {
    pub open spec fn wf(self) -> bool {
        forall|i: int, j: int|
            0 <= i < j < self.entries@.len() ==> (#[trigger] self.entries@[i]).0 != (
            #[trigger] self.entries@[j]).0
    }

    pub open spec fn has_key(self, p: int) -> bool {
        exists|i: int| 0 <= i < self.entries@.len() && (#[trigger] self.entries@[i]).0 == p
    }

    pub open spec fn spec_get(self, p: int) -> int {
        if self.has_key(p) {
            self.entries@[choose|i: int|
                0 <= i < self.entries@.len() && (#[trigger] self.entries@[i]).0 == p].1 as int
        } else {
            0
        }
    }

    pub proof fn lemma_at(self, i: int)
        requires
            self.wf(),
            0 <= i < self.entries@.len(),
        ensures
            self.has_key(self.entries@[i].0 as int),
            self.spec_get(self.entries@[i].0 as int) == self.entries@[i].1 as int,
    {
        let p = self.entries@[i].0 as int;
        assert(self.has_key(p));
        let j = choose|j: int| 0 <= j < self.entries@.len() && (#[trigger] self.entries@[j]).0 == p;
        if i != j {
            assert(self.entries@[if i < j {
                i
            } else {
                j
            }].0 != self.entries@[if i < j {
                j
            } else {
                i
            }].0);
        }
    }

    pub fn new() -> (r: Self)
        ensures
            r.wf(),
            forall|p: int| r.spec_get(p) == 0,
    {
        PacketVersions { entries: Vec::new() }
    }

    pub fn get(&self, packet: u8) -> (r: i32)
        requires
            self.wf(),
        ensures
            r as int == self.spec_get(packet as int),
    {
        let mut i: usize = 0;
        while i < self.entries.len()
            invariant
                self.wf(),
                0 <= i <= self.entries@.len(),
                forall|k: int| 0 <= k < i ==> (#[trigger] self.entries@[k]).0 != packet,
            decreases self.entries@.len() - i,
        {
            if self.entries[i].0 == packet {
                proof {
                    self.lemma_at(i as int);
                }
                return self.entries[i].1;
            }
            i = i + 1;
        }
        0
    }

    fn find(&self, packet: u8) -> (r: Option<usize>)
        requires
            self.wf(),
        ensures
            match r {
                Option::Some(i) => i < self.entries@.len() && self.entries@[i as int].0 == packet,
                Option::None => !self.has_key(packet as int),
            },
    {
        let mut i: usize = 0;
        while i < self.entries.len()
            invariant
                self.wf(),
                0 <= i <= self.entries@.len(),
                forall|k: int| 0 <= k < i ==> (#[trigger] self.entries@[k]).0 != packet,
            decreases self.entries@.len() - i,
        {
            if self.entries[i].0 == packet {
                return Option::Some(i);
            }
            i = i + 1;
        }
        Option::None
    }

    pub fn set(&mut self, packet: u8, version: i32)
        requires
            old(self).wf(),
        ensures
            final(self).wf(),
            forall|p: int|
                final(self).spec_get(p) == (if p == packet {
                    version as int
                } else {
                    old(self).spec_get(p)
                }),
    {
        let ghost old_self = *old(self);
        match self.find(packet) {
            Option::Some(i) => {
                self.entries[i] = (packet, version);
                proof {
                    assert forall|p: int|
                        final(self).spec_get(p) == (if p == packet {
                            version as int
                        } else {
                            old_self.spec_get(p)
                        }) by {
                        if p == packet {
                            self.lemma_at(i as int);
                        } else {
                            if old_self.has_key(p) {
                                let k = choose|k: int|
                                    0 <= k < old_self.entries@.len() && (
                                    #[trigger] old_self.entries@[k]).0 == p;
                                assert(self.entries@[k].0 == p);
                                self.lemma_at(k);
                                old_self.lemma_at(k);
                            }
                            if self.has_key(p) {
                                let k = choose|k: int|
                                    0 <= k < self.entries@.len() && (
                                    #[trigger] self.entries@[k]).0 == p;
                                assert(old_self.entries@[k].0 == p);
                                self.lemma_at(k);
                                old_self.lemma_at(k);
                            }
                        }
                    }
                }
            },
            Option::None => {
                self.entries.push((packet, version));
                proof {
                    let n = self.entries@.len() - 1;
                    assert forall|p: int|
                        final(self).spec_get(p) == (if p == packet {
                            version as int
                        } else {
                            old_self.spec_get(p)
                        }) by {
                        if p == packet {
                            self.lemma_at(n);
                        } else {
                            if old_self.has_key(p) {
                                let k = choose|k: int|
                                    0 <= k < old_self.entries@.len() && (
                                    #[trigger] old_self.entries@[k]).0 == p;
                                assert(self.entries@[k].0 == p);
                                self.lemma_at(k);
                                old_self.lemma_at(k);
                            }
                            if self.has_key(p) {
                                let k = choose|k: int|
                                    0 <= k < self.entries@.len() && (
                                    #[trigger] self.entries@[k]).0 == p;
                                assert(k < n);
                                assert(old_self.entries@[k].0 == p);
                                self.lemma_at(k);
                                old_self.lemma_at(k);
                            }
                        }
                    }
                }
            },
        }
    }

    /// Applies an announced map of packet versions; keys in the
    /// announcement must be distinct, as the wire map's are.
    pub fn update(&mut self, pairs: &Vec<(u8, i32)>)
        requires
            old(self).wf(),
            forall|i: int, j: int|
                0 <= i < j < pairs@.len() ==> (#[trigger] pairs@[i]).0 != (#[trigger] pairs@[j]).0,
        ensures
            final(self).wf(),
            forall|i: int|
                0 <= i < pairs@.len() ==> final(self).spec_get((#[trigger] pairs@[i]).0 as int)
                    == pairs@[i].1 as int,
            forall|p: int|
                (forall|i: int| 0 <= i < pairs@.len() ==> (#[trigger] pairs@[i]).0 != p) ==> final(self).spec_get(p) == old(self).spec_get(p),
    {
        let mut k: usize = 0;
        let ghost old_self = *old(self);
        while k < pairs.len()
            invariant
                self.wf(),
                0 <= k <= pairs@.len(),
                forall|i: int, j: int|
                    0 <= i < j < pairs@.len() ==> (#[trigger] pairs@[i]).0 != (
                    #[trigger] pairs@[j]).0,
                forall|i: int|
                    0 <= i < k ==> self.spec_get((#[trigger] pairs@[i]).0 as int)
                        == pairs@[i].1 as int,
                forall|p: int|
                    (forall|i: int| 0 <= i < pairs@.len() ==> (#[trigger] pairs@[i]).0 != p)
                        ==> self.spec_get(p) == old_self.spec_get(p),
            decreases pairs@.len() - k,
        {
            let (p, v) = pairs[k];
            self.set(p, v);
            proof {
                assert forall|i: int|
                    0 <= i < k + 1 implies self.spec_get((#[trigger] pairs@[i]).0 as int)
                    == pairs@[i].1 as int by {
                    if i < k {
                        assert(pairs@[i].0 != pairs@[k as int].0);
                    }
                }
            }
            k = k + 1;
        }
    }
}

/// One client connection's state, apart from its socket.
pub struct MyServiceBusSession {
    pub id: SessionId,
    pub ip: String,
    pub status: SessionStatus,
    pub name: Option<String>,
    pub client_version: Option<String>,
    pub protocol_version: i32,
    pub versions: PacketVersions,
    pub subscribers: Vec<SubscriberId>,
    pub publisher_topics: Vec<String>,
    pub delivered_events: u64,
    pub not_delivered_events: u64,
    pub connected_at: i64,
    pub last_incoming_at: i64,
    pub read_size: u64,
    pub read_size_at_last_tick: u64,
    pub read_per_second: u64,
    pub logged_send_error_on_disconnected: u32,
}

impl MyServiceBusSession {
    pub open spec fn wf(self) -> bool {
        &&& self.versions.wf()
        &&& self.read_size_at_last_tick <= self.read_size
    }

    pub open spec fn is_disconnected(self) -> bool {
        self.status == SessionStatus::Disconnected
    }

    pub fn new(id: SessionId, ip: String, now: i64) -> (r: MyServiceBusSession)
        ensures
            r.wf(),
            r.id == id,
            r.ip == ip,
            r.status == SessionStatus::New,
            r.connected_at == now,
            r.last_incoming_at == now,
            r.subscribers@.len() == 0,
            forall|p: int| r.versions.spec_get(p) == 0,
    {
        MyServiceBusSession {
            id,
            ip,
            status: SessionStatus::New,
            name: Option::None,
            client_version: Option::None,
            protocol_version: 0,
            versions: PacketVersions::new(),
            subscribers: Vec::new(),
            publisher_topics: Vec::new(),
            delivered_events: 0,
            not_delivered_events: 0,
            connected_at: now,
            last_incoming_at: now,
            read_size: 0,
            read_size_at_last_tick: 0,
            read_per_second: 0,
            logged_send_error_on_disconnected: 0,
        }
    }

    /// Accounts bytes read from the socket, holding at the top of the range.
    pub fn increase_read_size(&mut self, read_size: usize)
        requires
            old(self).wf(),
        ensures
            final(self).wf(),
            final(self).read_size == (if old(self).read_size + read_size <= u64::MAX {
                old(self).read_size + read_size
            } else {
                u64::MAX as int
            }),
            final(self).status == old(self).status,
    {
        if self.read_size <= u64::MAX - (read_size as u64) {
            self.read_size = self.read_size + (read_size as u64);
        } else {
            self.read_size = u64::MAX;
        }
    }

    /// The greeting: only a fresh connection may send one. Records the
    /// client's name and protocol version and moves to `Greeted`.
    pub fn set_socket_name(
        &mut self,
        socket_name: String,
        client_version: Option<String>,
        protocol_version: i32,
    ) -> (r: Result<(), OperationFailResult>)
        requires
            old(self).wf(),
        ensures
            final(self).wf(),
            match r {
                Result::Ok(_) => {
                    &&& old(self).status == SessionStatus::New
                    &&& final(self).status == SessionStatus::Greeted
                    &&& final(self).name == Option::Some(socket_name)
                    &&& final(self).client_version == client_version
                    &&& final(self).protocol_version == protocol_version
                },
                Result::Err(_) => old(self).status != SessionStatus::New && *final(self) == *old(self),
            },
    {
        if matches!(self.status, SessionStatus::New) {
            self.status = SessionStatus::Greeted;
            self.name = Option::Some(socket_name);
            self.client_version = client_version;
            self.protocol_version = protocol_version;
            Result::Ok(())
        } else {
            Result::Err(OperationFailResult::ProtocolError)
        }
    }

    pub fn set_protocol_version(&mut self, protocol_version: i32)
        requires
            old(self).wf(),
        ensures
            final(self).wf(),
            *final(self) == (MyServiceBusSession { protocol_version, ..*old(self) }),
    {
        self.protocol_version = protocol_version;
    }

    /// The optional packet-version announcement: accepted once greeted,
    /// moves the session to `Ready`.
    pub fn update_packet_versions(&mut self, pairs: &Vec<(u8, i32)>) -> (r: Result<
        (),
        OperationFailResult,
    >)
        requires
            old(self).wf(),
            forall|i: int, j: int|
                0 <= i < j < pairs@.len() ==> (#[trigger] pairs@[i]).0 != (#[trigger] pairs@[j]).0,
        ensures
            final(self).wf(),
            match r {
                Result::Ok(_) => {
                    &&& old(self).status == SessionStatus::Greeted
                    &&& final(self).status == SessionStatus::Ready
                    &&& forall|i: int|
                        0 <= i < pairs@.len() ==> final(self).versions.spec_get(
                            (#[trigger] pairs@[i]).0 as int,
                        ) == pairs@[i].1 as int
                },
                Result::Err(_) => old(self).status != SessionStatus::Greeted && *final(self)
                    == *old(self),
            },
    {
        if matches!(self.status, SessionStatus::Greeted) {
            self.versions.update(pairs);
            self.status = SessionStatus::Ready;
            Result::Ok(())
        } else {
            Result::Err(OperationFailResult::ProtocolError)
        }
    }

    /// Rolls the per-second read statistic over.
    pub fn one_second_tick(&mut self)
        requires
            old(self).wf(),
        ensures
            final(self).wf(),
            final(self).read_per_second == old(self).read_size - old(self).read_size_at_last_tick,
            final(self).read_size_at_last_tick == final(self).read_size,
            final(self).status == old(self).status,
    {
        self.read_per_second = self.read_size - self.read_size_at_last_tick;
        self.read_size_at_last_tick = self.read_size;
    }

    /// The display name of the connection: the announced name, or its
    /// address until one arrives.
    pub fn get_name(&self) -> (r: String)
        ensures
            r@ == match self.name {
                Option::Some(n) => n@,
                Option::None => self.ip@,
            },
    {
        match &self.name {
            Option::Some(n) => crate::queue::clone_string(n),
            Option::None => crate::queue::clone_string(&self.ip),
        }
    }

    /// Remembers that this session publishes to the topic. Recording the
    /// same topic again changes nothing.
    pub fn add_publisher(&mut self, topic: &str)
        requires
            old(self).wf(),
        ensures
            final(self).wf(),
            publishes_topic(*final(self), topic@),
            publishes_topic(*old(self), topic@) ==> *final(self) == *old(self),
            !publishes_topic(*old(self), topic@) ==> final(self).publisher_topics@
                =~= old(self).publisher_topics@.push(final(self).publisher_topics@.last()),
            final(self).status == old(self).status,
    {
        let mut i: usize = 0;
        while i < self.publisher_topics.len()
            invariant
                *self == *old(self),
                old(self).wf(),
                0 <= i <= self.publisher_topics@.len(),
                forall|k: int|
                    0 <= k < i ==> (#[trigger] self.publisher_topics@[k])@ != topic@,
            decreases self.publisher_topics@.len() - i,
        {
            if str_eq(self.publisher_topics[i].as_str(), topic) {
                proof {
                    assert(self.publisher_topics@[i as int]@ == topic@);
                }
                return ;
            }
            i = i + 1;
        }
        proof {
            if publishes_topic(*old(self), topic@) {
                let k = choose|k: int|
                    0 <= k < old(self).publisher_topics@.len() && (#[trigger] old(
                        self,
                    ).publisher_topics@[k])@ == topic@;
            }
        }
        self.publisher_topics.push(str_to_string(topic));
        proof {
            assert(self.publisher_topics@[self.publisher_topics@.len() - 1]@ == topic@);
        }
    }

    /// Counts a confirmed delivery. Positive and negative outcomes are kept
    /// apart so that failing deliveries stay visible in the statistics.
    pub fn set_delivered_statistic(&mut self, delivered: usize)
        requires
            old(self).wf(),
        ensures
            final(self).wf(),
            final(self).delivered_events == (if old(self).delivered_events + delivered
                <= u64::MAX {
                old(self).delivered_events + delivered
            } else {
                u64::MAX as int
            }),
            final(self).not_delivered_events == old(self).not_delivered_events,
    {
        if self.delivered_events <= u64::MAX - (delivered as u64) {
            self.delivered_events = self.delivered_events + (delivered as u64);
        } else {
            self.delivered_events = u64::MAX;
        }
    }

    /// Counts a failed or returned delivery.
    pub fn set_not_delivered_statistic(&mut self, not_delivered: usize)
        requires
            old(self).wf(),
        ensures
            final(self).wf(),
            final(self).not_delivered_events == (if old(self).not_delivered_events + not_delivered
                <= u64::MAX {
                old(self).not_delivered_events + not_delivered
            } else {
                u64::MAX as int
            }),
            final(self).delivered_events == old(self).delivered_events,
    {
        if self.not_delivered_events <= u64::MAX - (not_delivered as u64) {
            self.not_delivered_events = self.not_delivered_events + (not_delivered as u64);
        } else {
            self.not_delivered_events = u64::MAX;
        }
    }

    /// Registers a subscriber created on this session, unless the session
    /// is already gone.
    pub fn add_subscriber(&mut self, subscriber_id: SubscriberId) -> (r: Result<
        (),
        OperationFailResult,
    >)
        requires
            old(self).wf(),
        ensures
            final(self).wf(),
            match r {
                Result::Ok(_) => !old(self).is_disconnected() && final(self).subscribers@ =~= old(self).subscribers@.push(subscriber_id),
                Result::Err(_) => old(self).is_disconnected() && *final(self) == *old(self),
            },
    {
        if matches!(self.status, SessionStatus::Disconnected) {
            Result::Err(OperationFailResult::SessionIsDisconnected)
        } else {
            self.subscribers.push(subscriber_id);
            Result::Ok(())
        }
    }

    pub fn remove_subscriber(&mut self, subscriber_id: SubscriberId)
        requires
            old(self).wf(),
        ensures
            final(self).wf(),
            forall|k: int|
                0 <= k < final(self).subscribers@.len() ==> old(self).subscribers@.contains(
                    #[trigger] final(self).subscribers@[k],
                ),
            !final(self).subscribers@.contains(subscriber_id),
            final(self).status == old(self).status,
    {
        let mut i: usize = 0;
        while i < self.subscribers.len()
            invariant
                self.wf(),
                0 <= i <= self.subscribers@.len(),
                self.status == old(self).status,
                self.versions == old(self).versions,
                self.read_size == old(self).read_size,
                self.read_size_at_last_tick == old(self).read_size_at_last_tick,
                forall|k: int|
                    0 <= k < self.subscribers@.len() ==> old(self).subscribers@.contains(
                        #[trigger] self.subscribers@[k],
                    ),
                forall|k: int| 0 <= k < i ==> (#[trigger] self.subscribers@[k]) != subscriber_id,
            decreases self.subscribers@.len() - i,
        {
            let ghost pre = self.subscribers@;
            if self.subscribers[i] == subscriber_id {
                self.subscribers.remove(i);
                proof {
                    assert forall|k: int|
                        0 <= k < self.subscribers@.len() implies old(self).subscribers@.contains(
                            #[trigger] self.subscribers@[k],
                        ) by {
                        if k < i {
                            assert(self.subscribers@[k] == pre[k]);
                        } else {
                            assert(self.subscribers@[k] == pre[k + 1]);
                        }
                    }
                }
            } else {
                i = i + 1;
            }
        }
        proof {
            assert forall|k: int| 0 <= k < self.subscribers@.len() implies (
            #[trigger] self.subscribers@[k]) != subscriber_id by {}
            if self.subscribers@.contains(subscriber_id) {
                let k = choose|k: int|
                    0 <= k < self.subscribers@.len() && self.subscribers@[k] == subscriber_id;
            }
        }
    }

    /// Tears the session down, handing back the subscribers whose queues
    /// must return their in-flight buckets to `ready`.
    pub fn disconnect(&mut self) -> (r: Option<Vec<SubscriberId>>)
        requires
            old(self).wf(),
        ensures
            final(self).wf(),
            final(self).is_disconnected(),
            match r {
                Option::Some(subs) => !old(self).is_disconnected() && subs@ =~= old(self).subscribers@,
                Option::None => old(self).is_disconnected() && *final(self) == *old(self),
            },
    {
        if matches!(self.status, SessionStatus::Disconnected) {
            return Option::None;
        }
        self.status = SessionStatus::Disconnected;
        let mut out: Vec<SubscriberId> = Vec::new();
        let mut i: usize = 0;
        while i < self.subscribers.len()
            invariant
                0 <= i <= self.subscribers@.len(),
                out@ =~= self.subscribers@.take(i as int),
            decreases self.subscribers@.len() - i,
        {
            out.push(self.subscribers[i]);
            i = i + 1;
        }
        proof {
            assert(self.subscribers@.take(self.subscribers@.len() as int) =~= self.subscribers@);
        }
        Option::Some(out)
    }
}

} // verus!
