//! The per-group connection registry: a mapping from `(peer_id, conn_id)` to
//! the mailbox held for that connection, with lazy creation, enumeration,
//! any-live-connection selection for discovery, idempotent removal, idle
//! eviction, and eviction of the least-recently-used connection when the peer
//! cap would be exceeded.

use vstd::prelude::*;

use crate::mailbox::Mailbox;
use crate::mailbox::MailboxV;
use crate::mailbox::push_drop_oldest;
use crate::mailbox::spec_is_idle;
use crate::proto::Message;
use crate::proto::MessageV;
use crate::proto::has_header;
use crate::registry::entry_map;
use crate::registry::keys_distinct;
use crate::registry::lemma_entry_map_contains;
use crate::registry::lemma_entry_map_len;
use crate::registry::lemma_entry_map_push;
use crate::registry::lemma_entry_map_remove;
use crate::registry::lemma_entry_map_value;
use crate::registry::lemma_keys_distinct_push;
use crate::registry::lemma_keys_distinct_remove;

verus! {

/// One connection of one peer within a group.
#[derive(Clone, Debug, PartialEq, Eq, Hash)]
pub struct PeerConn {
    pub peer_id: String,
    pub conn_id: u32,
}

impl View for PeerConn {
    type V = (Seq<char>, u32);

    open spec fn view(&self) -> (Seq<char>, u32) {
        (self.peer_id@, self.conn_id)
    }
}

/// The state of a mailbox nobody has used yet.
pub open spec fn fresh_mailbox(now: u64) -> MailboxV {
    MailboxV { msgs: Seq::empty(), wake: false, touched: now }
}

struct GroupEntry {
    peer_id: String,
    conn_id: u32,
    mailbox: Mailbox,
}

spec fn entry_key_vals(s: Seq<GroupEntry>) -> Seq<((Seq<char>, u32), MailboxV)> {
    s.map_values(|e: GroupEntry| ((e.peer_id@, e.conn_id), e.mailbox@))
}

/// A group: the set of peers sharing one namespace, each peer holding one
/// mailbox per connection. Viewed as a finite map from `(peer_id, conn_id)`
/// to the mailbox state. Entries are kept in least-recently-used order, and
/// no entry ever carries the reserved discovery connection id.
pub struct Group {
    entries: Vec<GroupEntry>,
    mailbox_capacity: usize,
    max_peers: usize,
}

impl View for Group {
    type V = Map<(Seq<char>, u32), MailboxV>;

    closed spec fn view(&self) -> Map<(Seq<char>, u32), MailboxV> {
        entry_map(self.entries_seq())
    }
}

impl Group {
    spec fn entries_seq(&self) -> Seq<((Seq<char>, u32), MailboxV)> {
        entry_key_vals(self.entries@)
    }

    /// The capacity every mailbox of this group is created with.
    pub closed spec fn spec_mailbox_capacity(&self) -> nat {
        self.mailbox_capacity as nat
    }

    /// At most this many connections are held at once.
    pub closed spec fn spec_max_peers(&self) -> nat {
        self.max_peers as nat
    }

    /// Distinct keys, both caps at least one, the peer cap respected, every
    /// mailbox well formed at the shared capacity, and no entry under the
    /// reserved discovery connection id.
    pub closed spec fn wf(&self) -> bool {
        &&& keys_distinct(self.entries_seq())
        &&& self.mailbox_capacity >= 1
        &&& self.max_peers >= 1
        &&& self.entries@.len() <= self.max_peers
        &&& forall|i: int|
            0 <= i < self.entries@.len() ==> (#[trigger] self.entries@[i]).mailbox.wf()
        &&& forall|i: int|
            0 <= i < self.entries@.len() ==> (#[trigger] self.entries@[i]).mailbox.spec_capacity()
                == self.spec_mailbox_capacity()
        &&& forall|i: int| 0 <= i < self.entries@.len() ==> (#[trigger] self.entries@[i]).conn_id != 0
    }

    /// The registry holds no connection under the reserved discovery id.
    pub proof fn lemma_no_discovery_key(&self, k: (Seq<char>, u32))
        requires
            self.wf(),
            self@.contains_key(k),
        ensures
            k.1 != 0,
    {
        lemma_entry_map_contains(self.entries_seq(), k);
    }

    /// An empty group. Caps below one are raised to one.
    pub fn new(mailbox_capacity: usize, max_peers: usize) -> (r: Group)
        ensures
            r.wf(),
            r@ == Map::<(Seq<char>, u32), MailboxV>::empty(),
            mailbox_capacity >= 1 ==> r.spec_mailbox_capacity() == mailbox_capacity,
            max_peers >= 1 ==> r.spec_max_peers() == max_peers,
    {
        let cap: usize = if mailbox_capacity >= 1 {
            mailbox_capacity
        } else {
            1
        };
        let mp: usize = if max_peers >= 1 {
            max_peers
        } else {
            1
        };
        Group { entries: Vec::new(), mailbox_capacity: cap, max_peers: mp }
    }

    fn find(&self, peer_id: &String, conn_id: u32) -> (r: Option<usize>)
        ensures
            match r {
                Some(j) => j < self.entries@.len() && self.entries_seq()[j as int].0 == (
                    peer_id@,
                    conn_id,
                ),
                None => forall|i: int|
                    0 <= i < self.entries@.len() ==> (#[trigger] self.entries_seq()[i]).0 != (
                        peer_id@,
                        conn_id,
                    ),
            },
    {
        let n = self.entries.len();
        let mut i: usize = 0;
        while i < n
            invariant
                n == self.entries@.len(),
                i <= n,
                forall|m: int|
                    0 <= m < i ==> (#[trigger] self.entries_seq()[m]).0 != (peer_id@, conn_id),
            decreases n - i,
        {
            if self.entries[i].conn_id == conn_id && self.entries[i].peer_id == *peer_id {
                assert(self.entries_seq()[i as int].0 == (peer_id@, conn_id));
                return Some(i);
            }
            i = i + 1;
        }
        None
    }

    /// Detach the entry for the key, creating a fresh one when absent; when
    /// the group is full, the least-recently-used entry makes room first.
    fn access(&mut self, peer_id: &String, conn_id: u32, now: u64) -> (e: GroupEntry)
        requires
            old(self).wf(),
            conn_id != 0,
        ensures
            final(self).wf(),
            final(self).spec_mailbox_capacity() == old(self).spec_mailbox_capacity(),
            final(self).spec_max_peers() == old(self).spec_max_peers(),
            final(self).entries@.len() < old(self).spec_max_peers(),
            !final(self)@.contains_key((peer_id@, conn_id)),
            e.peer_id@ == peer_id@,
            e.conn_id == conn_id,
            e.mailbox.wf(),
            e.mailbox.spec_capacity() == old(self).spec_mailbox_capacity(),
            old(self)@.contains_key((peer_id@, conn_id)) ==> final(self)@ == old(self)@.remove(
                (peer_id@, conn_id),
            ) && e.mailbox@ == old(self)@[(peer_id@, conn_id)],
            !old(self)@.contains_key((peer_id@, conn_id)) ==> e.mailbox@ == fresh_mailbox(now) && (
            if old(self)@.dom().len() < old(self).spec_max_peers() {
                final(self)@ == old(self)@
            } else {
                exists|ev: (Seq<char>, u32)|
                    old(self)@.contains_key(ev) && ev != (peer_id@, conn_id) && final(self)@
                        == old(self)@.remove(ev)
            }),
    {
        proof {
            lemma_entry_map_len(self.entries_seq());
        }
        let ghost k: (Seq<char>, u32) = (peer_id@, conn_id);
        match self.find(peer_id, conn_id) {
            Some(j) => {
                proof {
                    lemma_entry_map_contains(self.entries_seq(), k);
                    lemma_entry_map_value(self.entries_seq(), j as int);
                    lemma_entry_map_remove(self.entries_seq(), j as int);
                    lemma_keys_distinct_remove(self.entries_seq(), j as int);
                }
                let e = self.entries.remove(j);
                proof {
                    assert(self.entries_seq() =~= old(self).entries_seq().remove(j as int));
                    lemma_entry_map_contains(self.entries_seq(), k);
                    assert forall|i: int|
                        0 <= i < self.entries@.len() implies (#[trigger] self.entries@[i]).mailbox.wf()
                        && self.entries@[i].mailbox.spec_capacity() == self.spec_mailbox_capacity()
                        && self.entries@[i].conn_id != 0 by {
                        let i0 = if i < j {
                            i
                        } else {
                            i + 1
                        };
                        assert(self.entries@[i] == old(self).entries@[i0]);
                    }
                }
                e
            },
            None => {
                proof {
                    lemma_entry_map_contains(self.entries_seq(), k);
                }
                if self.entries.len() == self.max_peers {
                    proof {
                        lemma_entry_map_value(self.entries_seq(), 0);
                        lemma_entry_map_remove(self.entries_seq(), 0);
                        lemma_keys_distinct_remove(self.entries_seq(), 0);
                    }
                    let ghost ev = self.entries_seq()[0].0;
                    self.entries.remove(0);
                    proof {
                        assert(self.entries_seq() =~= old(self).entries_seq().remove(0));
                        lemma_entry_map_contains(self.entries_seq(), k);
                        assert forall|i: int|
                            0 <= i < self.entries@.len() implies (#[trigger] self.entries@[i]).mailbox.wf()
                            && self.entries@[i].mailbox.spec_capacity()
                                == self.spec_mailbox_capacity() && self.entries@[i].conn_id
                            != 0 by {
                            assert(self.entries@[i] == old(self).entries@[i + 1]);
                        }
                    }
                }
                let mb = Mailbox::new(self.mailbox_capacity, now);
                proof {
                    assert(mb@ =~= fresh_mailbox(now));
                }
                GroupEntry { peer_id: peer_id.clone(), conn_id, mailbox: mb }
            },
        }
    }

    /// Re-attach a detached entry at the most-recently-used position.
    fn install(&mut self, e: GroupEntry)
        requires
            old(self).wf(),
            old(self).entries@.len() < old(self).spec_max_peers(),
            !old(self)@.contains_key((e.peer_id@, e.conn_id)),
            e.mailbox.wf(),
            e.mailbox.spec_capacity() == old(self).spec_mailbox_capacity(),
            e.conn_id != 0,
        ensures
            final(self).wf(),
            final(self).spec_mailbox_capacity() == old(self).spec_mailbox_capacity(),
            final(self).spec_max_peers() == old(self).spec_max_peers(),
            final(self)@ == old(self)@.insert((e.peer_id@, e.conn_id), e.mailbox@),
    {
        let ghost kv = ((e.peer_id@, e.conn_id), e.mailbox@);
        let ghost before = self.entries_seq();
        proof {
            lemma_entry_map_contains(before, kv.0);
            lemma_entry_map_push(before, kv.0, kv.1);
            assert forall|i: int| 0 <= i < before.len() implies (#[trigger] before[i]).0 != kv.0 by {
            }
            lemma_keys_distinct_push(before, kv.0, kv.1);
        }
        self.entries.push(e);
        proof {
            assert(self.entries_seq() =~= before.push(kv));
            assert forall|i: int|
                0 <= i < self.entries@.len() implies (#[trigger] self.entries@[i]).mailbox.wf()
                && self.entries@[i].mailbox.spec_capacity() == self.spec_mailbox_capacity()
                && self.entries@[i].conn_id != 0 by {
                if i < self.entries@.len() - 1 {
                    assert(self.entries@[i] == old(self).entries@[i]);
                }
            }
        }
    }

    /// Look up or lazily create the mailbox for a connection, refreshing its
    /// idle timer; when a new connection had to make room, one existing entry
    /// was evicted first.
    pub fn get(&mut self, conn: &PeerConn, now: u64)
        requires
            old(self).wf(),
            conn.conn_id != 0,
        ensures
            final(self).wf(),
            final(self).spec_mailbox_capacity() == old(self).spec_mailbox_capacity(),
            final(self).spec_max_peers() == old(self).spec_max_peers(),
            final(self)@.contains_key(conn@),
            old(self)@.contains_key(conn@) ==> final(self)@ == old(self)@.insert(
                conn@,
                MailboxV { touched: now, ..old(self)@[conn@] },
            ),
            !old(self)@.contains_key(conn@) && old(self)@.dom().len() < old(self).spec_max_peers()
                ==> final(self)@ == old(self)@.insert(conn@, fresh_mailbox(now)),
            !old(self)@.contains_key(conn@) && old(self)@.dom().len() >= old(self).spec_max_peers()
                ==> exists|ev: (Seq<char>, u32)|
                old(self)@.contains_key(ev) && ev != conn@ && final(self)@ == old(self)@.remove(
                    ev,
                ).insert(conn@, fresh_mailbox(now)),
    {
        let mut e = self.access(&conn.peer_id, conn.conn_id, now);
        let ghost mid = self@;
        e.mailbox.touch(now);
        self.install(e);
        proof {
            if old(self)@.contains_key(conn@) {
                assert(self@ =~= old(self)@.insert(
                    conn@,
                    MailboxV { touched: now, ..old(self)@[conn@] },
                ));
            } else {
                assert(e.mailbox@ =~= fresh_mailbox(now));
            }
        }
    }

    /// Enqueue a client message for a connection, creating the mailbox when
    /// absent; the queue gains the message at the back, dropping its oldest
    /// entry when full. The result says whether a suspended consumer must be
    /// woken: sends between two drains coalesce into one wake.
    pub fn send_to(&mut self, conn: &PeerConn, msg: Message, now: u64) -> (fire: bool)
        requires
            old(self).wf(),
            conn.conn_id != 0,
            has_header(msg@),
        ensures
            final(self).wf(),
            final(self).spec_mailbox_capacity() == old(self).spec_mailbox_capacity(),
            final(self).spec_max_peers() == old(self).spec_max_peers(),
            final(self)@.contains_key(conn@),
            final(self)@[conn@].msgs == push_drop_oldest(
                if old(self)@.contains_key(conn@) {
                    old(self)@[conn@].msgs
                } else {
                    Seq::<MessageV>::empty()
                },
                msg@,
                old(self).spec_mailbox_capacity(),
            ),
            final(self)@[conn@].wake && final(self)@[conn@].touched == now,
            fire == !(old(self)@.contains_key(conn@) && old(self)@[conn@].wake),
            old(self)@.contains_key(conn@) ==> final(self)@ == old(self)@.insert(
                conn@,
                final(self)@[conn@],
            ),
            !old(self)@.contains_key(conn@) && old(self)@.dom().len() < old(self).spec_max_peers()
                ==> final(self)@ == old(self)@.insert(conn@, final(self)@[conn@]),
            !old(self)@.contains_key(conn@) && old(self)@.dom().len() >= old(self).spec_max_peers()
                ==> exists|ev: (Seq<char>, u32)|
                old(self)@.contains_key(ev) && ev != conn@ && final(self)@ == old(self)@.remove(
                    ev,
                ).insert(conn@, final(self)@[conn@]),
    {
        let mut e = self.access(&conn.peer_id, conn.conn_id, now);
        let fire = e.mailbox.send(msg, now);
        self.install(e);
        proof {
            if old(self)@.contains_key(conn@) {
                assert(self@ =~= old(self)@.insert(conn@, self@[conn@]));
            }
        }
        fire
    }

    /// Remove and return everything pending for a connection, oldest first,
    /// creating the mailbox when absent. Every drained message carries a
    /// header: keep-alives never come out of a mailbox.
    pub fn drain(&mut self, conn: &PeerConn, now: u64) -> (r: Vec<Message>)
        requires
            old(self).wf(),
            conn.conn_id != 0,
        ensures
            final(self).wf(),
            final(self).spec_mailbox_capacity() == old(self).spec_mailbox_capacity(),
            final(self).spec_max_peers() == old(self).spec_max_peers(),
            final(self)@.contains_key(conn@),
            r@.map_values(|m: Message| m@) == if old(self)@.contains_key(conn@) {
                old(self)@[conn@].msgs
            } else {
                Seq::<MessageV>::empty()
            },
            forall|i: int| 0 <= i < r@.len() ==> has_header(#[trigger] r@[i]@),
            final(self)@[conn@] == fresh_mailbox(now),
            old(self)@.contains_key(conn@) ==> final(self)@ == old(self)@.insert(
                conn@,
                fresh_mailbox(now),
            ),
            !old(self)@.contains_key(conn@) && old(self)@.dom().len() < old(self).spec_max_peers()
                ==> final(self)@ == old(self)@.insert(conn@, fresh_mailbox(now)),
            !old(self)@.contains_key(conn@) && old(self)@.dom().len() >= old(self).spec_max_peers()
                ==> exists|ev: (Seq<char>, u32)|
                old(self)@.contains_key(ev) && ev != conn@ && final(self)@ == old(self)@.remove(
                    ev,
                ).insert(conn@, fresh_mailbox(now)),
    {
        let mut e = self.access(&conn.peer_id, conn.conn_id, now);
        let r = e.mailbox.drain(now);
        proof {
            assert(e.mailbox@ =~= fresh_mailbox(now));
            assert forall|i: int| 0 <= i < r@.len() implies has_header(#[trigger] r@[i]@) by {
                assert(r@.map_values(|m: Message| m@)[i] == r@[i]@);
            }
        }
        self.install(e);
        proof {
            if old(self)@.contains_key(conn@) {
                assert(self@ =~= old(self)@.insert(conn@, fresh_mailbox(now)));
            }
        }
        r
    }

    /// Pick any currently registered connection of the peer; absent exactly
    /// when the peer has none. No stability is promised across calls.
    pub fn select_one(&self, peer_id: &String) -> (r: Option<u32>)
        requires
            self.wf(),
        ensures
            match r {
                Some(c) => self@.contains_key((peer_id@, c)) && c != 0,
                None => forall|k: (Seq<char>, u32)|
                    #[trigger] self@.contains_key(k) ==> k.0 != peer_id@,
            },
    {
        let n = self.entries.len();
        let mut i: usize = 0;
        while i < n
            invariant
                self.wf(),
                n == self.entries@.len(),
                i <= n,
                forall|m: int| 0 <= m < i ==> (#[trigger] self.entries_seq()[m]).0.0 != peer_id@,
            decreases n - i,
        {
            if self.entries[i].peer_id == *peer_id {
                let c = self.entries[i].conn_id;
                proof {
                    lemma_entry_map_value(self.entries_seq(), i as int);
                }
                return Some(c);
            }
            i = i + 1;
        }
        proof {
            assert forall|k: (Seq<char>, u32)| #[trigger]
                self@.contains_key(k) implies k.0 != peer_id@ by {
                lemma_entry_map_contains(self.entries_seq(), k);
            }
        }
        None
    }

    /// Enumerate all live `(peer_id, conn_id)` pairs: exactly the keys of the
    /// registry, each once, in no promised order.
    pub fn collect(&self) -> (r: Vec<PeerConn>)
        requires
            self.wf(),
        ensures
            r@.len() == self@.dom().len(),
            forall|i: int| 0 <= i < r@.len() ==> self@.contains_key(#[trigger] r@[i]@),
            forall|k: (Seq<char>, u32)| #[trigger]
                self@.contains_key(k) ==> exists|i: int| 0 <= i < r@.len() && #[trigger] r@[i]@
                    == k,
            forall|i: int, j: int| 0 <= i < j < r@.len() ==> r@[i]@ != r@[j]@,
    {
        proof {
            lemma_entry_map_len(self.entries_seq());
        }
        let n = self.entries.len();
        let mut out: Vec<PeerConn> = Vec::new();
        let mut i: usize = 0;
        while i < n
            invariant
                self.wf(),
                n == self.entries@.len(),
                i <= n,
                out@.len() == i,
                forall|m: int| 0 <= m < i ==> (#[trigger] out@[m]@) == self.entries_seq()[m].0,
            decreases n - i,
        {
            out.push(
                PeerConn {
                    peer_id: self.entries[i].peer_id.clone(),
                    conn_id: self.entries[i].conn_id,
                },
            );
            i = i + 1;
        }
        proof {
            assert forall|i: int| 0 <= i < out@.len() implies self@.contains_key(
                #[trigger] out@[i]@,
            ) by {
                lemma_entry_map_value(self.entries_seq(), i);
            }
            assert forall|k: (Seq<char>, u32)| #[trigger] self@.contains_key(k) implies exists|
                i: int,
            | 0 <= i < out@.len() && #[trigger] out@[i]@ == k by {
                lemma_entry_map_contains(self.entries_seq(), k);
                let i = choose|i: int|
                    0 <= i < self.entries_seq().len() && (#[trigger] self.entries_seq()[i]).0 == k;
                assert(out@[i]@ == k);
            }
        }
        out
    }

    /// Drop the mailbox of a connection. Idempotent: removing an absent key
    /// changes nothing.
    pub fn remove(&mut self, conn: &PeerConn)
        requires
            old(self).wf(),
        ensures
            final(self).wf(),
            final(self).spec_mailbox_capacity() == old(self).spec_mailbox_capacity(),
            final(self).spec_max_peers() == old(self).spec_max_peers(),
            final(self)@ == old(self)@.remove(conn@),
    {
        match self.find(&conn.peer_id, conn.conn_id) {
            Some(j) => {
                proof {
                    lemma_entry_map_remove(self.entries_seq(), j as int);
                    lemma_keys_distinct_remove(self.entries_seq(), j as int);
                }
                self.entries.remove(j);
                proof {
                    assert(self.entries_seq() =~= old(self).entries_seq().remove(j as int));
                    assert forall|i: int|
                        0 <= i < self.entries@.len() implies (#[trigger] self.entries@[i]).mailbox.wf()
                        && self.entries@[i].mailbox.spec_capacity() == self.spec_mailbox_capacity()
                        && self.entries@[i].conn_id != 0 by {
                        let i0 = if i < j {
                            i
                        } else {
                            i + 1
                        };
                        assert(self.entries@[i] == old(self).entries@[i0]);
                    }
                }
            },
            None => {
                proof {
                    lemma_entry_map_contains(self.entries_seq(), conn@);
                    assert(old(self)@ =~= old(self)@.remove(conn@));
                }
            },
        }
    }

    /// Whether the group holds no connection at all.
    pub fn is_empty(&self) -> (r: bool)
        requires
            self.wf(),
        ensures
            r == (self@.dom().len() == 0),
            r ==> forall|k: (Seq<char>, u32)| !self@.contains_key(k),
    {
        proof {
            lemma_entry_map_len(self.entries_seq());
            if self.entries@.len() == 0 {
                assert forall|k: (Seq<char>, u32)| !self@.contains_key(k) by {
                    lemma_entry_map_contains(self.entries_seq(), k);
                }
            }
        }
        self.entries.len() == 0
    }

    /// Drop every mailbox whose last use lies at least the poll timeout in
    /// the past. Surviving connections keep their mailboxes untouched.
    pub fn evict_idle(&mut self, now: u64)
        requires
            old(self).wf(),
        ensures
            final(self).wf(),
            final(self).spec_mailbox_capacity() == old(self).spec_mailbox_capacity(),
            final(self).spec_max_peers() == old(self).spec_max_peers(),
            forall|k: (Seq<char>, u32)|
                final(self)@.contains_key(k) <==> (#[trigger] old(self)@.contains_key(k)
                    && !spec_is_idle(old(self)@[k], now)),
            forall|k: (Seq<char>, u32)| #[trigger]
                final(self)@.contains_key(k) ==> final(self)@[k] == old(self)@[k],
    {
        let ghost oe = old(self).entries@;
        let ghost os = old(self).entries_seq();
        let n = self.entries.len();
        let mut all: Vec<GroupEntry> = Vec::new();
        core::mem::swap(&mut all, &mut self.entries);
        let mut kept: Vec<GroupEntry> = Vec::new();
        let mut i: usize = 0;
        while i < n
            invariant
                old(self).wf(),
                n == oe.len(),
                oe == old(self).entries@,
                os == old(self).entries_seq(),
                i <= n,
                all@ == oe.skip(i as int),
                self.mailbox_capacity == old(self).mailbox_capacity,
                self.max_peers == old(self).max_peers,
                kept@.len() <= i,
                keys_distinct(entry_key_vals(kept@)),
                forall|m: int|
                    0 <= m < kept@.len() ==> (#[trigger] kept@[m]).mailbox.wf()
                        && kept@[m].mailbox.spec_capacity() == old(self).spec_mailbox_capacity()
                        && kept@[m].conn_id != 0,
                forall|m: int|
                    0 <= m < kept@.len() ==> exists|p: int|
                        0 <= p < i && (#[trigger] entry_key_vals(kept@)[m]) == os[p]
                            && !spec_is_idle(os[p].1, now),
                forall|p: int|
                    0 <= p < i && !spec_is_idle((#[trigger] os[p]).1, now) ==> exists|m: int|
                        0 <= m < kept@.len() && entry_key_vals(kept@)[m] == os[p],
            decreases n - i,
        {
            proof {
                assert(all@[0] == oe[i as int]);
            }
            let e = all.remove(0);
            proof {
                assert(all@ =~= oe.skip(i as int + 1));
            }
            let idle = e.mailbox.is_idle(now);
            if !idle {
                let ghost ks0 = entry_key_vals(kept@);
                proof {
                    assert forall|m: int| 0 <= m < ks0.len() implies (#[trigger] ks0[m]).0
                        != os[i as int].0 by {
                        let p = choose|p: int|
                            0 <= p < i && ks0[m] == os[p] && !spec_is_idle(os[p].1, now);
                    }
                    lemma_keys_distinct_push(ks0, os[i as int].0, os[i as int].1);
                }
                kept.push(e);
                proof {
                    assert(entry_key_vals(kept@) =~= ks0.push(os[i as int]));
                    assert forall|p: int|
                        0 <= p < i + 1 && !spec_is_idle((#[trigger] os[p]).1, now) implies exists|
                        m: int,
                    | 0 <= m < kept@.len() && entry_key_vals(kept@)[m] == os[p] by {
                        if p == i {
                            assert(entry_key_vals(kept@)[kept@.len() - 1] == os[p]);
                        } else {
                            let m = choose|m: int|
                                0 <= m < ks0.len() && #[trigger] ks0[m] == os[p];
                            assert(entry_key_vals(kept@)[m] == os[p]);
                        }
                    }
                }
            }
            i = i + 1;
        }
        self.entries = kept;
        proof {
            let fs = self.entries_seq();
            assert forall|k: (Seq<char>, u32)|
                self@.contains_key(k) <==> (#[trigger] old(self)@.contains_key(k) && !spec_is_idle(
                    old(self)@[k],
                    now,
                )) by {
                lemma_entry_map_contains(fs, k);
                lemma_entry_map_contains(os, k);
                if self@.contains_key(k) {
                    let m = choose|m: int| 0 <= m < fs.len() && (#[trigger] fs[m]).0 == k;
                    let p = choose|p: int|
                        0 <= p < n && #[trigger] fs[m] == os[p] && !spec_is_idle(os[p].1, now);
                    lemma_entry_map_value(os, p);
                }
                if old(self)@.contains_key(k) && !spec_is_idle(old(self)@[k], now) {
                    let p = choose|p: int| 0 <= p < os.len() && (#[trigger] os[p]).0 == k;
                    lemma_entry_map_value(os, p);
                    let m = choose|m: int| 0 <= m < fs.len() && #[trigger] fs[m] == os[p];
                    assert(fs[m].0 == k);
                }
            }
            assert forall|k: (Seq<char>, u32)| #[trigger]
                self@.contains_key(k) implies self@[k] == old(self)@[k] by {
                lemma_entry_map_contains(fs, k);
                let m = choose|m: int| 0 <= m < fs.len() && (#[trigger] fs[m]).0 == k;
                lemma_entry_map_value(fs, m);
                let p = choose|p: int|
                    0 <= p < n && #[trigger] fs[m] == os[p] && !spec_is_idle(os[p].1, now);
                lemma_entry_map_value(os, p);
            }
        }
    }
}

} // verus!
