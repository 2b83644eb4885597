//! The manager: a registry of groups keyed by group id, bounded by a group
//! cap with least-recently-used eviction, a per-group peer cap, and a shared
//! per-mailbox capacity. All relay traffic resolves its mailbox through it.

use vstd::prelude::*;

use crate::group::Group;
use crate::group::PeerConn;
use crate::group::fresh_mailbox;
use crate::mailbox::MailboxV;
use crate::mailbox::push_drop_oldest;
use crate::mailbox::spec_is_idle;
use crate::proto::Message;
use crate::proto::MessageV;
use crate::proto::PeerInfo;
use crate::proto::has_header;
use crate::registry::entry_map;
use crate::registry::keys_distinct;
use crate::registry::lemma_entry_map_contains;
use crate::registry::lemma_entry_map_len;
use crate::registry::lemma_entry_map_push;
use crate::registry::lemma_entry_map_remove;
use crate::registry::lemma_entry_map_value;
use crate::registry::lemma_keys_distinct_push;
use crate::registry::lemma_keys_distinct_remove;
use crate::registry::registry_insert_post;

verus! {

/// Default cap on concurrently live groups.
pub const DEFAULT_MAX_GROUPS: usize = 65536;

/// Default cap on connections within one group.
pub const DEFAULT_MAX_PEERS_PER_GROUP: usize = 16;

/// Default per-mailbox message capacity.
pub const DEFAULT_MAILBOX_CAPACITY: usize = 32;

/// Bounds of the manager: how many groups may live at once, and how many
/// connections each group may hold.
#[derive(Clone, Copy, Debug, PartialEq, Eq, Structural)]
pub struct ManagerConfig {
    pub max_groups: usize,
    pub max_peers_per_group: usize,
}

struct ManagerEntry {
    group_id: String,
    group: Group,
}

spec fn kept_entry_from(
    ks: Seq<(Seq<char>, Map<(Seq<char>, u32), MailboxV>)>,
    os: Seq<(Seq<char>, Map<(Seq<char>, u32), MailboxV>)>,
    m: int,
    bound: int,
    now: u64,
) -> bool {
    exists|p: int|
        0 <= p < bound && (ks[m]).0 == (#[trigger] os[p]).0 && group_survives(
            os[p].1,
            ks[m].1,
            now,
        ) && ks[m].1.dom().len() > 0
}

spec fn manager_key_vals(s: Seq<ManagerEntry>) -> Seq<(Seq<char>, Map<(Seq<char>, u32), MailboxV>)> {
    s.map_values(|e: ManagerEntry| (e.group_id@, e.group@))
}

/// The registry of groups, viewed as a map from group id to that group's map
/// of connections. Entries are kept in least-recently-used order.
pub struct Manager {
    entries: Vec<ManagerEntry>,
    max_groups: usize,
    max_peers_per_group: usize,
    mailbox_capacity: usize,
}

impl View for Manager {
    type V = Map<Seq<char>, Map<(Seq<char>, u32), MailboxV>>;

    closed spec fn view(&self) -> Map<Seq<char>, Map<(Seq<char>, u32), MailboxV>> {
        entry_map(self.entries_seq())
    }
}

impl Manager {
    spec fn entries_seq(&self) -> Seq<(Seq<char>, Map<(Seq<char>, u32), MailboxV>)> {
        manager_key_vals(self.entries@)
    }

    /// The capacity every mailbox is created with.
    pub closed spec fn spec_mailbox_capacity(&self) -> nat {
        self.mailbox_capacity as nat
    }

    /// At most this many groups are held at once.
    pub closed spec fn spec_max_groups(&self) -> nat {
        self.max_groups as nat
    }

    /// At most this many connections are held per group.
    pub closed spec fn spec_max_peers_per_group(&self) -> nat {
        self.max_peers_per_group as nat
    }

    /// Distinct group ids, all bounds at least one and respected, and every
    /// group well formed at the shared bounds.
    pub closed spec fn wf(&self) -> bool {
        &&& keys_distinct(self.entries_seq())
        &&& self.max_groups >= 1
        &&& self.max_peers_per_group >= 1
        &&& self.mailbox_capacity >= 1
        &&& self.entries@.len() <= self.max_groups
        &&& forall|i: int| 0 <= i < self.entries@.len() ==> (#[trigger] self.entries@[i]).group.wf()
        &&& forall|i: int|
            0 <= i < self.entries@.len() ==> (#[trigger] self.entries@[i]).group.spec_mailbox_capacity()
                == self.spec_mailbox_capacity()
        &&& forall|i: int|
            0 <= i < self.entries@.len() ==> (#[trigger] self.entries@[i]).group.spec_max_peers()
                == self.spec_max_peers_per_group()
    }

    /// No group ever holds a connection under the reserved discovery id.
    pub proof fn lemma_no_discovery_conn(&self, g: Seq<char>, k: (Seq<char>, u32))
        requires
            self.wf(),
            self@.contains_key(g),
            self@[g].contains_key(k),
        ensures
            k.1 != 0,
    {
        lemma_entry_map_contains(self.entries_seq(), g);
        let i = choose|i: int|
            0 <= i < self.entries_seq().len() && (#[trigger] self.entries_seq()[i]).0 == g;
        lemma_entry_map_value(self.entries_seq(), i);
        self.entries@[i].group.lemma_no_discovery_key(k);
    }

    /// An empty manager with the given bounds and per-mailbox capacity.
    /// Bounds below one are raised to one.
    pub fn with_mailbox_capacity(cfg: ManagerConfig, mailbox_capacity: usize) -> (r: Manager)
        ensures
            r.wf(),
            r@ == Map::<Seq<char>, Map<(Seq<char>, u32), MailboxV>>::empty(),
            cfg.max_groups >= 1 ==> r.spec_max_groups() == cfg.max_groups,
            cfg.max_peers_per_group >= 1 ==> r.spec_max_peers_per_group()
                == cfg.max_peers_per_group,
            mailbox_capacity >= 1 ==> r.spec_mailbox_capacity() == mailbox_capacity,
    {
        let mg: usize = if cfg.max_groups >= 1 {
            cfg.max_groups
        } else {
            1
        };
        let mp: usize = if cfg.max_peers_per_group >= 1 {
            cfg.max_peers_per_group
        } else {
            1
        };
        let cap: usize = if mailbox_capacity >= 1 {
            mailbox_capacity
        } else {
            1
        };
        Manager {
            entries: Vec::new(),
            max_groups: mg,
            max_peers_per_group: mp,
            mailbox_capacity: cap,
        }
    }

    /// An empty manager with the given bounds and the default mailbox
    /// capacity.
    pub fn new(cfg: ManagerConfig) -> (r: Manager)
        ensures
            r.wf(),
            r@ == Map::<Seq<char>, Map<(Seq<char>, u32), MailboxV>>::empty(),
            cfg.max_groups >= 1 ==> r.spec_max_groups() == cfg.max_groups,
            cfg.max_peers_per_group >= 1 ==> r.spec_max_peers_per_group()
                == cfg.max_peers_per_group,
            r.spec_mailbox_capacity() == DEFAULT_MAILBOX_CAPACITY,
    {
        Manager::with_mailbox_capacity(cfg, DEFAULT_MAILBOX_CAPACITY)
    }

    fn find(&self, group_id: &String) -> (r: Option<usize>)
        ensures
            match r {
                Some(j) => j < self.entries@.len() && self.entries_seq()[j as int].0 == group_id@,
                None => forall|i: int|
                    0 <= i < self.entries@.len() ==> (#[trigger] self.entries_seq()[i]).0
                        != group_id@,
            },
    {
        let n = self.entries.len();
        let mut i: usize = 0;
        while i < n
            invariant
                n == self.entries@.len(),
                i <= n,
                forall|m: int| 0 <= m < i ==> (#[trigger] self.entries_seq()[m]).0 != group_id@,
            decreases n - i,
        {
            if self.entries[i].group_id == *group_id {
                return Some(i);
            }
            i = i + 1;
        }
        None
    }

    /// Detach the entry of a group, creating an empty one when absent; when
    /// the manager is full, the least-recently-used group makes room first.
    fn access(&mut self, group_id: &String) -> (e: ManagerEntry)
        requires
            old(self).wf(),
        ensures
            final(self).wf(),
            final(self).spec_mailbox_capacity() == old(self).spec_mailbox_capacity(),
            final(self).spec_max_groups() == old(self).spec_max_groups(),
            final(self).spec_max_peers_per_group() == old(self).spec_max_peers_per_group(),
            final(self).entries@.len() < old(self).spec_max_groups(),
            !final(self)@.contains_key(group_id@),
            e.group_id@ == group_id@,
            e.group.wf(),
            e.group.spec_mailbox_capacity() == old(self).spec_mailbox_capacity(),
            e.group.spec_max_peers() == old(self).spec_max_peers_per_group(),
            old(self)@.contains_key(group_id@) ==> final(self)@ == old(self)@.remove(group_id@)
                && e.group@ == old(self)@[group_id@],
            !old(self)@.contains_key(group_id@) ==> e.group@ == Map::<
                (Seq<char>, u32),
                MailboxV,
            >::empty() && (if old(self)@.dom().len() < old(self).spec_max_groups() {
                final(self)@ == old(self)@
            } else {
                exists|ev: Seq<char>|
                    old(self)@.contains_key(ev) && ev != group_id@ && final(self)@ == old(
                        self,
                    )@.remove(ev)
            }),
    {
        proof {
            lemma_entry_map_len(self.entries_seq());
        }
        let ghost k = group_id@;
        match self.find(group_id) {
            Some(j) => {
                proof {
                    lemma_entry_map_contains(self.entries_seq(), k);
                    lemma_entry_map_value(self.entries_seq(), j as int);
                    lemma_entry_map_remove(self.entries_seq(), j as int);
                    lemma_keys_distinct_remove(self.entries_seq(), j as int);
                }
                let e = self.entries.remove(j);
                proof {
                    assert(self.entries_seq() =~= old(self).entries_seq().remove(j as int));
                    lemma_entry_map_contains(self.entries_seq(), k);
                    assert forall|i: int|
                        0 <= i < self.entries@.len() implies (#[trigger] self.entries@[i]).group.wf()
                        && self.entries@[i].group.spec_mailbox_capacity()
                            == self.spec_mailbox_capacity()
                        && self.entries@[i].group.spec_max_peers()
                            == self.spec_max_peers_per_group() by {
                        let i0 = if i < j {
                            i
                        } else {
                            i + 1
                        };
                        assert(self.entries@[i] == old(self).entries@[i0]);
                    }
                }
                e
            },
            None => {
                proof {
                    lemma_entry_map_contains(self.entries_seq(), k);
                }
                if self.entries.len() == self.max_groups {
                    proof {
                        lemma_entry_map_value(self.entries_seq(), 0);
                        lemma_entry_map_remove(self.entries_seq(), 0);
                        lemma_keys_distinct_remove(self.entries_seq(), 0);
                    }
                    self.entries.remove(0);
                    proof {
                        assert(self.entries_seq() =~= old(self).entries_seq().remove(0));
                        lemma_entry_map_contains(self.entries_seq(), k);
                        assert forall|i: int|
                            0 <= i < self.entries@.len() implies (#[trigger] self.entries@[i]).group.wf()
                            && self.entries@[i].group.spec_mailbox_capacity()
                                == self.spec_mailbox_capacity()
                            && self.entries@[i].group.spec_max_peers()
                                == self.spec_max_peers_per_group() by {
                            assert(self.entries@[i] == old(self).entries@[i + 1]);
                        }
                    }
                }
                let g = Group::new(self.mailbox_capacity, self.max_peers_per_group);
                ManagerEntry { group_id: group_id.clone(), group: g }
            },
        }
    }

    /// Re-attach a detached group entry at the most-recently-used position.
    fn install(&mut self, e: ManagerEntry)
        requires
            old(self).wf(),
            old(self).entries@.len() < old(self).spec_max_groups(),
            !old(self)@.contains_key(e.group_id@),
            e.group.wf(),
            e.group.spec_mailbox_capacity() == old(self).spec_mailbox_capacity(),
            e.group.spec_max_peers() == old(self).spec_max_peers_per_group(),
        ensures
            final(self).wf(),
            final(self).spec_mailbox_capacity() == old(self).spec_mailbox_capacity(),
            final(self).spec_max_groups() == old(self).spec_max_groups(),
            final(self).spec_max_peers_per_group() == old(self).spec_max_peers_per_group(),
            final(self)@ == old(self)@.insert(e.group_id@, e.group@),
    {
        let ghost kv = (e.group_id@, e.group@);
        let ghost before = self.entries_seq();
        proof {
            lemma_entry_map_contains(before, kv.0);
            lemma_entry_map_push(before, kv.0, kv.1);
            lemma_keys_distinct_push(before, kv.0, kv.1);
        }
        self.entries.push(e);
        proof {
            assert(self.entries_seq() =~= before.push(kv));
            assert forall|i: int|
                0 <= i < self.entries@.len() implies (#[trigger] self.entries@[i]).group.wf()
                && self.entries@[i].group.spec_mailbox_capacity() == self.spec_mailbox_capacity()
                && self.entries@[i].group.spec_max_peers()
                    == self.spec_max_peers_per_group() by {
                if i < self.entries@.len() - 1 {
                    assert(self.entries@[i] == old(self).entries@[i]);
                }
            }
        }
    }

    /// The connections a group currently holds; an absent group holds none.
    pub open spec fn group_of(
        m: Map<Seq<char>, Map<(Seq<char>, u32), MailboxV>>,
        g: Seq<char>,
    ) -> Map<(Seq<char>, u32), MailboxV> {
        if m.contains_key(g) {
            m[g]
        } else {
            Map::empty()
        }
    }

    /// The pending messages of one mailbox; an absent mailbox holds none.
    pub open spec fn msgs_of(
        m: Map<Seq<char>, Map<(Seq<char>, u32), MailboxV>>,
        g: Seq<char>,
        k: (Seq<char>, u32),
    ) -> Seq<MessageV> {
        if Manager::group_of(m, g).contains_key(k) {
            Manager::group_of(m, g)[k].msgs
        } else {
            Seq::empty()
        }
    }

    /// Whether some connection of the peer is registered in the group.
    pub open spec fn peer_registered(
        m: Map<Seq<char>, Map<(Seq<char>, u32), MailboxV>>,
        g: Seq<char>,
        peer: Seq<char>,
    ) -> bool {
        exists|k: (Seq<char>, u32)| #[trigger] Manager::group_of(m, g).contains_key(k) && k.0 == peer
    }

    /// Look up or lazily create the mailbox of a connection, refreshing its
    /// idle timer. Group and mailbox are created on first use; a full
    /// registry evicts its least-recently-used entry first.
    pub fn register(&mut self, src: &PeerInfo, now: u64)
        requires
            old(self).wf(),
            src.conn_id != 0,
        ensures
            final(self).wf(),
            final(self).spec_mailbox_capacity() == old(self).spec_mailbox_capacity(),
            final(self).spec_max_groups() == old(self).spec_max_groups(),
            final(self).spec_max_peers_per_group() == old(self).spec_max_peers_per_group(),
            final(self)@.contains_key(src@.group_id),
            final(self)@[src@.group_id].contains_key((src@.peer_id, src@.conn_id)),
            final(self)@[src@.group_id][(src@.peer_id, src@.conn_id)] == (MailboxV {
                touched: now,
                ..if Manager::group_of(old(self)@, src@.group_id).contains_key(
                    (src@.peer_id, src@.conn_id),
                ) {
                    Manager::group_of(old(self)@, src@.group_id)[(src@.peer_id, src@.conn_id)]
                } else {
                    fresh_mailbox(now)
                }
            }),
            registry_insert_post(
                Manager::group_of(old(self)@, src@.group_id),
                final(self)@[src@.group_id],
                (src@.peer_id, src@.conn_id),
                final(self)@[src@.group_id][(src@.peer_id, src@.conn_id)],
                old(self).spec_max_peers_per_group(),
            ),
            registry_insert_post(
                old(self)@,
                final(self)@,
                src@.group_id,
                final(self)@[src@.group_id],
                old(self).spec_max_groups(),
            ),
    {
        let mut e = self.access(&src.group_id);
        let ghost mid = self@;
        let ghost g0 = e.group@;
        let conn = PeerConn { peer_id: src.peer_id.clone(), conn_id: src.conn_id };
        e.group.get(&conn, now);
        let ghost g1 = e.group@;
        self.install(e);
        proof {
            let gid = src@.group_id;
            let k = (src@.peer_id, src@.conn_id);
            if old(self)@.contains_key(gid) {
                assert(self@ =~= old(self)@.insert(gid, g1));
            } else if old(self)@.dom().len() >= old(self).spec_max_groups() {
                let ev = choose|ev: Seq<char>|
                    old(self)@.contains_key(ev) && ev != gid && mid == old(self)@.remove(ev);
                assert(self@ == old(self)@.remove(ev).insert(gid, g1));
            }
            if !g0.contains_key(k) && g0.dom().len() >= old(self).spec_max_peers_per_group() {
                let ev2 = choose|ev2: (Seq<char>, u32)|
                    g0.contains_key(ev2) && ev2 != k && g1 == g0.remove(ev2).insert(
                        k,
                        fresh_mailbox(now),
                    );
                assert(registry_insert_post(
                    g0,
                    g1,
                    k,
                    g1[k],
                    old(self).spec_max_peers_per_group(),
                ));
            }
        }
    }

    /// Enqueue a client message for a connection, creating group and mailbox
    /// when absent. The result says whether a suspended consumer must be
    /// woken.
    pub fn send_to(&mut self, dst: &PeerInfo, msg: Message, now: u64) -> (fire: bool)
        requires
            old(self).wf(),
            dst.conn_id != 0,
            has_header(msg@),
        ensures
            final(self).wf(),
            final(self).spec_mailbox_capacity() == old(self).spec_mailbox_capacity(),
            final(self).spec_max_groups() == old(self).spec_max_groups(),
            final(self).spec_max_peers_per_group() == old(self).spec_max_peers_per_group(),
            final(self)@.contains_key(dst@.group_id),
            final(self)@[dst@.group_id].contains_key((dst@.peer_id, dst@.conn_id)),
            final(self)@[dst@.group_id][(dst@.peer_id, dst@.conn_id)].msgs == push_drop_oldest(
                Manager::msgs_of(old(self)@, dst@.group_id, (dst@.peer_id, dst@.conn_id)),
                msg@,
                old(self).spec_mailbox_capacity(),
            ),
            final(self)@[dst@.group_id][(dst@.peer_id, dst@.conn_id)].wake,
            final(self)@[dst@.group_id][(dst@.peer_id, dst@.conn_id)].touched == now,
            fire == !(Manager::group_of(old(self)@, dst@.group_id).contains_key(
                (dst@.peer_id, dst@.conn_id),
            ) && Manager::group_of(old(self)@, dst@.group_id)[(dst@.peer_id, dst@.conn_id)].wake),
            registry_insert_post(
                Manager::group_of(old(self)@, dst@.group_id),
                final(self)@[dst@.group_id],
                (dst@.peer_id, dst@.conn_id),
                final(self)@[dst@.group_id][(dst@.peer_id, dst@.conn_id)],
                old(self).spec_max_peers_per_group(),
            ),
            registry_insert_post(
                old(self)@,
                final(self)@,
                dst@.group_id,
                final(self)@[dst@.group_id],
                old(self).spec_max_groups(),
            ),
    {
        let mut e = self.access(&dst.group_id);
        let ghost mid = self@;
        let ghost g0 = e.group@;
        let conn = PeerConn { peer_id: dst.peer_id.clone(), conn_id: dst.conn_id };
        let fire = e.group.send_to(&conn, msg, now);
        let ghost g1 = e.group@;
        self.install(e);
        proof {
            let gid = dst@.group_id;
            let k = (dst@.peer_id, dst@.conn_id);
            if old(self)@.contains_key(gid) {
                assert(self@ =~= old(self)@.insert(gid, g1));
            } else if old(self)@.dom().len() >= old(self).spec_max_groups() {
                let ev = choose|ev: Seq<char>|
                    old(self)@.contains_key(ev) && ev != gid && mid == old(self)@.remove(ev);
                assert(self@ == old(self)@.remove(ev).insert(gid, g1));
            }
            if !g0.contains_key(k) && g0.dom().len() >= old(self).spec_max_peers_per_group() {
                let ev2 = choose|ev2: (Seq<char>, u32)|
                    g0.contains_key(ev2) && ev2 != k && g1 == g0.remove(ev2).insert(k, g1[k]);
                assert(registry_insert_post(
                    g0,
                    g1,
                    k,
                    g1[k],
                    old(self).spec_max_peers_per_group(),
                ));
            }
        }
        fire
    }

    /// Remove and return everything pending for a connection, oldest first,
    /// creating group and mailbox when absent. Every drained message carries
    /// a header.
    pub fn drain(&mut self, src: &PeerInfo, now: u64) -> (r: Vec<Message>)
        requires
            old(self).wf(),
            src.conn_id != 0,
        ensures
            final(self).wf(),
            final(self).spec_mailbox_capacity() == old(self).spec_mailbox_capacity(),
            final(self).spec_max_groups() == old(self).spec_max_groups(),
            final(self).spec_max_peers_per_group() == old(self).spec_max_peers_per_group(),
            r@.map_values(|m: Message| m@) == Manager::msgs_of(
                old(self)@,
                src@.group_id,
                (src@.peer_id, src@.conn_id),
            ),
            forall|i: int| 0 <= i < r@.len() ==> has_header(#[trigger] r@[i]@),
            final(self)@.contains_key(src@.group_id),
            final(self)@[src@.group_id].contains_key((src@.peer_id, src@.conn_id)),
            final(self)@[src@.group_id][(src@.peer_id, src@.conn_id)] == fresh_mailbox(now),
            registry_insert_post(
                Manager::group_of(old(self)@, src@.group_id),
                final(self)@[src@.group_id],
                (src@.peer_id, src@.conn_id),
                fresh_mailbox(now),
                old(self).spec_max_peers_per_group(),
            ),
            registry_insert_post(
                old(self)@,
                final(self)@,
                src@.group_id,
                final(self)@[src@.group_id],
                old(self).spec_max_groups(),
            ),
    {
        let mut e = self.access(&src.group_id);
        let ghost mid = self@;
        let ghost g0 = e.group@;
        let conn = PeerConn { peer_id: src.peer_id.clone(), conn_id: src.conn_id };
        let r = e.group.drain(&conn, now);
        let ghost g1 = e.group@;
        self.install(e);
        proof {
            let gid = src@.group_id;
            let k = (src@.peer_id, src@.conn_id);
            if old(self)@.contains_key(gid) {
                assert(self@ =~= old(self)@.insert(gid, g1));
            } else if old(self)@.dom().len() >= old(self).spec_max_groups() {
                let ev = choose|ev: Seq<char>|
                    old(self)@.contains_key(ev) && ev != gid && mid == old(self)@.remove(ev);
                assert(self@ == old(self)@.remove(ev).insert(gid, g1));
            }
            if !g0.contains_key(k) && g0.dom().len() >= old(self).spec_max_peers_per_group() {
                let ev2 = choose|ev2: (Seq<char>, u32)|
                    g0.contains_key(ev2) && ev2 != k && g1 == g0.remove(ev2).insert(
                        k,
                        fresh_mailbox(now),
                    );
                assert(registry_insert_post(
                    g0,
                    g1,
                    k,
                    fresh_mailbox(now),
                    old(self).spec_max_peers_per_group(),
                ));
            }
        }
        r
    }

    /// Pick any registered connection of the peer in the group; absent
    /// exactly when the peer has none there.
    pub fn select_one(&self, group_id: &String, peer_id: &String) -> (r: Option<u32>)
        requires
            self.wf(),
        ensures
            match r {
                Some(c) => Manager::group_of(self@, group_id@).contains_key((peer_id@, c)) && c
                    != 0,
                None => !Manager::peer_registered(self@, group_id@, peer_id@),
            },
    {
        match self.find(group_id) {
            Some(j) => {
                proof {
                    lemma_entry_map_value(self.entries_seq(), j as int);
                }
                let r = self.entries[j].group.select_one(peer_id);
                proof {
                    if r is None {
                        assert forall|k: (Seq<char>, u32)| #[trigger]
                            Manager::group_of(self@, group_id@).contains_key(k) implies k.0
                            != peer_id@ by {}
                    }
                }
                r
            },
            None => {
                proof {
                    lemma_entry_map_contains(self.entries_seq(), group_id@);
                }
                None
            },
        }
    }

    /// Enumerate the `(peer_id, conn_id)` pairs live in a group: exactly its
    /// keys, each once; an absent group yields none.
    pub fn collect(&self, group_id: &String) -> (r: Vec<PeerConn>)
        requires
            self.wf(),
        ensures
            r@.len() == Manager::group_of(self@, group_id@).dom().len(),
            forall|i: int|
                0 <= i < r@.len() ==> Manager::group_of(self@, group_id@).contains_key(
                    #[trigger] r@[i]@,
                ),
            forall|k: (Seq<char>, u32)| #[trigger]
                Manager::group_of(self@, group_id@).contains_key(k) ==> exists|i: int|
                    0 <= i < r@.len() && #[trigger] r@[i]@ == k,
            forall|i: int, j: int| 0 <= i < j < r@.len() ==> r@[i]@ != r@[j]@,
    {
        match self.find(group_id) {
            Some(j) => {
                proof {
                    lemma_entry_map_value(self.entries_seq(), j as int);
                }
                self.entries[j].group.collect()
            },
            None => {
                proof {
                    lemma_entry_map_contains(self.entries_seq(), group_id@);
                    assert(Manager::group_of(self@, group_id@).dom() =~= Set::empty());
                }
                Vec::new()
            },
        }
    }

    /// The registry after one connection of a peer was dropped: the group
    /// loses the connection, and a group left without connections is dropped
    /// whole.
    pub open spec fn remove_post(
        pre: Map<Seq<char>, Map<(Seq<char>, u32), MailboxV>>,
        g: Seq<char>,
        k: (Seq<char>, u32),
    ) -> Map<Seq<char>, Map<(Seq<char>, u32), MailboxV>> {
        if pre.contains_key(g) {
            let g2 = pre[g].remove(k);
            if g2.dom().len() == 0 {
                pre.remove(g)
            } else {
                pre.insert(g, g2)
            }
        } else {
            pre
        }
    }

    /// Drop the mailbox of one connection, and its group when that leaves the
    /// group empty. Idempotent: removing an absent connection changes
    /// nothing.
    pub fn remove(&mut self, peer: &PeerInfo)
        requires
            old(self).wf(),
        ensures
            final(self).wf(),
            final(self).spec_mailbox_capacity() == old(self).spec_mailbox_capacity(),
            final(self).spec_max_groups() == old(self).spec_max_groups(),
            final(self).spec_max_peers_per_group() == old(self).spec_max_peers_per_group(),
            final(self)@ == Manager::remove_post(old(self)@, peer@.group_id, (peer@.peer_id, peer@.conn_id)),
    {
        match self.find(&peer.group_id) {
            Some(j) => {
                proof {
                    lemma_entry_map_value(self.entries_seq(), j as int);
                    lemma_entry_map_remove(self.entries_seq(), j as int);
                    lemma_keys_distinct_remove(self.entries_seq(), j as int);
                }
                let mut e = self.entries.remove(j);
                proof {
                    assert(self.entries_seq() =~= old(self).entries_seq().remove(j as int));
                    lemma_entry_map_contains(self.entries_seq(), peer@.group_id);
                    assert forall|i: int|
                        0 <= i < self.entries@.len() implies (#[trigger] self.entries@[i]).group.wf()
                        && self.entries@[i].group.spec_mailbox_capacity()
                            == self.spec_mailbox_capacity()
                        && self.entries@[i].group.spec_max_peers()
                            == self.spec_max_peers_per_group() by {
                        let i0 = if i < j {
                            i
                        } else {
                            i + 1
                        };
                        assert(self.entries@[i] == old(self).entries@[i0]);
                    }
                }
                let conn = PeerConn { peer_id: peer.peer_id.clone(), conn_id: peer.conn_id };
                e.group.remove(&conn);
                if e.group.is_empty() {
                    proof {
                        assert(self@ =~= Manager::remove_post(
                            old(self)@,
                            peer@.group_id,
                            (peer@.peer_id, peer@.conn_id),
                        ));
                    }
                } else {
                    self.install(e);
                    proof {
                        assert(self@ =~= Manager::remove_post(
                            old(self)@,
                            peer@.group_id,
                            (peer@.peer_id, peer@.conn_id),
                        ));
                    }
                }
            },
            None => {
                proof {
                    lemma_entry_map_contains(self.entries_seq(), peer@.group_id);
                }
            },
        }
    }

    /// Forget every group and mailbox; pending messages are lost, and the
    /// registry is ready for fresh use.
    pub fn invalidate_all(&mut self)
        requires
            old(self).wf(),
        ensures
            final(self).wf(),
            final(self).spec_mailbox_capacity() == old(self).spec_mailbox_capacity(),
            final(self).spec_max_groups() == old(self).spec_max_groups(),
            final(self).spec_max_peers_per_group() == old(self).spec_max_peers_per_group(),
            final(self)@ == Map::<Seq<char>, Map<(Seq<char>, u32), MailboxV>>::empty(),
    {
        self.entries = Vec::new();
    }

    /// Drop every mailbox idle for at least the poll timeout, and every group
    /// that loses all its connections that way. Surviving mailboxes are
    /// untouched.
    pub fn evict_idle(&mut self, now: u64)
        requires
            old(self).wf(),
        ensures
            final(self).wf(),
            final(self).spec_mailbox_capacity() == old(self).spec_mailbox_capacity(),
            final(self).spec_max_groups() == old(self).spec_max_groups(),
            final(self).spec_max_peers_per_group() == old(self).spec_max_peers_per_group(),
            forall|g: Seq<char>| #[trigger] final(self)@.contains_key(g) ==> old(self)@.contains_key(g),
            forall|g: Seq<char>, k: (Seq<char>, u32)|
                Manager::group_of(final(self)@, g).contains_key(k) <==> (#[trigger] Manager::group_of(
                    old(self)@,
                    g,
                ).contains_key(k) && !spec_is_idle(Manager::group_of(old(self)@, g)[k], now)),
            forall|g: Seq<char>, k: (Seq<char>, u32)|
                #[trigger] Manager::group_of(final(self)@, g).contains_key(k)
                    ==> Manager::group_of(final(self)@, g)[k] == Manager::group_of(old(self)@, g)[k],
    {
        let ghost oe = old(self).entries@;
        let ghost os = old(self).entries_seq();
        let n = self.entries.len();
        let mut all: Vec<ManagerEntry> = Vec::new();
        core::mem::swap(&mut all, &mut self.entries);
        let mut kept: Vec<ManagerEntry> = Vec::new();
        let mut i: usize = 0;
        while i < n
            invariant
                old(self).wf(),
                n == oe.len(),
                oe == old(self).entries@,
                os == old(self).entries_seq(),
                i <= n,
                all@ == oe.skip(i as int),
                self.mailbox_capacity == old(self).mailbox_capacity,
                self.max_groups == old(self).max_groups,
                self.max_peers_per_group == old(self).max_peers_per_group,
                kept@.len() <= i,
                keys_distinct(manager_key_vals(kept@)),
                forall|m: int|
                    0 <= m < kept@.len() ==> (#[trigger] kept@[m]).group.wf()
                        && kept@[m].group.spec_mailbox_capacity()
                            == old(self).spec_mailbox_capacity()
                        && kept@[m].group.spec_max_peers()
                            == old(self).spec_max_peers_per_group(),
                forall|m: int|
                    0 <= m < kept@.len() ==> #[trigger] kept_entry_from(
                        manager_key_vals(kept@),
                        os,
                        m,
                        i as int,
                        now,
                    ),
                forall|p: int|
                    0 <= p < i && (exists|k: (Seq<char>, u32)|
                        (#[trigger] os[p]).1.contains_key(k) && !spec_is_idle(os[p].1[k], now))
                        ==> exists|m: int|
                        0 <= m < kept@.len() && (#[trigger] manager_key_vals(kept@)[m]).0
                            == os[p].0,
            decreases n - i,
        {
            proof {
                assert(all@[0] == oe[i as int]);
            }
            let mut e = all.remove(0);
            proof {
                assert(all@ =~= oe.skip(i as int + 1));
                assert(e.group_id@ == os[i as int].0 && e.group@ == os[i as int].1);
            }
            e.group.evict_idle(now);
            proof {
                assert(group_survives(os[i as int].1, e.group@, now));
            }
            let keep = !e.group.is_empty();
            if keep {
                let ghost ks0 = manager_key_vals(kept@);
                let ghost g1 = e.group@;
                proof {
                    assert forall|m: int| 0 <= m < ks0.len() implies (#[trigger] ks0[m]).0
                        != os[i as int].0 by {
                        assert(kept_entry_from(ks0, os, m, i as int, now));
                        let p = choose|p: int|
                            0 <= p < i && (ks0[m]).0 == (#[trigger] os[p]).0 && group_survives(
                                os[p].1,
                                ks0[m].1,
                                now,
                            ) && ks0[m].1.dom().len() > 0;
                    }
                    lemma_keys_distinct_push(ks0, e.group_id@, e.group@);
                }
                kept.push(e);
                proof {
                    assert(manager_key_vals(kept@) =~= ks0.push((os[i as int].0, g1)));
                    assert forall|m: int|
                        0 <= m < kept@.len() implies #[trigger] kept_entry_from(
                        manager_key_vals(kept@),
                        os,
                        m,
                        i as int + 1,
                        now,
                    ) by {
                        if m == kept@.len() - 1 {
                            assert((manager_key_vals(kept@)[m]).0 == os[i as int].0
                                && group_survives(os[i as int].1, manager_key_vals(kept@)[m].1, now)
                                && manager_key_vals(kept@)[m].1.dom().len() > 0);
                        } else {
                            assert(manager_key_vals(kept@)[m] == ks0[m]);
                            assert(kept_entry_from(ks0, os, m, i as int, now));
                            let p = choose|p: int|
                                0 <= p < i && (ks0[m]).0 == (#[trigger] os[p]).0 && group_survives(
                                    os[p].1,
                                    ks0[m].1,
                                    now,
                                ) && ks0[m].1.dom().len() > 0;
                            assert((manager_key_vals(kept@)[m]).0 == os[p].0);
                        }
                    }
                    assert forall|p: int|
                        0 <= p < i + 1 && (exists|k: (Seq<char>, u32)|
                            (#[trigger] os[p]).1.contains_key(k) && !spec_is_idle(os[p].1[k], now))
                            implies exists|m: int|
                            0 <= m < kept@.len() && (#[trigger] manager_key_vals(kept@)[m]).0
                                == os[p].0 by {
                        if p == i {
                            assert((manager_key_vals(kept@)[kept@.len() - 1]).0 == os[p].0);
                        } else {
                            let m = choose|m: int|
                                0 <= m < ks0.len() && (#[trigger] ks0[m]).0 == os[p].0;
                            assert((manager_key_vals(kept@)[m]).0 == os[p].0);
                        }
                    }
                }
            } else {
                proof {
                    assert forall|k: (Seq<char>, u32)|
                        !((#[trigger] os[i as int].1.contains_key(k)) && !spec_is_idle(
                            os[i as int].1[k],
                            now,
                        )) by {
                        if os[i as int].1.contains_key(k) && !spec_is_idle(os[i as int].1[k], now) {
                            assert(e.group@.contains_key(k));
                        }
                    }
                    assert forall|m: int|
                        0 <= m < kept@.len() implies #[trigger] kept_entry_from(
                        manager_key_vals(kept@),
                        os,
                        m,
                        i as int + 1,
                        now,
                    ) by {
                        assert(kept_entry_from(manager_key_vals(kept@), os, m, i as int, now));
                        let p = choose|p: int|
                            0 <= p < i && (manager_key_vals(kept@)[m]).0 == (#[trigger] os[p]).0
                                && group_survives(os[p].1, manager_key_vals(kept@)[m].1, now)
                                && manager_key_vals(kept@)[m].1.dom().len() > 0;
                    }
                }
            }
            i = i + 1;
        }
        self.entries = kept;
        proof {
            let fs = self.entries_seq();
            assert forall|g: Seq<char>| #[trigger]
                self@.contains_key(g) implies old(self)@.contains_key(g) by {
                lemma_entry_map_contains(fs, g);
                lemma_entry_map_contains(os, g);
                let m = choose|m: int| 0 <= m < fs.len() && (#[trigger] fs[m]).0 == g;
                assert(kept_entry_from(fs, os, m, n as int, now));
                let p = choose|p: int|
                    0 <= p < n && (fs[m]).0 == (#[trigger] os[p]).0 && group_survives(
                        os[p].1,
                        fs[m].1,
                        now,
                    ) && fs[m].1.dom().len() > 0;
                assert(os[p].0 == g);
            }
            assert forall|g: Seq<char>, k: (Seq<char>, u32)|
                Manager::group_of(self@, g).contains_key(k) <==> (#[trigger] Manager::group_of(
                    old(self)@,
                    g,
                ).contains_key(k) && !spec_is_idle(Manager::group_of(old(self)@, g)[k], now)) by {
                lemma_entry_map_contains(fs, g);
                lemma_entry_map_contains(os, g);
                if self@.contains_key(g) {
                    let m = choose|m: int| 0 <= m < fs.len() && (#[trigger] fs[m]).0 == g;
                    lemma_entry_map_value(fs, m);
                    assert(kept_entry_from(fs, os, m, n as int, now));
                    let p = choose|p: int|
                        0 <= p < n && (fs[m]).0 == (#[trigger] os[p]).0 && group_survives(
                            os[p].1,
                            fs[m].1,
                            now,
                        ) && fs[m].1.dom().len() > 0;
                    lemma_entry_map_value(os, p);
                } else if old(self)@.contains_key(g) {
                    let p = choose|p: int| 0 <= p < os.len() && (#[trigger] os[p]).0 == g;
                    lemma_entry_map_value(os, p);
                    if exists|k2: (Seq<char>, u32)|
                        (#[trigger] os[p]).1.contains_key(k2) && !spec_is_idle(os[p].1[k2], now) {
                        let m = choose|m: int|
                            0 <= m < kept@.len() && (#[trigger] manager_key_vals(kept@)[m]).0
                                == os[p].0;
                        assert(fs[m].0 == g);
                    }
                }
            }
            assert forall|g: Seq<char>, k: (Seq<char>, u32)| #[trigger]
                Manager::group_of(self@, g).contains_key(k) implies Manager::group_of(self@, g)[k]
                == Manager::group_of(old(self)@, g)[k] by {
                lemma_entry_map_contains(fs, g);
                lemma_entry_map_contains(os, g);
                let m = choose|m: int| 0 <= m < fs.len() && (#[trigger] fs[m]).0 == g;
                lemma_entry_map_value(fs, m);
                assert(kept_entry_from(fs, os, m, n as int, now));
                let p = choose|p: int|
                    0 <= p < n && (fs[m]).0 == (#[trigger] os[p]).0 && group_survives(
                        os[p].1,
                        fs[m].1,
                        now,
                    ) && fs[m].1.dom().len() > 0;
                lemma_entry_map_value(os, p);
            }
        }
    }
}

/// What idle eviction leaves of one group: exactly the non-idle mailboxes,
/// each untouched.
pub open spec fn group_survives(
    pre: Map<(Seq<char>, u32), MailboxV>,
    post: Map<(Seq<char>, u32), MailboxV>,
    now: u64,
) -> bool {
    &&& forall|k: (Seq<char>, u32)|
        post.contains_key(k) <==> (#[trigger] pre.contains_key(k) && !spec_is_idle(pre[k], now))
    &&& forall|k: (Seq<char>, u32)| #[trigger] post.contains_key(k) ==> post[k] == pre[k]
}

} // verus!
