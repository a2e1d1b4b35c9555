//! Why a group of [`NodeView`]s agrees: the runs of a group, and the proof that what its members
//! commit never diverges.
//!
//! A run is any interleaving of ticks, deliveries, proposals, compactions and restarts. The network
//! keeps every message ever sent, so a message may be delivered late, more than once, or never.
//! The proof follows the usual argument: one leader per term, logs that match, and leaders that
//! hold every entry committed before them. It speaks of all that a member has stored, whether the
//! entry is still live in its log or folded away.

use vstd::prelude::*;
use vstd::set_lib::{lemma_len_subset, lemma_set_intersect_union_lens};
use super::log::{EntryView, LogView, MAX_COMMAND};
use super::node::{
    accept, commands_between, count_reached, count_set, fresh_node, holds, is_member, lemma_merge_wf,
    lemma_orderly_mergeable, lemma_slots_bound, lemma_term_vote_merge, least_matched, merge,
    mergeable, slots, MsgView, NodeView, Role, Sent,
};

verus! {

/// A message on the network.
pub struct Packet {
    pub from: usize,
    pub to: usize,
    pub msg: MsgView,
}

/// A group: its members, each member's state, what each member has folded away of its log, and
/// every message sent so far.
pub struct Cluster {
    pub members: Seq<usize>,
    pub nodes: Map<usize, NodeView>,
    pub folded: Map<usize, Seq<EntryView>>,
    pub net: Set<Packet>,
}

/// What can happen to a group.
pub enum Event {
    /// A member's clock ticks.
    Tick { at: usize },
    /// A message arrives.
    Deliver { packet: Packet },
    /// A client's command is proposed at a member.
    Propose { at: usize, command: Seq<u8> },
    /// A member hands its committed commands to its state machine.
    Drain { at: usize },
    /// A member's outstanding disk writes are handed out.
    Flush { at: usize },
    /// A member bounds its log.
    Compact { at: usize, keep: usize },
    /// A member crashes and starts again from what its log kept. A log that was bounded is kept in
    /// memory only, and does not outlive its member.
    Restart { at: usize, log: LogView, seed: u64 },
}

/// The network after `from` has sent `sent`.
pub open spec fn dispatch(net: Set<Packet>, from: usize, sent: Seq<Sent>) -> Set<Packet> {
    Set::new(|p: Packet| net.contains(p) || (p.from == from && sent.contains((p.to, p.msg))))
}

impl Cluster {
    /// All that a member has stored: what it has folded away, and its live log.
    pub open spec fn stored(self, i: usize) -> Seq<EntryView> {
        self.folded[i] + self.nodes[i].log.entries
    }

    /// The group after member `at` moved to `r.0` and sent `r.1`.
    pub open spec fn moved(self, at: usize, r: (NodeView, Seq<Sent>)) -> Cluster {
        Cluster {
            nodes: self.nodes.insert(at, r.0),
            net: dispatch(self.net, at, r.1),
            ..self
        }
    }

    /// Which member an event happens at, and what it leads to there.
    pub open spec fn effect(self, e: Event) -> (usize, (NodeView, Seq<Sent>)) {
        match e {
            Event::Tick { at } => (at, self.nodes[at].tick()),
            Event::Deliver { packet } => (
                packet.to,
                self.nodes[packet.to].step(packet.from, packet.msg),
            ),
            Event::Propose { at, command } => (
                at,
                (self.nodes[at].propose(command), Seq::empty()),
            ),
            Event::Drain { at } => (at, (self.nodes[at].take_committed(), Seq::empty())),
            Event::Flush { at } => (
                at,
                (
                    NodeView {
                        log: LogView { writes: Seq::empty(), ..self.nodes[at].log },
                        ..self.nodes[at]
                    },
                    Seq::empty(),
                ),
            ),
            Event::Compact { at, keep } => (
                at,
                (self.nodes[at].maybe_compact(keep), Seq::empty()),
            ),
            Event::Restart { at, log, seed } => (
                at,
                (fresh_node(at, self.members, log, seed), Seq::empty()),
            ),
        }
    }

    pub open spec fn next(self, e: Event) -> Cluster {
        let c = self.moved(self.effect(e).0, self.effect(e).1);
        match e {
            Event::Compact { at, keep } => {
                let gone = c.nodes[at].log.snapshot_index - self.nodes[at].log.snapshot_index;
                Cluster {
                    folded: self.folded.insert(
                        at,
                        self.folded[at] + self.nodes[at].log.entries.take(gone),
                    ),
                    ..c
                }
            },
            _ => c,
        }
    }

    /// Whether an event can happen.
    pub open spec fn enabled(self, e: Event) -> bool {
        &&& is_member(self.members, self.effect(e).0 as int)
        &&& match e {
            Event::Tick { at } => self.nodes[at].election_due() ==> self.nodes[at].term
                < u64::MAX,
            Event::Deliver { packet } => self.net.contains(packet)
                && self.nodes[packet.to].admits(packet.from, packet.msg),
            Event::Propose { at, command } => self.nodes[at].can_propose(command),
            Event::Drain { at } => true,
            Event::Flush { at } => true,
            Event::Compact { at, keep } => true,
            Event::Restart { at, log, seed } => {
                let kept = self.nodes[at].log;
                &&& kept.snapshot_index == 0
                &&& log.wf()
                &&& log.entries == kept.entries
                &&& log.term == kept.term
                &&& log.vote == kept.vote
                &&& log.snapshot_index == kept.snapshot_index
                &&& log.snapshot_term == kept.snapshot_term
            },
        }
    }

    /// A group in which nothing has happened yet.
    pub open spec fn is_initial(self) -> bool {
        &&& self.members.len() > 0
        &&& self.members.no_duplicates()
        &&& forall|i: int| 0 <= i < self.members.len() ==> (#[trigger] self.members[i]) < usize::MAX
        &&& self.net == Set::<Packet>::empty()
        &&& forall|i: usize|
            is_member(self.members, i as int) ==> is_new_node(#[trigger] self.nodes[i], i, self.members)
        &&& forall|i: usize|
            is_member(self.members, i as int) ==> (#[trigger] self.folded[i]).len() == 0
    }

    /// The group after a series of events.
    pub open spec fn after(self, events: Seq<Event>) -> Cluster
        decreases events.len(),
    {
        if events.len() == 0 {
            self
        } else {
            self.after(events.drop_last()).next(events.last())
        }
    }

    /// Whether a series of events can happen one after the other.
    pub open spec fn allows(self, events: Seq<Event>) -> bool
        decreases events.len(),
    {
        events.len() == 0 || {
            &&& self.allows(events.drop_last())
            &&& self.after(events.drop_last()).enabled(events.last())
        }
    }
}

/// A node that starts for the first time, with an empty log.
pub open spec fn is_new_node(n: NodeView, i: usize, members: Seq<usize>) -> bool {
    exists|log: LogView, seed: u64|
        {
            &&& #[trigger] fresh_node(i, members, log, seed) == n
            &&& log.wf()
            &&& log.entries.len() == 0
            &&& log.term == 0
            &&& log.vote is None
            &&& log.snapshot_index == 0
            &&& log.snapshot_term == 0
        }
}

/// Whether two logs are the same in their first `k` entries.
pub open spec fn agree(a: Seq<EntryView>, b: Seq<EntryView>, k: int) -> bool {
    0 <= k <= a.len() && k <= b.len() && a.take(k) == b.take(k)
}

/// The term of the last entry of `l`.
pub open spec fn tail_term(l: Seq<EntryView>) -> u64 {
    if l.len() == 0 {
        0
    } else {
        l.last().term
    }
}

/// What the proof remembers of a run.
struct History {
    /// The log with which a member stood for election in a term.
    cands: Map<(u64, usize), Seq<EntryView>>,
    /// Whom a member voted for in a term, and its log at that time.
    votes: Map<(u64, usize), (usize, Seq<EntryView>)>,
    /// The leader of a term.
    leaders: Map<u64, usize>,
    /// The longest log that the leader of a term has had in that term.
    llog: Map<u64, Seq<EntryView>>,
    /// The members whose votes elected the leader of a term.
    quorum: Map<u64, Set<usize>>,
}

impl History {
    /// The log with which the leader of `t` was elected.
    spec fn elog(self, t: u64) -> Seq<EntryView> {
        self.cands[(t, self.leaders[t])]
    }
}

/// Every prefix of `l` that ends in an entry of term `t` is a prefix of the log of `t`'s leader.
spec fn genuine(h: History, l: Seq<EntryView>) -> bool {
    forall|k: int| 0 <= k < l.len() ==> genuine_at(h, l, k)
}

spec fn genuine_at(h: History, l: Seq<EntryView>, k: int) -> bool {
    h.leaders.contains_key(l[k].term) && agree(l, h.llog[l[k].term], k + 1)
}

spec fn is_ack(m: MsgView, t: u64, k: int) -> bool {
    m matches MsgView::AppendEntriesResp { term, success, match_index } && term == t && success && k
        <= match_index
}

/// Whether `p` has told that it held the first `k` entries of the leader of `t`, or is the leader.
spec fn acked(h: History, net: Set<Packet>, p: usize, t: u64, k: int) -> bool {
    &&& h.leaders.contains_key(t)
    &&& 0 <= k <= h.llog[t].len()
    &&& h.leaders[t] == p || exists|pk: Packet| #[trigger]
        net.contains(pk) && pk.from == p && is_ack(pk.msg, t, k)
}

/// Whether every leader of a term after `t` and before `hi` was elected with the first `k`
/// entries of the leader of `t`.
spec fn carried(h: History, t: u64, hi: int, k: int) -> bool {
    forall|u: u64| #[trigger]
        h.leaders.contains_key(u) && t < u < hi ==> agree(h.elog(u), h.llog[t], k)
}

spec fn ack_set(h: History, net: Set<Packet>, members: Seq<usize>, t: u64, k: int) -> Set<usize> {
    members.to_set().filter(|p: usize| acked(h, net, p, t, k))
}

spec fn majority_of(members: Seq<usize>) -> nat {
    members.len() / 2 + 1
}

/// Whether the first `k` entries of the leader of `t` are safe for good.
spec fn committed(h: History, net: Set<Packet>, members: Seq<usize>, t: u64, k: int) -> bool {
    &&& h.leaders.contains_key(t)
    &&& 1 <= k <= h.llog[t].len()
    &&& h.llog[t][k - 1].term == t
    &&& ack_set(h, net, members, t, k).len() >= majority_of(members)
}

/// Whether the first `c` entries of `l`, seen in term `term`, are safe for good.
spec fn commit_ok(
    h: History,
    net: Set<Packet>,
    members: Seq<usize>,
    term: u64,
    l: Seq<EntryView>,
    c: int,
) -> bool {
    c == 0 || exists|t: u64, k: int| #[trigger]
        committed(h, net, members, t, k) && c <= k && t <= term && agree(l, h.llog[t], c)
}

/// Whether `past` was folded away in term `t`: the leader of `t` held it, it is safe for good, and
/// every member has told that it held it.
spec fn folded_by(
    h: History,
    net: Set<Packet>,
    members: Seq<usize>,
    t: u64,
    past: Seq<EntryView>,
) -> bool {
    &&& h.leaders.contains_key(t)
    &&& agree(past, h.llog[t], past.len() as int)
    &&& commit_ok(h, net, members, t, h.llog[t], past.len() as int)
    &&& forall|p: usize| #[trigger]
        is_member(members, p as int) ==> acked(h, net, p, t, past.len() as int)
}

/// Whether what a member has folded away was folded away in its term or before.
#[verifier::opaque]
spec fn folded_ok(
    h: History,
    net: Set<Packet>,
    members: Seq<usize>,
    term: u64,
    past: Seq<EntryView>,
) -> bool {
    past.len() == 0 || exists|t: u64| #[trigger] folded_by(h, net, members, t, past) && t <= term
}

/// Whether a log goes on where what was folded away ends.
spec fn log_ok(past: Seq<EntryView>, log: LogView) -> bool {
    log.snapshot_index == past.len() && log.snapshot_term == tail_term(past)
}

spec fn terms_in(l: Seq<EntryView>, lo: int, hi: int) -> bool {
    forall|k: int| 0 <= k < l.len() ==> lo <= (#[trigger] l[k]).term <= hi
}

spec fn at_least(a: Seq<EntryView>, b: Seq<EntryView>) -> bool {
    tail_term(a) > tail_term(b) || (tail_term(a) == tail_term(b) && a.len() >= b.len())
}

spec fn vote_ok(c: Cluster, h: History, t: u64, p: usize) -> bool {
    let (cand, l) = h.votes[(t, p)];
    &&& is_member(c.members, p as int)
    &&& t <= c.nodes[p].term
    &&& t == c.nodes[p].term ==> c.nodes[p].vote == Some(cand)
    &&& h.cands.contains_key((t, cand))
    &&& at_least(h.cands[(t, cand)], l)
    &&& genuine(h, l)
}

spec fn cand_ok(c: Cluster, h: History, t: u64, p: usize) -> bool {
    let l = h.cands[(t, p)];
    &&& is_member(c.members, p as int)
    &&& 1 <= t <= c.nodes[p].term
    &&& genuine(h, l)
    &&& terms_in(l, 1, t - 1)
    &&& h.votes.contains_key((t, p))
    &&& h.votes[(t, p)].0 == p
}

spec fn lead_ok(c: Cluster, h: History, t: u64) -> bool {
    let l = h.leaders[t];
    &&& h.cands.contains_key((t, l))
    &&& is_member(c.members, l as int)
    &&& t <= c.nodes[l].term
    &&& h.llog.contains_key(t)
    &&& h.quorum.contains_key(t)
    &&& agree(h.llog[t], h.elog(t), h.elog(t).len() as int)
    &&& genuine(h, h.llog[t])
    &&& terms_in(h.llog[t], 1, t as int)
    &&& h.llog[t].len() < u64::MAX
    &&& numbered(h.llog[t])
    &&& h.quorum[t].subset_of(c.members.to_set())
    &&& h.quorum[t].len() >= majority_of(c.members)
    &&& forall|q: usize| #[trigger]
        h.quorum[t].contains(q) ==> h.votes.contains_key((t, q)) && h.votes[(t, q)].0 == l
}

/// Entry `j` has index `j + 1`.
spec fn numbered(l: Seq<EntryView>) -> bool {
    forall|j: int| 0 <= j < l.len() ==> (#[trigger] l[j]).index == j + 1
}

spec fn node_ok(c: Cluster, h: History, i: usize) -> bool {
    let n = c.nodes[i];
    let l = c.stored(i);
    &&& n.wf()
    &&& n.id == i
    &&& n.peers == c.members
    &&& n.votes.len() == slots(c.members)
    &&& log_ok(c.folded[i], n.log)
    &&& folded_ok(h, c.net, c.members, n.term, c.folded[i])
    &&& c.folded[i].len() <= n.applied <= n.commit
    &&& genuine(h, l)
    &&& numbered(l)
    &&& terms_in(l, 1, n.term as int)
    &&& n.vote matches Some(v) ==> h.votes.contains_key((n.term, i)) && h.votes[(n.term, i)].0 == v
    &&& n.vote is None ==> !h.votes.contains_key((n.term, i))
    &&& n.role != Role::Follower ==> h.cands.contains_key((n.term, i))
    &&& n.role == Role::Candidate ==> candidate_ok(h, n, l)
    &&& n.role == Role::Leader ==> leader_ok(c.net, c.members, h, n, l)
    &&& commit_ok(h, c.net, c.members, n.term, l, n.commit as int)
}

spec fn candidate_ok(h: History, n: NodeView, l: Seq<EntryView>) -> bool {
    &&& h.cands[(n.term, n.id)] == l
    &&& !(h.leaders.contains_key(n.term) && h.leaders[n.term] == n.id)
    &&& forall|q: usize|
        q < n.votes.len() && #[trigger] n.votes[q as int] ==> h.votes.contains_key((n.term, q))
            && h.votes[(n.term, q)].0 == n.id
}

spec fn leader_ok(
    net: Set<Packet>,
    members: Seq<usize>,
    h: History,
    n: NodeView,
    l: Seq<EntryView>,
) -> bool {
    &&& h.leaders.contains_key(n.term)
    &&& h.leaders[n.term] == n.id
    &&& h.llog[n.term] == l
    &&& forall|j: int|
        0 <= j < members.len() ==> peer_ok(net, h, n, l, #[trigger] members[j])
}

spec fn peer_ok(net: Set<Packet>, h: History, n: NodeView, l: Seq<EntryView>, p: usize) -> bool {
    &&& n.matched[p as int] == 0 || acked(h, net, p, n.term, n.matched[p as int] as int)
    &&& n.matched[p as int] <= l.len()
    &&& n.next[p as int] <= l.len() + 1
}

/// Whether the leader of `term` sent its entries from `s` on, behind `prev`: right behind it, or,
/// where it has folded away what follows `prev`, from the end of that on.
spec fn sent_from(
    h: History,
    net: Set<Packet>,
    members: Seq<usize>,
    term: u64,
    prev: u64,
    prev_term: u64,
    entries: Seq<EntryView>,
    commit: u64,
    s: int,
) -> bool {
    let l = h.llog[term];
    let end = s + entries.len();
    &&& prev <= s
    &&& end <= l.len()
    &&& entries == l.subrange(s, end)
    &&& commit <= end
    &&& if s == prev {
        prev_term == tail_term(l.take(s))
    } else {
        prev_term == 0 && folded_ok(h, net, members, term, l.take(s))
    }
}

spec fn was_sent(
    h: History,
    net: Set<Packet>,
    members: Seq<usize>,
    term: u64,
    prev: u64,
    prev_term: u64,
    entries: Seq<EntryView>,
    commit: u64,
) -> bool {
    exists|s: int| #[trigger]
        sent_from(h, net, members, term, prev, prev_term, entries, commit, s)
}

spec fn packet_ok(c: Cluster, h: History, pk: Packet) -> bool {
    &&& is_member(c.members, pk.from as int)
    &&& match pk.msg {
        MsgView::RequestVote { term, candidate, last_log_index, last_log_term } => {
            &&& candidate == pk.from
            &&& h.cands.contains_key((term, candidate))
            &&& last_log_index == h.cands[(term, candidate)].len()
            &&& last_log_term == tail_term(h.cands[(term, candidate)])
        },
        MsgView::RequestVoteResp { term, granted } => granted ==> {
            &&& h.votes.contains_key((term, pk.from))
            &&& h.votes[(term, pk.from)].0 == pk.to
        },
        MsgView::AppendEntries {
            term,
            leader,
            prev_log_index,
            prev_log_term,
            entries,
            leader_commit,
        } => {
            &&& leader == pk.from
            &&& pk.to != pk.from
            &&& h.leaders.contains_key(term)
            &&& h.leaders[term] == leader
            &&& was_sent(
                h,
                c.net,
                c.members,
                term,
                prev_log_index,
                prev_log_term,
                entries,
                leader_commit,
            )
            &&& commit_ok(h, c.net, c.members, term, h.llog[term], leader_commit as int)
        },
        MsgView::AppendEntriesResp { term, success, match_index } => {
            &&& pk.to != pk.from
            &&& success ==> {
                &&& h.leaders.contains_key(term)
                &&& match_index <= h.llog[term].len()
                &&& term <= c.nodes[pk.from].term
            }
        },
    }
}

/// A member still holds what it acknowledged, as long as the leaders since then held it.
spec fn ack_ok(c: Cluster, h: History, p: usize, t: u64, k: int) -> bool {
    is_member(c.members, p as int) && acked(h, c.net, p, t, k) && carried(
        h,
        t,
        c.nodes[p].term + 1,
        k,
    ) ==> agree(c.stored(p), h.llog[t], k)
}

/// A member that helped to elect a leader voted with what it had acknowledged, as long as the
/// leaders in between held it.
spec fn voter_ok(c: Cluster, h: History, tv: u64, p: usize, t: u64, k: int) -> bool {
    h.votes.contains_key((tv, p)) && t < tv && (h.leaders.contains_key(tv)
        ==> h.quorum[tv].contains(p)) && acked(h, c.net, p, t, k) && carried(h, t, tv as int, k)
        ==> agree(h.votes[(tv, p)].1, h.llog[t], k)
}

spec fn inv(c: Cluster, h: History) -> bool {
    &&& c.members.len() > 0
    &&& c.members.no_duplicates()
    &&& forall|i: int| 0 <= i < c.members.len() ==> (#[trigger] c.members[i]) < usize::MAX
    &&& forall|i: usize| #[trigger] is_member(c.members, i as int) ==> node_ok(c, h, i)
    &&& forall|pk: Packet| #[trigger] c.net.contains(pk) ==> packet_ok(c, h, pk)
    &&& forall|t: u64, p: usize| #[trigger] h.votes.contains_key((t, p)) ==> vote_ok(c, h, t, p)
    &&& forall|t: u64, p: usize| #[trigger] h.cands.contains_key((t, p)) ==> cand_ok(c, h, t, p)
    &&& forall|t: u64| #[trigger] h.leaders.contains_key(t) ==> lead_ok(c, h, t)
    &&& forall|p: usize, t: u64, k: int| #[trigger] ack_ok(c, h, p, t, k)
    &&& forall|tv: u64, p: usize, t: u64, k: int| #[trigger] voter_ok(c, h, tv, p, t, k)
}

proof fn lemma_agree_trans(a: Seq<EntryView>, b: Seq<EntryView>, d: Seq<EntryView>, k: int)
    requires
        agree(a, b, k),
        agree(b, d, k),
    ensures
        agree(a, d, k),
        agree(b, a, k),
{
}

proof fn lemma_agree_less(a: Seq<EntryView>, b: Seq<EntryView>, k: int, j: int)
    requires
        agree(a, b, k),
        0 <= j <= k,
    ensures
        agree(a, b, j),
        forall|i: int| 0 <= i < k ==> a[i] == b[i],
{
    assert forall|i: int| 0 <= i < k implies a[i] == b[i] by {
        assert(a.take(k)[i] == b.take(k)[i]);
    }
    assert(a.take(j) =~= b.take(j));
}

/// Two majorities share a member.
proof fn lemma_majorities_meet(members: Seq<usize>, a: Set<usize>, b: Set<usize>) -> (q: usize)
    requires
        members.no_duplicates(),
        a.subset_of(members.to_set()),
        b.subset_of(members.to_set()),
        a.len() >= majority_of(members),
        b.len() >= majority_of(members),
    ensures
        a.contains(q),
        b.contains(q),
{
    let m = members.to_set();
    members.unique_seq_to_set();
    lemma_len_subset(a, m);
    lemma_len_subset(b, m);
    lemma_set_intersect_union_lens(a, b);
    lemma_len_subset(a + b, m);
    let both = a.intersect(b);
    assert(both.len() > 0);
    let q = both.choose();
    assert(both.contains(q));
    q
}

/// Leader completeness: a leader of a later term was elected with every entry that is safe for
/// good.
proof fn lemma_leader_complete(c: Cluster, h: History, t: u64, k: int, later: u64)
    requires
        inv(c, h),
        committed(h, c.net, c.members, t, k),
        h.leaders.contains_key(later),
        t < later,
    ensures
        agree(h.elog(later), h.llog[t], k),
        agree(h.llog[later], h.llog[t], k),
    decreases later,
{
    let cand = h.leaders[later];
    let el = h.elog(later);
    let acks = ack_set(h, c.net, c.members, t, k);
    assert(acks.subset_of(c.members.to_set()));
    let p = lemma_majorities_meet(c.members, h.quorum[later], acks);
    assert(carried(h, t, later as int, k)) by {
        assert forall|u: u64| #[trigger]
            h.leaders.contains_key(u) && t < u < later implies agree(
            h.elog(u),
            h.llog[t],
            k,
        ) by {
            lemma_leader_complete(c, h, t, k, u);
        }
    }
    assert(voter_ok(c, h, later, p, t, k));
    let v = h.votes[(later, p)].1;
    assert(agree(v, h.llog[t], k));
    assert(vote_ok(c, h, later, p));
    assert(cand_ok(c, h, later, cand));
    assert(lead_ok(c, h, t));
    lemma_agree_less(v, h.llog[t], k, k);
    assert(v[k - 1].term == t);
    let uv = tail_term(v);
    assert(genuine_at(h, v, v.len() - 1));
    assert(agree(v, h.llog[uv], v.len() as int));
    lemma_agree_less(v, h.llog[uv], v.len() as int, k);
    assert(lead_ok(c, h, uv));
    assert(h.llog[uv][k - 1].term <= uv);
    assert(t <= uv);
    let uc = tail_term(el);
    assert(el.len() > 0);
    assert(genuine_at(h, el, el.len() - 1));
    assert(agree(el, h.llog[uc], el.len() as int));
    assert(lead_ok(c, h, uc));
    if uc == uv {
        lemma_agree_less(el, h.llog[uc], el.len() as int, k);
        lemma_agree_trans(v, h.llog[uv], h.llog[uv], k);
        lemma_agree_trans(el, h.llog[uc], v, k);
        lemma_agree_trans(el, v, h.llog[t], k);
    } else {
        assert(el[el.len() - 1].term <= later - 1);
        lemma_leader_complete(c, h, t, k, uc);
        if el.len() <= k {
            lemma_agree_less(h.llog[uc], h.llog[t], k, k);
            lemma_agree_less(el, h.llog[uc], el.len() as int, el.len() as int);
            assert(h.llog[t][el.len() - 1].term <= t);
            assert(false);
        }
        lemma_agree_less(el, h.llog[uc], el.len() as int, k);
        lemma_agree_trans(el, h.llog[uc], h.llog[t], k);
    }
    assert(lead_ok(c, h, later));
    lemma_agree_less(h.llog[later], el, el.len() as int, k);
    lemma_agree_trans(h.llog[later], el, h.llog[t], k);
}

/// What two members hold up to their commit indices is the same.
proof fn lemma_commits_agree(
    c: Cluster,
    h: History,
    ta: u64,
    la: Seq<EntryView>,
    ca: int,
    tb: u64,
    lb: Seq<EntryView>,
    cb: int,
    k: int,
)
    requires
        inv(c, h),
        commit_ok(h, c.net, c.members, ta, la, ca),
        commit_ok(h, c.net, c.members, tb, lb, cb),
        0 <= k <= ca,
        k <= cb,
    ensures
        agree(la, lb, k),
{
    if k == 0 {
        assert(la.take(0) =~= lb.take(0));
    } else {
        let (t1, k1) = choose|t: u64, k: int| #[trigger]
            committed(h, c.net, c.members, t, k) && ca <= k && t <= ta && agree(la, h.llog[t], ca);
        let (t2, k2) = choose|t: u64, k: int| #[trigger]
            committed(h, c.net, c.members, t, k) && cb <= k && t <= tb && agree(lb, h.llog[t], cb);
        lemma_agree_less(la, h.llog[t1], ca, k);
        lemma_agree_less(lb, h.llog[t2], cb, k);
        if t1 < t2 {
            lemma_leader_complete(c, h, t1, k1, t2);
            lemma_agree_less(h.llog[t2], h.llog[t1], k1, k);
        } else if t2 < t1 {
            lemma_leader_complete(c, h, t2, k2, t1);
            lemma_agree_less(h.llog[t1], h.llog[t2], k2, k);
        }
    }
}

/// Where the entry before the leader's agrees, all before it agrees too.
proof fn lemma_prev_agrees(
    c: Cluster,
    h: History,
    past: Seq<EntryView>,
    log: LogView,
    t: u64,
    prev: u64,
)
    requires
        inv(c, h),
        log.wf(),
        log_ok(past, log),
        genuine(h, past + log.entries),
        h.leaders.contains_key(t),
        prev <= h.llog[t].len(),
        prev == 0 || log.term_at(prev) == tail_term(h.llog[t].take(prev as int)),
    ensures
        agree(past + log.entries, h.llog[t], prev as int),
{
    let l = h.llog[t];
    let le = past + log.entries;
    assert(lead_ok(c, h, t));
    if prev > 0 {
        let u = l.take(prev as int).last().term;
        assert(u == l[prev - 1].term);
        assert(u >= 1);
        assert(le[prev - 1].term == u) by {
            if prev == past.len() {
                assert(le[prev - 1] == past.last());
            } else {
                assert(le[prev - 1] == log.live(prev));
            }
        }
        assert(genuine_at(h, le, prev - 1));
        assert(genuine_at(h, l, prev - 1));
        lemma_agree_trans(l, h.llog[u], h.llog[u], prev as int);
        lemma_agree_trans(le, h.llog[u], l, prev as int);
    } else {
        assert(le.take(0) =~= l.take(0));
    }
}

/// What was folded away of the present leader's log, every member still holds.
proof fn lemma_gap_agrees(c: Cluster, h: History, i: usize, t: u64, s: int)
    requires
        inv(c, h),
        is_member(c.members, i as int),
        h.leaders.contains_key(t),
        t <= c.nodes[i].term,
        0 <= s <= h.llog[t].len(),
        folded_ok(h, c.net, c.members, t, h.llog[t].take(s)),
    ensures
        agree(c.stored(i), h.llog[t], s),
{
    reveal(folded_ok);
    let l = h.llog[t];
    let past = l.take(s);
    if s == 0 {
        assert(c.stored(i).take(0) =~= l.take(0));
    } else {
        let u = choose|u: u64| #[trigger] folded_by(h, c.net, c.members, u, past) && u <= t;
        let m = h.llog[u];
        assert(acked(h, c.net, i, u, s));
        let (t0, k0) = choose|t0: u64, k0: int| #[trigger]
            committed(h, c.net, c.members, t0, k0) && s <= k0 && t0 <= u && agree(
                m,
                h.llog[t0],
                s,
            );
        assert(carried(h, u, c.nodes[i].term + 1, s)) by {
            assert forall|v: u64| #[trigger]
                h.leaders.contains_key(v) && u < v < c.nodes[i].term + 1 implies agree(
                h.elog(v),
                m,
                s,
            ) by {
                lemma_leader_complete(c, h, t0, k0, v);
                lemma_agree_less(h.elog(v), h.llog[t0], k0, s);
                lemma_agree_trans(m, h.llog[t0], h.llog[t0], s);
                lemma_agree_trans(h.elog(v), h.llog[t0], m, s);
            }
        }
        assert(ack_ok(c, h, i, u, s));
        assert(past.take(s) =~= l.take(s));
        assert(agree(l, m, s));
        lemma_agree_trans(l, m, m, s);
        lemma_agree_trans(c.stored(i), m, l, s);
    }
}

/// What was folded away of a leader's log is no longer than what every member has stored.
proof fn lemma_gap_held(c: Cluster, h: History, i: usize, t: u64, s: int)
    requires
        inv(c, h),
        is_member(c.members, i as int),
        h.leaders.contains_key(t),
        0 <= s <= h.llog[t].len(),
        folded_ok(h, c.net, c.members, t, h.llog[t].take(s)),
    ensures
        s <= c.stored(i).len(),
{
    reveal(folded_ok);
    if s != 0 {
        let past = h.llog[t].take(s);
        let u = choose|u: u64| #[trigger] folded_by(h, c.net, c.members, u, past) && u <= t;
        let m = h.llog[u];
        assert(acked(h, c.net, i, u, s));
        let (t0, k0) = choose|t0: u64, k0: int| #[trigger]
            committed(h, c.net, c.members, t0, k0) && s <= k0 && t0 <= u && agree(
                m,
                h.llog[t0],
                s,
            );
        assert(carried(h, u, c.nodes[i].term + 1, s)) by {
            assert forall|v: u64| #[trigger]
                h.leaders.contains_key(v) && u < v < c.nodes[i].term + 1 implies agree(
                h.elog(v),
                m,
                s,
            ) by {
                lemma_leader_complete(c, h, t0, k0, v);
                lemma_agree_less(h.elog(v), h.llog[t0], k0, s);
                lemma_agree_trans(m, h.llog[t0], h.llog[t0], s);
                lemma_agree_trans(h.elog(v), h.llog[t0], m, s);
            }
        }
        assert(ack_ok(c, h, i, u, s));
    }
}

/// What taking over the leader's entries from `s` on does to a log that agrees with the leader up
/// to `s`: nothing, or it becomes what the leader sent; and it now agrees with the leader as far as
/// the message reaches.
proof fn lemma_merge_agrees(
    c: Cluster,
    h: History,
    past: Seq<EntryView>,
    log: LogView,
    t: u64,
    s: int,
    entries: Seq<EntryView>,
)
    requires
        inv(c, h),
        log.wf(),
        log_ok(past, log),
        genuine(h, past + log.entries),
        h.leaders.contains_key(t),
        0 <= s,
        s + entries.len() <= h.llog[t].len(),
        entries == h.llog[t].subrange(s, s + entries.len()),
        agree(past + log.entries, h.llog[t], s),
        mergeable(log, entries),
    ensures
        ({
            let m = past + merge(log, entries).entries;
            let end = s + entries.len();
            &&& agree(m, h.llog[t], end)
            &&& m == past + log.entries || (m == h.llog[t].take(end) && !agree(
                past + log.entries,
                h.llog[t],
                end,
            ))
        }),
    decreases entries.len(),
{
    let l = h.llog[t];
    let le = past + log.entries;
    let r = past.len() as int;
    assert(lead_ok(c, h, t));
    if entries.len() > 0 {
        let init = entries.drop_last();
        let e = entries.last();
        let j = s + init.len();
        assert(init =~= l.subrange(s, j));
        lemma_merge_agrees(c, h, past, log, t, s, init);
        lemma_merge_wf(log, init);
        let ml = merge(log, init);
        let m = past + ml.entries;
        assert(e == l[j]);
        assert(e.index == j + 1);
        assert(e.term >= 1);
        ml.lemma_last_index();
        assert(l.take(j + 1).drop_last() =~= l.take(j));
        if holds(ml, e) {
            assert(m.len() >= j + 1);
            assert(m == le);
            assert(le[j].term == e.term) by {
                if j + 1 == r {
                    assert(m[j] == past.last());
                } else {
                    assert(m[j] == ml.live(e.index));
                }
            }
            assert(genuine_at(h, le, j));
            assert(genuine_at(h, l, j));
            lemma_agree_trans(l, h.llog[e.term], h.llog[e.term], j + 1);
            lemma_agree_trans(le, h.llog[e.term], l, j + 1);
        } else {
            let kept = accept(ml, e).entries;
            assert(ml.live_before(e.index) == j - r);
            assert(kept == ml.entries.take(j - r).push(e));
            let now = past + kept;
            assert(now =~= m.take(j).push(e));
            assert(now =~= l.take(j + 1)) by {
                assert(m.take(j) == l.take(j));
            }
            if agree(le, l, j + 1) {
                lemma_agree_less(le, l, j + 1, j);
                assert(m == le);
                lemma_agree_less(le, l, j + 1, j + 1);
                assert(le[j] == l[j]);
                assert(m[j] == ml.live(e.index));
                assert(false);
            }
            assert(now.take(j + 1) =~= l.take(j + 1));
        }
    }
}

/// Taking over the leader's entries drops nothing on which the log and the leader agree.
proof fn lemma_merge_keeps(
    c: Cluster,
    h: History,
    past: Seq<EntryView>,
    log: LogView,
    t: u64,
    s: int,
    entries: Seq<EntryView>,
    other: Seq<EntryView>,
    k: int,
)
    requires
        inv(c, h),
        log.wf(),
        log_ok(past, log),
        genuine(h, past + log.entries),
        h.leaders.contains_key(t),
        0 <= s,
        s + entries.len() <= h.llog[t].len(),
        entries == h.llog[t].subrange(s, s + entries.len()),
        agree(past + log.entries, h.llog[t], s),
        mergeable(log, entries),
        agree(past + log.entries, other, k),
        agree(h.llog[t], other, k),
    ensures
        agree(past + merge(log, entries).entries, other, k),
{
    lemma_merge_agrees(c, h, past, log, t, s, entries);
    let le = past + log.entries;
    let m = past + merge(log, entries).entries;
    let end = s + entries.len();
    let l = h.llog[t];
    if m != le {
        lemma_agree_trans(l, other, other, k);
        lemma_agree_trans(le, other, l, k);
        if k >= end {
            lemma_agree_less(le, l, k, end);
        }
        assert(m.take(k) =~= l.take(k));
        lemma_agree_trans(m, l, other, k);
    }
}

/// Whether `h2` remembers all that `h` does; the logs of leaders may have grown.
spec fn extends(h: History, h2: History) -> bool {
    &&& forall|x: (u64, usize)| #[trigger]
        h.cands.contains_key(x) ==> h2.cands.contains_key(x) && h2.cands[x] == h.cands[x]
    &&& forall|x: (u64, usize)| #[trigger]
        h.votes.contains_key(x) ==> h2.votes.contains_key(x) && h2.votes[x] == h.votes[x]
    &&& forall|t: u64| #[trigger]
        h.leaders.contains_key(t) ==> {
            &&& h2.leaders.contains_key(t)
            &&& h2.leaders[t] == h.leaders[t]
            &&& h2.quorum[t] == h.quorum[t]
            &&& agree(h2.llog[t], h.llog[t], h.llog[t].len() as int)
        }
}

proof fn lemma_genuine_extends(h: History, h2: History, l: Seq<EntryView>)
    requires
        extends(h, h2),
        genuine(h, l),
    ensures
        genuine(h2, l),
{
    assert forall|k: int| 0 <= k < l.len() implies genuine_at(h2, l, k) by {
        assert(genuine_at(h, l, k));
        let u = l[k].term;
        assert(h.leaders.contains_key(u));
        lemma_agree_less(h2.llog[u], h.llog[u], h.llog[u].len() as int, k + 1);
    }
}

proof fn lemma_acked_extends(
    h: History,
    net: Set<Packet>,
    h2: History,
    net2: Set<Packet>,
    p: usize,
    t: u64,
    k: int,
)
    requires
        extends(h, h2),
        net.subset_of(net2),
        acked(h, net, p, t, k),
    ensures
        acked(h2, net2, p, t, k),
{
    if h.leaders[t] != p {
        let pk = choose|pk: Packet| #[trigger]
            net.contains(pk) && pk.from == p && is_ack(pk.msg, t, k);
        assert(net2.contains(pk));
    }
}

proof fn lemma_committed_extends(
    h: History,
    net: Set<Packet>,
    h2: History,
    net2: Set<Packet>,
    members: Seq<usize>,
    t: u64,
    k: int,
)
    requires
        extends(h, h2),
        net.subset_of(net2),
        committed(h, net, members, t, k),
    ensures
        committed(h2, net2, members, t, k),
{
    let a = ack_set(h, net, members, t, k);
    let b = ack_set(h2, net2, members, t, k);
    assert forall|p: usize| a.contains(p) implies b.contains(p) by {
        lemma_acked_extends(h, net, h2, net2, p, t, k);
    }
    assert(b.subset_of(members.to_set()));
    lemma_len_subset(b, members.to_set());
    lemma_len_subset(a, b);
    lemma_agree_less(h2.llog[t], h.llog[t], h.llog[t].len() as int, k);
}

proof fn lemma_commit_extends(
    h: History,
    net: Set<Packet>,
    h2: History,
    net2: Set<Packet>,
    members: Seq<usize>,
    term: u64,
    term2: u64,
    l: Seq<EntryView>,
    l2: Seq<EntryView>,
    c: int,
)
    requires
        extends(h, h2),
        net.subset_of(net2),
        commit_ok(h, net, members, term, l, c),
        term <= term2,
        c == 0 || agree(l2, l, c),
    ensures
        commit_ok(h2, net2, members, term2, l2, c),
{
    if c != 0 {
        let (t, k) = choose|t: u64, k: int| #[trigger]
            committed(h, net, members, t, k) && c <= k && t <= term && agree(l, h.llog[t], c);
        lemma_committed_extends(h, net, h2, net2, members, t, k);
        lemma_agree_less(h2.llog[t], h.llog[t], h.llog[t].len() as int, c);
        lemma_agree_trans(h2.llog[t], h.llog[t], h.llog[t], c);
        lemma_agree_trans(l, h.llog[t], h2.llog[t], c);
        lemma_agree_trans(l2, l, h2.llog[t], c);
        assert(committed(h2, net2, members, t, k) && c <= k && t <= term2 && agree(
            l2,
            h2.llog[t],
            c,
        ));
    }
}

proof fn lemma_folded_extends(
    h: History,
    net: Set<Packet>,
    h2: History,
    net2: Set<Packet>,
    members: Seq<usize>,
    term: u64,
    term2: u64,
    past: Seq<EntryView>,
)
    requires
        extends(h, h2),
        net.subset_of(net2),
        folded_ok(h, net, members, term, past),
        term <= term2,
    ensures
        folded_ok(h2, net2, members, term2, past),
{
    reveal(folded_ok);
    if past.len() != 0 {
        let t = choose|t: u64| #[trigger] folded_by(h, net, members, t, past) && t <= term;
        let n = past.len() as int;
        let l = h.llog[t];
        let l2 = h2.llog[t];
        lemma_agree_less(l2, l, l.len() as int, n);
        lemma_agree_trans(l2, l, l, n);
        lemma_agree_trans(past, l, l2, n);
        lemma_commit_extends(h, net, h2, net2, members, t, t, l, l2, n);
        assert forall|p: usize| #[trigger] is_member(members, p as int) implies acked(
            h2,
            net2,
            p,
            t,
            n,
        ) by {
            assert(acked(h, net, p, t, n));
            lemma_acked_extends(h, net, h2, net2, p, t, n);
        }
        assert(folded_by(h2, net2, members, t, past));
    }
}

proof fn lemma_carried_extends(h: History, h2: History, t: u64, hi: int, k: int)
    requires
        extends(h, h2),
        carried(h2, t, hi, k),
        h.leaders.contains_key(t),
        0 <= k <= h.llog[t].len(),
        forall|u: u64| #[trigger]
            h.leaders.contains_key(u) ==> h.cands.contains_key((u, h.leaders[u])),
    ensures
        carried(h, t, hi, k),
{
    lemma_agree_less(h2.llog[t], h.llog[t], h.llog[t].len() as int, k);
    assert forall|u: u64| #[trigger] h.leaders.contains_key(u) && t < u < hi implies agree(
        h.elog(u),
        h.llog[t],
        k,
    ) by {
        assert(h2.leaders.contains_key(u));
        assert(h2.elog(u) == h.elog(u));
        lemma_agree_trans(h.elog(u), h2.llog[t], h.llog[t], k);
    }
}

proof fn lemma_packet_extends(c: Cluster, h: History, c2: Cluster, h2: History, pk: Packet)
    requires
        extends(h, h2),
        c.net.subset_of(c2.net),
        c.members == c2.members,
        packet_ok(c, h, pk),
        c.nodes[pk.from].term <= c2.nodes[pk.from].term,
    ensures
        packet_ok(c2, h2, pk),
{
    match pk.msg {
        MsgView::RequestVote { term, candidate, last_log_index, last_log_term } => {},
        MsgView::RequestVoteResp { term, granted } => {},
        MsgView::AppendEntries {
            term,
            leader,
            prev_log_index,
            prev_log_term,
            entries,
            leader_commit,
        } => {
            let l = h.llog[term];
            let l2 = h2.llog[term];
            let s = choose|s: int| #[trigger]
                sent_from(
                    h,
                    c.net,
                    c.members,
                    term,
                    prev_log_index,
                    prev_log_term,
                    entries,
                    leader_commit,
                    s,
                );
            let end = s + entries.len();
            lemma_agree_less(l2, l, l.len() as int, end);
            lemma_agree_less(l2, l, l.len() as int, s);
            lemma_agree_less(l2, l, l.len() as int, leader_commit as int);
            assert(l2.subrange(s, end) =~= l.subrange(s, end));
            if s != prev_log_index {
                lemma_folded_extends(h, c.net, h2, c2.net, c.members, term, term, l.take(s));
            }
            assert(sent_from(
                h2,
                c2.net,
                c2.members,
                term,
                prev_log_index,
                prev_log_term,
                entries,
                leader_commit,
                s,
            ));
            lemma_commit_extends(
                h,
                c.net,
                h2,
                c2.net,
                c.members,
                term,
                term,
                l,
                l2,
                leader_commit as int,
            );
        },
        MsgView::AppendEntriesResp { term, success, match_index } => {},
    }
}

/// What is left to show when member `i` moves from one state to another.
spec fn local_ok(c: Cluster, h: History, c2: Cluster, h2: History, i: usize) -> bool {
    &&& inv(c, h)
    &&& extends(h, h2)
    &&& is_member(c.members, i as int)
    &&& c2.members == c.members
    &&& c.net.subset_of(c2.net)
    &&& forall|j: usize| j != i ==> #[trigger] c2.nodes[j] == c.nodes[j]
    &&& forall|j: usize| j != i ==> #[trigger] c2.folded[j] == c.folded[j]
    &&& c.nodes[i].term <= c2.nodes[i].term
    &&& node_ok(c2, h2, i)
    &&& forall|pk: Packet| #[trigger]
        c2.net.contains(pk) && !c.net.contains(pk) ==> pk.from == i && packet_ok(c2, h2, pk)
    &&& forall|t: u64, p: usize| #[trigger]
        h2.votes.contains_key((t, p)) && !h.votes.contains_key((t, p)) ==> p == i && vote_ok(
            c2,
            h2,
            t,
            p,
        )
    &&& forall|t: u64| #[trigger]
        h.votes.contains_key((t, i)) && t == c2.nodes[i].term ==> c2.nodes[i].vote == Some(
            h.votes[(t, i)].0,
        )
    &&& forall|t: u64, p: usize| #[trigger]
        h2.cands.contains_key((t, p)) && !h.cands.contains_key((t, p)) ==> p == i && cand_ok(
            c2,
            h2,
            t,
            p,
        )
    &&& forall|t: u64| #[trigger]
        h2.leaders.contains_key(t) && (!h.leaders.contains_key(t) || h2.llog[t] != h.llog[t])
            ==> h2.leaders[t] == i && lead_ok(c2, h2, t)
    &&& forall|t: u64| #[trigger]
        h.leaders.contains_key(t) ==> h2.llog.contains_key(t) && h2.quorum.contains_key(t)
    &&& forall|t: u64, k: int| #[trigger] ack_ok(c2, h2, i, t, k)
    &&& forall|tv: u64, t: u64, k: int| #[trigger] voter_ok(c2, h2, tv, i, t, k)
}

/// An acknowledgement by a member that did not move is not new.
proof fn lemma_acked_back(
    c: Cluster,
    h: History,
    c2: Cluster,
    h2: History,
    i: usize,
    p: usize,
    t: u64,
    k: int,
)
    requires
        local_ok(c, h, c2, h2, i),
        p != i,
        acked(h2, c2.net, p, t, k),
    ensures
        acked(h, c.net, p, t, k),
        agree(h2.llog[t], h.llog[t], k),
{
    if h2.leaders[t] == p {
        assert(h.leaders.contains_key(t) && h2.llog[t] == h.llog[t]);
    } else {
        let pk = choose|pk: Packet| #[trigger]
            c2.net.contains(pk) && pk.from == p && is_ack(pk.msg, t, k);
        assert(c.net.contains(pk));
        assert(packet_ok(c, h, pk));
        assert(h.leaders.contains_key(t));
        lemma_agree_less(h2.llog[t], h.llog[t], h.llog[t].len() as int, k);
    }
}

proof fn lemma_other_node_ok(
    c: Cluster,
    h: History,
    c2: Cluster,
    h2: History,
    i: usize,
    j: usize,
)
    requires
        local_ok(c, h, c2, h2, i),
        is_member(c.members, j as int),
        j != i,
    ensures
        node_ok(c2, h2, j),
{
    assert(node_ok(c, h, j));
    let n = c.nodes[j];
    assert(c2.nodes[j] == n);
    assert(c2.folded[j] == c.folded[j]);
    let l = c.stored(j);
    assert(c2.stored(j) == l);
    lemma_genuine_extends(h, h2, l);
    lemma_folded_extends(h, c.net, h2, c2.net, c.members, n.term, n.term, c.folded[j]);
    if n.commit != 0 {
        assert(l.take(n.commit as int) =~= l.take(n.commit as int));
        assert(n.commit <= l.len());
    }
    lemma_commit_extends(
        h,
        c.net,
        h2,
        c2.net,
        c.members,
        n.term,
        n.term,
        l,
        l,
        n.commit as int,
    );
    if n.role == Role::Candidate {
        if h2.leaders.contains_key(n.term) && h2.leaders[n.term] == j {
            assert(h.leaders.contains_key(n.term));
        }
        assert(candidate_ok(h2, n, l));
    }
    if n.role == Role::Leader {
        assert(h2.leaders[n.term] == j);
        assert(h2.llog[n.term] == h.llog[n.term]);
        assert forall|x: int| 0 <= x < c.members.len() implies peer_ok(
            c2.net,
            h2,
            n,
            l,
            #[trigger] c.members[x],
        ) by {
            let q = c.members[x];
            assert(peer_ok(c.net, h, n, l, q));
            if n.matched[q as int] != 0 {
                lemma_acked_extends(h, c.net, h2, c2.net, q, n.term, n.matched[q as int] as int);
            }
        }
    }
}

/// What every part of the invariant needs of a move follows from what is shown of the member that
/// moved.
#[verifier::spinoff_prover]
#[verifier::rlimit(40)]
proof fn lemma_move(c: Cluster, h: History, c2: Cluster, h2: History, i: usize)
    requires
        local_ok(c, h, c2, h2, i),
    ensures
        inv(c2, h2),
{
    assert forall|j: usize| #[trigger] is_member(c2.members, j as int) implies node_ok(
        c2,
        h2,
        j,
    ) by {
        if j != i {
            lemma_other_node_ok(c, h, c2, h2, i, j);
        }
    }
    assert forall|j: usize| c.nodes[j].term <= #[trigger] c2.nodes[j].term by {}
    assert forall|pk: Packet| #[trigger] c2.net.contains(pk) implies packet_ok(c2, h2, pk) by {
        if c.net.contains(pk) {
            lemma_packet_extends(c, h, c2, h2, pk);
        }
    }
    assert forall|t: u64, p: usize| #[trigger] h2.votes.contains_key((t, p)) implies vote_ok(
        c2,
        h2,
        t,
        p,
    ) by {
        if h.votes.contains_key((t, p)) {
            assert(vote_ok(c, h, t, p));
            lemma_genuine_extends(h, h2, h.votes[(t, p)].1);
        }
    }
    assert forall|t: u64, p: usize| #[trigger] h2.cands.contains_key((t, p)) implies cand_ok(
        c2,
        h2,
        t,
        p,
    ) by {
        if h.cands.contains_key((t, p)) {
            assert(cand_ok(c, h, t, p));
            lemma_genuine_extends(h, h2, h.cands[(t, p)]);
        }
    }
    assert forall|t: u64| #[trigger] h2.leaders.contains_key(t) implies lead_ok(c2, h2, t) by {
        if h.leaders.contains_key(t) && h2.llog[t] == h.llog[t] {
            assert(lead_ok(c, h, t));
            lemma_genuine_extends(h, h2, h.llog[t]);
            assert(h2.elog(t) == h.elog(t));
        }
    }
    assert forall|p: usize, t: u64, k: int| #[trigger] ack_ok(c2, h2, p, t, k) by {
        if p != i && is_member(c2.members, p as int) && acked(h2, c2.net, p, t, k) && carried(
            h2,
            t,
            c2.nodes[p].term + 1,
            k,
        ) {
            lemma_acked_back(c, h, c2, h2, i, p, t, k);
            assert(forall|u: u64| #[trigger]
                h.leaders.contains_key(u) ==> lead_ok(c, h, u));
            lemma_carried_extends(h, h2, t, c2.nodes[p].term + 1, k);
            assert(ack_ok(c, h, p, t, k));
            lemma_agree_trans(h2.llog[t], h.llog[t], h.llog[t], k);
            assert(c2.folded[p] == c.folded[p] && c2.nodes[p] == c.nodes[p]);
            assert(c2.stored(p) == c.stored(p));
            lemma_agree_trans(c.stored(p), h.llog[t], h2.llog[t], k);
        }
    }
    assert forall|tv: u64, p: usize, t: u64, k: int| #[trigger]
        voter_ok(c2, h2, tv, p, t, k) by {
        if p != i && h2.votes.contains_key((tv, p)) && t < tv && (h2.leaders.contains_key(tv)
            ==> h2.quorum[tv].contains(p)) && acked(h2, c2.net, p, t, k) && carried(
            h2,
            t,
            tv as int,
            k,
        ) {
            lemma_acked_back(c, h, c2, h2, i, p, t, k);
            assert(forall|u: u64| #[trigger]
                h.leaders.contains_key(u) ==> lead_ok(c, h, u));
            lemma_carried_extends(h, h2, t, tv as int, k);
            assert(voter_ok(c, h, tv, p, t, k));
            lemma_agree_trans(h2.llog[t], h.llog[t], h.llog[t], k);
            lemma_agree_trans(h.votes[(tv, p)].1, h.llog[t], h2.llog[t], k);
        }
    }
}

proof fn lemma_extends_self(c: Cluster, h: History)
    requires
        inv(c, h),
    ensures
        extends(h, h),
{
}

proof fn lemma_extends_trans(h: History, h2: History, h3: History)
    requires
        extends(h, h2),
        extends(h2, h3),
    ensures
        extends(h, h3),
{
    assert forall|t: u64| #[trigger] h.leaders.contains_key(t) implies agree(
        h3.llog[t],
        h.llog[t],
        h.llog[t].len() as int,
    ) by {
        assert(h2.leaders.contains_key(t));
        let k = h.llog[t].len() as int;
        lemma_agree_less(h3.llog[t], h2.llog[t], h2.llog[t].len() as int, k);
        lemma_agree_trans(h3.llog[t], h2.llog[t], h.llog[t], k);
    }
}

/// Two moves of one member are one.
proof fn lemma_moved_twice(
    c: Cluster,
    i: usize,
    a: (NodeView, Seq<Sent>),
    b: (NodeView, Seq<Sent>),
)
    ensures
        c.moved(i, a).moved(i, b) == c.moved(i, (b.0, a.1 + b.1)),
{
    let l = c.moved(i, a).moved(i, b);
    let r = c.moved(i, (b.0, a.1 + b.1));
    assert(l.nodes =~= r.nodes);
    assert forall|pk: Packet| l.net.contains(pk) == r.net.contains(pk) by {
        let x = (pk.to, pk.msg);
        let s = a.1 + b.1;
        if a.1.contains(x) {
            let k = choose|k: int| 0 <= k < a.1.len() && a.1[k] == x;
            assert(s[k] == x);
        }
        if b.1.contains(x) {
            let k = choose|k: int| 0 <= k < b.1.len() && b.1[k] == x;
            assert(s[a.1.len() + k] == x);
        }
        if s.contains(x) {
            let k = choose|k: int| 0 <= k < s.len() && s[k] == x;
            if k < a.1.len() {
                assert(a.1[k] == x);
            } else {
                assert(b.1[k - a.1.len()] == x);
            }
        }
    }
    assert(l.net =~= r.net);
}

/// A move that leaves the log and what the proof remembers alone.
proof fn lemma_same_history(c: Cluster, h: History, i: usize, r: (NodeView, Seq<Sent>))
    requires
        inv(c, h),
        is_member(c.members, i as int),
        c.nodes[i].term <= r.0.term,
        r.0.log.entries == c.nodes[i].log.entries,
        node_ok(c.moved(i, r), h, i),
        forall|t: u64| #[trigger]
            h.votes.contains_key((t, i)) && t == r.0.term ==> r.0.vote == Some(h.votes[(t, i)].0),
        forall|s: Sent| #[trigger]
            r.1.contains(s) ==> packet_ok(
                c.moved(i, r),
                h,
                Packet { from: i, to: s.0, msg: s.1 },
            ) && !(exists|t: u64, k: int| is_ack(s.1, t, k)),
    ensures
        inv(c.moved(i, r), h),
{
    let c2 = c.moved(i, r);
    lemma_extends_self(c, h);
    assert forall|pk: Packet| #[trigger]
        c2.net.contains(pk) && !c.net.contains(pk) implies pk.from == i && packet_ok(
        c2,
        h,
        pk,
    ) by {
        assert(r.1.contains((pk.to, pk.msg)));
        assert(pk == Packet { from: i, to: pk.to, msg: pk.msg });
    }
    assert forall|t: u64, k: int| acked(h, c2.net, i, t, k) implies acked(h, c.net, i, t, k) by {
        if h.leaders[t] != i {
            let pk = choose|pk: Packet| #[trigger]
                c2.net.contains(pk) && pk.from == i && is_ack(pk.msg, t, k);
            if !c.net.contains(pk) {
                assert(r.1.contains((pk.to, pk.msg)));
            }
        }
    }
    assert(c2.stored(i) == c.stored(i));
    assert forall|t: u64, k: int| #[trigger] ack_ok(c2, h, i, t, k) by {
        assert(ack_ok(c, h, i, t, k));
        if carried(h, t, c2.nodes[i].term + 1, k) {
            assert(carried(h, t, c.nodes[i].term + 1, k));
        }
    }
    assert forall|tv: u64, t: u64, k: int| #[trigger] voter_ok(c2, h, tv, i, t, k) by {
        assert(voter_ok(c, h, tv, i, t, k));
    }
    assert forall|t: u64| #[trigger] h.leaders.contains_key(t) implies h.llog.contains_key(t)
        && h.quorum.contains_key(t) by {
        assert(lead_ok(c, h, t));
    }
    lemma_move(c, h, c2, h, i);
}

/// What a member committed stays safe as the network fills.
proof fn lemma_commit_kept(c: Cluster, h: History, i: usize, net2: Set<Packet>, term2: u64)
    requires
        inv(c, h),
        is_member(c.members, i as int),
        c.net.subset_of(net2),
        c.nodes[i].term <= term2,
    ensures
        commit_ok(
            h,
            net2,
            c.members,
            term2,
            c.stored(i),
            c.nodes[i].commit as int,
        ),
        folded_ok(h, net2, c.members, term2, c.folded[i]),
{
    let n = c.nodes[i];
    assert(node_ok(c, h, i));
    lemma_extends_self(c, h);
    lemma_commit_extends(
        h,
        c.net,
        h,
        net2,
        c.members,
        n.term,
        term2,
        c.stored(i),
        c.stored(i),
        n.commit as int,
    );
    lemma_folded_extends(h, c.net, h, net2, c.members, n.term, term2, c.folded[i]);
}

/// What the leader knows of its members stays true as the network fills.
proof fn lemma_leader_kept(c: Cluster, h: History, i: usize, net2: Set<Packet>)
    requires
        inv(c, h),
        is_member(c.members, i as int),
        c.net.subset_of(net2),
        c.nodes[i].role == Role::Leader,
    ensures
        leader_ok(net2, c.members, h, c.nodes[i], c.stored(i)),
{
    let n = c.nodes[i];
    assert(node_ok(c, h, i));
    lemma_extends_self(c, h);
    assert forall|x: int| 0 <= x < c.members.len() implies peer_ok(
        net2,
        h,
        n,
        c.stored(i),
        #[trigger] c.members[x],
    ) by {
        let q = c.members[x];
        assert(peer_ok(c.net, h, n, c.stored(i), q));
        if n.matched[q as int] != 0 {
            lemma_acked_extends(h, c.net, h, net2, q, n.term, n.matched[q as int] as int);
        }
    }
}

/// A move within a term that changes no more than timers, the known leader and what was applied,
/// or falls back to follower.
proof fn lemma_quiet(c: Cluster, h: History, i: usize, n2: NodeView)
    requires
        inv(c, h),
        is_member(c.members, i as int),
        n2.wf(),
        n2.id == i,
        n2.peers == c.members,
        n2.votes.len() == slots(c.members),
        n2.log.entries == c.nodes[i].log.entries,
        n2.log.snapshot_index == c.nodes[i].log.snapshot_index,
        n2.log.snapshot_term == c.nodes[i].log.snapshot_term,
        n2.log.snapshot_index <= n2.applied <= n2.commit,
        n2.term == c.nodes[i].term,
        n2.vote == c.nodes[i].vote,
        n2.commit == c.nodes[i].commit || n2.commit == 0,
        n2.role == Role::Follower || (n2.role == c.nodes[i].role && n2.votes == c.nodes[i].votes
            && n2.next == c.nodes[i].next && n2.matched == c.nodes[i].matched),
    ensures
        inv(c.moved(i, (n2, Seq::empty())), h),
{
    let n = c.nodes[i];
    let l = c.stored(i);
    let c2 = c.moved(i, (n2, Seq::empty()));
    assert(node_ok(c, h, i));
    assert(c2.stored(i) == l);
    lemma_commit_kept(c, h, i, c2.net, n.term);
    if n2.role == Role::Leader {
        lemma_leader_kept(c, h, i, c2.net);
        assert forall|x: int| 0 <= x < c.members.len() implies peer_ok(
            c2.net,
            h,
            n2,
            l,
            #[trigger] c.members[x],
        ) by {
            assert(peer_ok(c2.net, h, n, l, c.members[x]));
        }
    }
    assert(node_ok(c2, h, i));
    assert forall|t: u64| #[trigger]
        h.votes.contains_key((t, i)) && t == n2.term implies n2.vote == Some(
        h.votes[(t, i)].0,
    ) by {
        assert(vote_ok(c, h, t, i));
    }
    lemma_same_history(c, h, i, (n2, Seq::empty()));
}

/// Seeing a newer term.
proof fn lemma_new_term(c: Cluster, h: History, i: usize, term: u64)
    requires
        inv(c, h),
        is_member(c.members, i as int),
        term > c.nodes[i].term,
    ensures
        inv(c.moved(i, (c.nodes[i].as_follower(term), Seq::empty())), h),
{
    let n = c.nodes[i];
    let n2 = n.as_follower(term);
    let c2 = c.moved(i, (n2, Seq::empty()));
    assert(node_ok(c, h, i));
    assert(c2.stored(i) == c.stored(i));
    lemma_commit_kept(c, h, i, c2.net, term);
    assert(!h.votes.contains_key((term, i))) by {
        if h.votes.contains_key((term, i)) {
            assert(vote_ok(c, h, term, i));
        }
    }
    assert(node_ok(c2, h, i));
    lemma_same_history(c, h, i, (n2, Seq::empty()));
}

/// The tail of a log is where its last index and term say; before what is live no term is known.
proof fn lemma_log_tail(past: Seq<EntryView>, log: LogView)
    requires
        log.wf(),
        log_ok(past, log),
    ensures
        log.last_index() == (past + log.entries).len(),
        log.last_term() == tail_term(past + log.entries),
        forall|x: u64|
            past.len() <= x <= (past + log.entries).len() ==> #[trigger] log.term_at(x)
                == tail_term((past + log.entries).take(x as int)),
        forall|x: u64| x < past.len() ==> #[trigger] log.term_at(x) == 0,
        forall|x: u64| x > (past + log.entries).len() ==> #[trigger] log.term_at(x) == 0,
{
    let l = past + log.entries;
    log.lemma_last_index();
    assert(log.last_term() == tail_term(l)) by {
        if log.entries.len() > 0 {
            assert(l.last() == log.entries.last());
        } else {
            assert(l =~= past);
        }
    }
    assert forall|x: u64| past.len() <= x <= l.len() implies #[trigger] log.term_at(x) == tail_term(
        l.take(x as int),
    ) by {
        if x > 0 {
            assert(l.take(x as int).last() == l[x - 1]);
            if x == past.len() {
                assert(l[x - 1] == past.last());
            } else {
                assert(l[x - 1] == log.live(x));
            }
        }
    }
}

/// What a leader sends describes its log.
proof fn lemma_append_msg_ok(c: Cluster, h: History, i: usize, p: usize)
    requires
        inv(c, h),
        is_member(c.members, i as int),
        is_member(c.members, p as int),
        p != i,
        c.nodes[i].role == Role::Leader,
    ensures
        packet_ok(c, h, Packet { from: i, to: p, msg: c.nodes[i].append_msg(p).1 }),
{
    let n = c.nodes[i];
    let l = c.stored(i);
    let past = c.folded[i];
    assert(node_ok(c, h, i));
    lemma_log_tail(past, n.log);
    let x = choose|x: int| 0 <= x < c.members.len() && c.members[x] == p;
    assert(peer_ok(c.net, h, n, l, c.members[x]));
    assert(n.peers[x] < n.votes.len());
    let next = n.next[p as int];
    let prev = (next - 1) as u64;
    let s = if prev < past.len() {
        past.len() as int
    } else {
        prev as int
    };
    assert(n.log.entries_from(next) =~= l.subrange(s, l.len() as int));
    assert(l.take(past.len() as int) =~= past);
    assert(n.commit <= l.len());
    assert(h.llog[n.term] == l);
    assert(sent_from(
        h,
        c.net,
        c.members,
        n.term,
        prev,
        n.log.term_at(prev),
        n.log.entries_from(next),
        n.commit,
        s,
    ));
}

/// A leader sends what describes its log.
proof fn lemma_send_appends(c: Cluster, h: History, i: usize, n: NodeView, sent: Seq<Sent>)
    requires
        inv(c, h),
        is_member(c.members, i as int),
        n == c.nodes[i],
        n.role == Role::Leader,
        forall|s: Sent| #[trigger]
            sent.contains(s) ==> is_member(c.members, s.0 as int) && s.0 != i && s == n.append_msg(
                s.0,
            ),
    ensures
        inv(c.moved(i, (n, sent)), h),
{
    let c2 = c.moved(i, (n, sent));
    assert(node_ok(c, h, i));
    lemma_commit_kept(c, h, i, c2.net, n.term);
    lemma_leader_kept(c, h, i, c2.net);
    lemma_extends_self(c, h);
    assert(c2.nodes[i] == n);
    assert forall|s: Sent| #[trigger] sent.contains(s) implies packet_ok(
        c2,
        h,
        Packet { from: i, to: s.0, msg: s.1 },
    ) && !(exists|t: u64, k: int| is_ack(s.1, t, k)) by {
        lemma_append_msg_ok(c, h, i, s.0);
        lemma_packet_extends(c, h, c2, h, Packet { from: i, to: s.0, msg: s.1 });
    }
    assert forall|t: u64| #[trigger]
        h.votes.contains_key((t, i)) && t == n.term implies n.vote == Some(h.votes[(t, i)].0) by {
        assert(vote_ok(c, h, t, i));
    }
    lemma_same_history(c, h, i, (n, sent));
}

proof fn lemma_append_msgs(n: NodeView, k: nat)
    requires
        k <= n.peers.len(),
    ensures
        forall|s: Sent| #[trigger]
            n.append_msgs(k).contains(s) ==> is_member(n.peers, s.0 as int) && s.0 != n.id && s
                == n.append_msg(s.0),
    decreases k,
{
    if k > 0 {
        let prev = n.append_msgs((k - 1) as nat);
        lemma_append_msgs(n, (k - 1) as nat);
        assert forall|s: Sent| #[trigger] n.append_msgs(k).contains(s) implies is_member(
            n.peers,
            s.0 as int,
        ) && s.0 != n.id && s == n.append_msg(s.0) by {
            let x = choose|x: int| 0 <= x < n.append_msgs(k).len() && n.append_msgs(k)[x] == s;
            if x < prev.len() {
                assert(prev[x] == s);
                assert(prev.contains(s));
            } else {
                assert(s == n.append_msg(n.peers[k - 1]));
            }
        }
    }
}

proof fn lemma_vote_msgs(n: NodeView, k: nat)
    requires
        k <= n.peers.len(),
    ensures
        forall|s: Sent| #[trigger] n.vote_msgs(k).contains(s) ==> s.1 == n.vote_msg(),
    decreases k,
{
    if k > 0 {
        let prev = n.vote_msgs((k - 1) as nat);
        lemma_vote_msgs(n, (k - 1) as nat);
        assert forall|s: Sent| #[trigger] n.vote_msgs(k).contains(s) implies s.1
            == n.vote_msg() by {
            let x = choose|x: int| 0 <= x < n.vote_msgs(k).len() && n.vote_msgs(k)[x] == s;
            if x < prev.len() {
                assert(prev[x] == s);
                assert(prev.contains(s));
            }
        }
    }
}

/// Standing for election.
#[verifier::spinoff_prover]
#[verifier::rlimit(40)]
proof fn lemma_stand(c: Cluster, h: History, i: usize) -> (h2: History)
    requires
        inv(c, h),
        is_member(c.members, i as int),
        c.nodes[i].term < u64::MAX,
    ensures
        ({
            let n2 = c.nodes[i].as_candidate();
            inv(c.moved(i, (n2, n2.vote_msgs(n2.peers.len()))), h2)
        }),
        extends(h, h2),
{
    let n = c.nodes[i];
    let n2 = n.as_candidate();
    let sent = n2.vote_msgs(n2.peers.len());
    let c2 = c.moved(i, (n2, sent));
    let t2 = n2.term;
    let l = c.stored(i);
    assert(node_ok(c, h, i));
    assert(c2.stored(i) == l);
    assert(!h.votes.contains_key((t2, i))) by {
        if h.votes.contains_key((t2, i)) {
            assert(vote_ok(c, h, t2, i));
        }
    }
    assert(!h.cands.contains_key((t2, i))) by {
        if h.cands.contains_key((t2, i)) {
            assert(cand_ok(c, h, t2, i));
        }
    }
    let h2 = History {
        cands: h.cands.insert((t2, i), l),
        votes: h.votes.insert((t2, i), (i, l)),
        ..h
    };
    assert(forall|t: u64| #[trigger] h.leaders.contains_key(t) ==> lead_ok(c, h, t));
    assert(extends(h, h2));
    lemma_genuine_extends(h, h2, l);
    lemma_log_tail(c.folded[i], n.log);
    lemma_log_tail(c.folded[i], n2.log);
    lemma_folded_extends(h, c.net, h2, c2.net, c.members, n.term, t2, c.folded[i]);
    lemma_vote_msgs(n2, n2.peers.len());
    assert(c2.nodes[i] == n2);
    if n.commit != 0 {
        assert(l.take(n.commit as int) =~= l.take(n.commit as int));
    }
    lemma_commit_extends(
        h,
        c.net,
        h2,
        c2.net,
        c.members,
        n.term,
        t2,
        l,
        l,
        n.commit as int,
    );
    assert(!(h2.leaders.contains_key(t2) && h2.leaders[t2] == i)) by {
        if h.leaders.contains_key(t2) && h.leaders[t2] == i {
            assert(lead_ok(c, h, t2));
        }
    }
    assert(candidate_ok(h2, n2, l));
    assert(n2.wf()) by {
        let x = choose|x: int| 0 <= x < n.peers.len() && n.peers[x] == n.id;
        assert(n2.peers[x] == n2.id);
    }
    assert(node_ok(c2, h2, i));
    assert(vote_ok(c2, h2, t2, i));
    assert(cand_ok(c2, h2, t2, i));
    assert forall|pk: Packet| #[trigger]
        c2.net.contains(pk) && !c.net.contains(pk) implies pk.from == i && packet_ok(
        c2,
        h2,
        pk,
    ) by {
        assert(sent.contains((pk.to, pk.msg)));
        assert((pk.to, pk.msg).1 == n2.vote_msg());
    }
    assert forall|t: u64, k: int| acked(h2, c2.net, i, t, k) implies acked(h, c.net, i, t, k) by {
        if h.leaders[t] != i {
            let pk = choose|pk: Packet| #[trigger]
                c2.net.contains(pk) && pk.from == i && is_ack(pk.msg, t, k);
            if !c.net.contains(pk) {
                assert(sent.contains((pk.to, pk.msg)));
                assert((pk.to, pk.msg).1 == n2.vote_msg());
            }
        }
    }
    assert forall|t: u64, k: int| #[trigger] ack_ok(c2, h2, i, t, k) by {
        if acked(h2, c2.net, i, t, k) && carried(h2, t, t2 + 1, k) {
            lemma_carried_extends(h, h2, t, t2 + 1, k);
            assert(carried(h, t, n.term + 1, k));
            assert(ack_ok(c, h, i, t, k));
        }
    }
    assert forall|tv: u64, t: u64, k: int| #[trigger] voter_ok(c2, h2, tv, i, t, k) by {
        if h2.votes.contains_key((tv, i)) && t < tv && (h2.leaders.contains_key(tv)
            ==> h2.quorum[tv].contains(i)) && acked(h2, c2.net, i, t, k) && carried(
            h2,
            t,
            tv as int,
            k,
        ) {
            lemma_carried_extends(h, h2, t, tv as int, k);
            if tv == t2 {
                assert(carried(h, t, n.term + 1, k));
                assert(ack_ok(c, h, i, t, k));
            } else {
                assert(voter_ok(c, h, tv, i, t, k));
            }
        }
    }
    lemma_move(c, h, c2, h2, i);
    h2
}

proof fn lemma_slots_fit(members: Seq<usize>)
    requires
        forall|i: int| 0 <= i < members.len() ==> (#[trigger] members[i]) < usize::MAX,
    ensures
        slots(members) <= usize::MAX,
    decreases members.len(),
{
    if members.len() > 0 {
        lemma_slots_fit(members.drop_last());
        assert(members.last() == members[members.len() - 1]);
    }
}

/// The indices at which `flags` is set, as a set.
spec fn set_flags(flags: Seq<bool>) -> Set<usize> {
    Set::new(|q: usize| q < flags.len() && flags[q as int])
}

proof fn lemma_set_flags(flags: Seq<bool>)
    requires
        flags.len() <= usize::MAX,
    ensures
        set_flags(flags).finite(),
        set_flags(flags).len() == count_set(flags),
    decreases flags.len(),
{
    if flags.len() == 0 {
        assert(set_flags(flags) =~= Set::empty());
    } else {
        let init = flags.drop_last();
        lemma_set_flags(init);
        let q = (flags.len() - 1) as usize;
        if flags.last() {
            assert(set_flags(flags) =~= set_flags(init).insert(q));
        } else {
            assert(set_flags(flags) =~= set_flags(init));
        }
    }
}

/// Winning the election: no other member can have won it.
#[verifier::spinoff_prover]
#[verifier::rlimit(40)]
proof fn lemma_win(c: Cluster, h: History, i: usize) -> (h2: History)
    requires
        inv(c, h),
        is_member(c.members, i as int),
        c.nodes[i].role == Role::Candidate,
        count_set(c.nodes[i].votes) >= c.nodes[i].majority(),
    ensures
        inv(c.moved(i, (c.nodes[i].as_leader(), Seq::empty())), h2),
        extends(h, h2),
{
    let n = c.nodes[i];
    let n2 = n.as_leader();
    let c2 = c.moved(i, (n2, Seq::empty()));
    let t = n.term;
    let l = c.stored(i);
    assert(node_ok(c, h, i));
    assert(c2.stored(i) == l);
    assert(candidate_ok(h, n, l));
    assert(cand_ok(c, h, t, i));
    let q = set_flags(n.votes);
    lemma_slots_fit(c.members);
    lemma_set_flags(n.votes);
    assert forall|v: usize| #[trigger] q.contains(v) implies c.members.to_set().contains(v)
        && h.votes.contains_key((t, v)) && h.votes[(t, v)].0 == i by {
        assert(n.votes[v as int]);
        assert(vote_ok(c, h, t, v));
        let x = choose|x: int| 0 <= x < c.members.len() && c.members[x] == v as int;
        assert(c.members.contains(v));
    }
    assert(q.subset_of(c.members.to_set()));
    assert(!h.leaders.contains_key(t)) by {
        if h.leaders.contains_key(t) {
            assert(lead_ok(c, h, t));
            let v = lemma_majorities_meet(c.members, h.quorum[t], q);
            assert(h.votes[(t, v)].0 == i && h.votes[(t, v)].0 == h.leaders[t]);
        }
    }
    let h2 = History {
        leaders: h.leaders.insert(t, i),
        llog: h.llog.insert(t, l),
        quorum: h.quorum.insert(t, q),
        ..h
    };
    assert(extends(h, h2));
    lemma_genuine_extends(h, h2, l);
    lemma_log_tail(c.folded[i], n.log);
    lemma_folded_extends(h, c.net, h2, c2.net, c.members, t, t, c.folded[i]);
    assert(c2.nodes[i] == n2);
    if n.commit != 0 {
        assert(l.take(n.commit as int) =~= l.take(n.commit as int));
    }
    lemma_commit_extends(h, c.net, h2, c2.net, c.members, t, t, l, l, n.commit as int);
    assert(h2.elog(t) == l);
    assert(lead_ok(c2, h2, t)) by {
        assert(terms_in(l, 1, t as int));
        assert(numbered(l));
    }
    assert(leader_ok(c2.net, c2.members, h2, n2, l)) by {
        assert forall|x: int| 0 <= x < c2.members.len() implies peer_ok(
            c2.net,
            h2,
            n2,
            l,
            #[trigger] c2.members[x],
        ) by {
            let p = c2.members[x];
            assert(n.peers[x] < n.votes.len());
            assert(is_member(n.peers, p as int));
        }
    }
    assert(n2.wf());
    assert(node_ok(c2, h2, i));
    assert forall|u: u64| #[trigger]
        h.votes.contains_key((u, i)) && u == n2.term implies n2.vote == Some(
        h.votes[(u, i)].0,
    ) by {
        assert(vote_ok(c, h, u, i));
    }
    assert forall|u: u64, k: int| u != t && acked(h2, c2.net, i, u, k) implies acked(
        h,
        c.net,
        i,
        u,
        k,
    ) by {
        assert(c2.net =~= c.net);
    }
    assert forall|u: u64, k: int| #[trigger] ack_ok(c2, h2, i, u, k) by {
        if acked(h2, c2.net, i, u, k) && carried(h2, u, n2.term + 1, k) {
            if u == t {
                assert(agree(l, h2.llog[t], k));
            } else {
                lemma_carried_extends(h, h2, u, n2.term + 1, k);
                assert(ack_ok(c, h, i, u, k));
            }
        }
    }
    assert forall|tv: u64, u: u64, k: int| #[trigger] voter_ok(c2, h2, tv, i, u, k) by {
        if h2.votes.contains_key((tv, i)) && u < tv && (h2.leaders.contains_key(tv)
            ==> h2.quorum[tv].contains(i)) && acked(h2, c2.net, i, u, k) && carried(
            h2,
            u,
            tv as int,
            k,
        ) {
            assert(vote_ok(c, h, tv, i));
            assert(u != t);
            lemma_carried_extends(h, h2, u, tv as int, k);
            assert(voter_ok(c, h, tv, i, u, k));
        }
    }
    assert forall|u: u64| #[trigger] h.leaders.contains_key(u) implies h2.llog.contains_key(u)
        && h2.quorum.contains_key(u) by {
        assert(lead_ok(c, h, u));
    }
    lemma_move(c, h, c2, h2, i);
    h2
}

/// A candidate that may have won.
proof fn lemma_maybe_win(c: Cluster, h: History, i: usize) -> (h2: History)
    requires
        inv(c, h),
        is_member(c.members, i as int),
    ensures
        inv(c.moved(i, c.nodes[i].maybe_lead()), h2),
        extends(h, h2),
{
    let n = c.nodes[i];
    assert(node_ok(c, h, i));
    lemma_extends_self(c, h);
    if n.role == Role::Candidate && count_set(n.votes) >= n.majority() {
        let h2 = lemma_win(c, h, i);
        let n2 = n.as_leader();
        let c2 = c.moved(i, (n2, Seq::empty()));
        assert(c2.nodes[i] == n2);
        lemma_append_msgs(n2, n2.peers.len());
        lemma_send_appends(c2, h2, i, n2, n2.broadcast_append());
        lemma_moved_twice(c, i, (n2, Seq::empty()), (n2, n2.broadcast_append()));
        assert(Seq::<Sent>::empty() + n2.broadcast_append() =~= n2.broadcast_append());
        h2
    } else {
        lemma_quiet(c, h, i, n);
        h
    }
}

/// A vote arrives.
proof fn lemma_vote_arrives(c: Cluster, h: History, i: usize, from: usize)
    requires
        inv(c, h),
        is_member(c.members, i as int),
        c.nodes[i].role == Role::Candidate,
        c.net.contains(
            Packet {
                from,
                to: i,
                msg: MsgView::RequestVoteResp { term: c.nodes[i].term, granted: true },
            },
        ),
        from < c.nodes[i].votes.len(),
    ensures
        inv(
            c.moved(
                i,
                (
                    NodeView {
                        votes: c.nodes[i].votes.update(from as int, true),
                        ..c.nodes[i]
                    },
                    Seq::empty(),
                ),
            ),
            h,
        ),
{
    let n = c.nodes[i];
    let n2 = NodeView { votes: n.votes.update(from as int, true), ..n };
    let c2 = c.moved(i, (n2, Seq::empty()));
    let l = c.stored(i);
    assert(node_ok(c, h, i));
    assert(c2.stored(i) == l);
    assert(candidate_ok(h, n, l));
    lemma_commit_kept(c, h, i, c2.net, n.term);
    assert(packet_ok(
        c,
        h,
        Packet {
            from,
            to: i,
            msg: MsgView::RequestVoteResp { term: n.term, granted: true },
        },
    ));
    assert(candidate_ok(h, n2, l)) by {
        assert forall|q: usize|
            q < n2.votes.len() && #[trigger] n2.votes[q as int] implies h.votes.contains_key(
            (n2.term, q),
        ) && h.votes[(n2.term, q)].0 == n2.id by {
            if q != from {
                assert(n.votes[q as int]);
            }
        }
    }
    assert(node_ok(c2, h, i));
    assert forall|t: u64| #[trigger]
        h.votes.contains_key((t, i)) && t == n2.term implies n2.vote == Some(
        h.votes[(t, i)].0,
    ) by {
        assert(vote_ok(c, h, t, i));
    }
    lemma_same_history(c, h, i, (n2, Seq::empty()));
}

/// A vote request is answered.
#[verifier::spinoff_prover]
#[verifier::rlimit(40)]
proof fn lemma_vote_request(
    c: Cluster,
    h: History,
    i: usize,
    from: usize,
    term: u64,
    candidate: usize,
    last_log_index: u64,
    last_log_term: u64,
) -> (h2: History)
    requires
        inv(c, h),
        is_member(c.members, i as int),
        c.net.contains(
            Packet {
                from,
                to: i,
                msg: MsgView::RequestVote { term, candidate, last_log_index, last_log_term },
            },
        ),
        term <= c.nodes[i].term,
    ensures
        inv(
            c.moved(
                i,
                c.nodes[i].on_request_vote(term, candidate, last_log_index, last_log_term),
            ),
            h2,
        ),
        extends(h, h2),
{
    let n = c.nodes[i];
    let r = n.on_request_vote(term, candidate, last_log_index, last_log_term);
    let n2 = r.0;
    let c2 = c.moved(i, r);
    let l = c.stored(i);
    assert(node_ok(c, h, i));
    lemma_extends_self(c, h);
    lemma_log_tail(c.folded[i], n.log);
    lemma_commit_kept(c, h, i, c2.net, n.term);
    assert(c2.nodes[i] == n2);
    assert(c2.stored(i) == l);
    if n.role == Role::Leader {
        lemma_leader_kept(c, h, i, c2.net);
        assert forall|x: int| 0 <= x < c.members.len() implies peer_ok(
            c2.net,
            h,
            n2,
            l,
            #[trigger] c.members[x],
        ) by {
            assert(peer_ok(c2.net, h, n, l, c.members[x]));
        }
    }
    assert(packet_ok(
        c,
        h,
        Packet {
            from,
            to: i,
            msg: MsgView::RequestVote { term, candidate, last_log_index, last_log_term },
        },
    ));
    let granted = term >= n.term && n.grants(candidate, last_log_index, last_log_term);
    let reply = (candidate, MsgView::RequestVoteResp { term: n.term, granted });
    assert forall|s: Sent| r.1.contains(s) implies s == reply by {}
    if !granted || n.vote is Some {
        assert(node_ok(c2, h, i));
        assert forall|t: u64| #[trigger]
            h.votes.contains_key((t, i)) && t == n2.term implies n2.vote == Some(
            h.votes[(t, i)].0,
        ) by {
            assert(vote_ok(c, h, t, i));
        }
        lemma_same_history(c, h, i, r);
        h
    } else {
        assert(term == n.term);
        assert(!h.votes.contains_key((term, i)));
        let h2 = History { votes: h.votes.insert((term, i), (candidate, l)), ..h };
        assert(extends(h, h2));
        assert(!h.leaders.contains_key(term) || !h.quorum[term].contains(i)) by {
            if h.leaders.contains_key(term) {
                assert(lead_ok(c, h, term));
            }
        }
        assert(n.role == Role::Follower) by {
            if n.role != Role::Follower {
                assert(cand_ok(c, h, n.term, i));
            }
        }
        lemma_genuine_extends(h, h2, l);
        if n.commit != 0 {
            assert(l.take(n.commit as int) =~= l.take(n.commit as int));
        }
        lemma_commit_extends(h, c.net, h2, c2.net, c.members, term, term, l, l, n.commit as int);
        lemma_folded_extends(h, c.net, h2, c2.net, c.members, term, term, c.folded[i]);
        assert(n2.wf());
        assert(node_ok(c2, h2, i));
        assert(at_least(h.cands[(term, candidate)], l));
        assert(vote_ok(c2, h2, term, i));
        assert forall|pk: Packet| #[trigger]
            c2.net.contains(pk) && !c.net.contains(pk) implies pk.from == i && packet_ok(
            c2,
            h2,
            pk,
        ) by {
            assert(r.1.contains((pk.to, pk.msg)));
        }
        assert forall|t: u64, k: int| acked(h2, c2.net, i, t, k) implies acked(
            h,
            c.net,
            i,
            t,
            k,
        ) by {
            if h.leaders[t] != i {
                let pk = choose|pk: Packet| #[trigger]
                    c2.net.contains(pk) && pk.from == i && is_ack(pk.msg, t, k);
                if !c.net.contains(pk) {
                    assert(r.1.contains((pk.to, pk.msg)));
                }
            }
        }
        assert(forall|t: u64| #[trigger] h.leaders.contains_key(t) ==> lead_ok(c, h, t));
        assert forall|t: u64, k: int| #[trigger] ack_ok(c2, h2, i, t, k) by {
            if acked(h2, c2.net, i, t, k) && carried(h2, t, term + 1, k) {
                lemma_carried_extends(h, h2, t, term + 1, k);
                assert(ack_ok(c, h, i, t, k));
            }
        }
        assert forall|tv: u64, t: u64, k: int| #[trigger] voter_ok(c2, h2, tv, i, t, k) by {
            if h2.votes.contains_key((tv, i)) && t < tv && (h2.leaders.contains_key(tv)
                ==> h2.quorum[tv].contains(i)) && acked(h2, c2.net, i, t, k) && carried(
                h2,
                t,
                tv as int,
                k,
            ) {
                lemma_carried_extends(h, h2, t, tv as int, k);
                if tv == term {
                    assert(!h.leaders.contains_key(term));
                    assert(carried(h, t, term + 1, k));
                    assert(ack_ok(c, h, i, t, k));
                } else {
                    assert(voter_ok(c, h, tv, i, t, k));
                }
            }
        }
        lemma_move(c, h, c2, h2, i);
        h2
    }
}

/// Entries of the present leader are taken over, or refused.
#[verifier::spinoff_prover]
#[verifier::rlimit(40)]
proof fn lemma_append_arrives(
    c: Cluster,
    h: History,
    i: usize,
    from: usize,
    term: u64,
    leader: usize,
    prev: u64,
    prev_term: u64,
    entries: Seq<EntryView>,
    commit: u64,
)
    requires
        inv(c, h),
        is_member(c.members, i as int),
        c.net.contains(
            Packet {
                from,
                to: i,
                msg: MsgView::AppendEntries {
                    term,
                    leader,
                    prev_log_index: prev,
                    prev_log_term: prev_term,
                    entries,
                    leader_commit: commit,
                },
            },
        ),
        term <= c.nodes[i].term,
        term == c.nodes[i].term && c.nodes[i].agrees_at(prev, prev_term) ==> mergeable(
            c.nodes[i].log,
            entries,
        ),
    ensures
        inv(
            c.moved(i, c.nodes[i].on_append(term, leader, prev, prev_term, entries, commit)),
            h,
        ),
{
    let n = c.nodes[i];
    let r = n.on_append(term, leader, prev, prev_term, entries, commit);
    let n2 = r.0;
    let c2 = c.moved(i, r);
    let l = c.stored(i);
    let past = c.folded[i];
    let ll = h.llog[term];
    assert(node_ok(c, h, i));
    lemma_extends_self(c, h);
    lemma_log_tail(past, n.log);
    lemma_commit_kept(c, h, i, c2.net, n.term);
    assert(c2.nodes[i] == n2);
    assert(c2.folded[i] == past);
    assert(packet_ok(
        c,
        h,
        Packet {
            from,
            to: i,
            msg: MsgView::AppendEntries {
                term,
                leader,
                prev_log_index: prev,
                prev_log_term: prev_term,
                entries,
                leader_commit: commit,
            },
        },
    ));
    assert(lead_ok(c, h, term));
    let s = choose|s: int| #[trigger]
        sent_from(h, c.net, c.members, term, prev, prev_term, entries, commit, s);
    let end = s + entries.len();
    assert forall|t: u64| #[trigger]
        h.votes.contains_key((t, i)) && t == n2.term implies n2.vote == Some(
        h.votes[(t, i)].0,
    ) by {
        assert(vote_ok(c, h, t, i));
    }
    assert(forall|s: Sent| r.1.contains(s) ==> s == r.1[0]);
    if term < n.term || !n.agrees_at(prev, prev_term) {
        if n2.role == Role::Leader {
            lemma_leader_kept(c, h, i, c2.net);
            assert forall|x: int| 0 <= x < c.members.len() implies peer_ok(
                c2.net,
                h,
                n2,
                l,
                #[trigger] c.members[x],
            ) by {
                assert(peer_ok(c2.net, h, n, l, c.members[x]));
            }
        }
        assert(node_ok(c2, h, i));
        lemma_same_history(c, h, i, r);
    } else {
        assert(n.role != Role::Leader);
        lemma_merge_wf(n.log, entries);
        if s == prev {
            lemma_prev_agrees(c, h, past, n.log, term, prev);
        } else {
            lemma_gap_agrees(c, h, i, term, s);
        }
        assert(agree(l, ll, s));
        lemma_merge_agrees(c, h, past, n.log, term, s, entries);
        let m = past + n2.log.entries;
        assert(c2.stored(i) == m);
        n2.log.lemma_last_index();
        if entries.len() > 0 {
            assert(entries.last() == ll[end - 1]);
            assert(entries.last().index == end);
        }
        assert(genuine(h, m)) by {
            if m != l {
                assert forall|k: int| 0 <= k < m.len() implies genuine_at(h, m, k) by {
                    assert(genuine_at(h, ll, k));
                    assert(m[k] == ll[k]);
                    assert(m.take(k + 1) =~= ll.take(k + 1));
                }
            }
        }
        assert(numbered(m)) by {
            if m != l {
                assert forall|k: int| 0 <= k < m.len() implies (#[trigger] m[k]).index == k + 1 by {
                    assert(m[k] == ll[k]);
                }
            }
        }
        assert(terms_in(m, 1, n.term as int)) by {
            if m != l {
                assert forall|k: int| 0 <= k < m.len() implies 1 <= (
                #[trigger] m[k]).term <= n.term by {
                    assert(m[k] == ll[k]);
                }
            }
        }
        assert(commit_ok(h, c2.net, c.members, n.term, m, n2.commit as int)) by {
            if commit > n.commit {
                assert(n2.commit <= commit);
                lemma_agree_less(m, ll, end, n2.commit as int);
                let k = n2.commit as int;
                if k != 0 {
                    let (t0, k0) = choose|t0: u64, k0: int| #[trigger]
                        committed(h, c.net, c.members, t0, k0) && commit <= k0 && t0 <= term
                            && agree(ll, h.llog[t0], commit as int);
                    lemma_agree_less(ll, h.llog[t0], commit as int, k);
                    assert(commit_ok(h, c.net, c.members, term, ll, k));
                }
                lemma_commit_extends(h, c.net, h, c2.net, c.members, term, term, ll, m, k);
            } else if n.commit != 0 {
                let k = n.commit as int;
                let (t0, k0) = choose|t0: u64, k0: int| #[trigger]
                    committed(h, c.net, c.members, t0, k0) && k <= k0 && t0 <= n.term && agree(
                        l,
                        h.llog[t0],
                        k,
                    );
                if t0 < term {
                    lemma_leader_complete(c, h, t0, k0, term);
                    lemma_agree_less(ll, h.llog[t0], k0, k);
                }
                lemma_merge_keeps(c, h, past, n.log, term, s, entries, h.llog[t0], k);
                assert(committed(h, c.net, c.members, t0, k0));
                assert(commit_ok(h, c.net, c.members, n.term, m, k));
                assert(m.take(k) =~= m.take(k));
                lemma_commit_extends(h, c.net, h, c2.net, c.members, n.term, n.term, m, m, k);
            }
        }
        assert(n2.wf());
        assert(node_ok(c2, h, i));
        let reply = Packet { from: i, to: leader, msg: r.1[0].1 };
        assert forall|pk: Packet| #[trigger]
            c2.net.contains(pk) && !c.net.contains(pk) implies pk.from == i && packet_ok(
            c2,
            h,
            pk,
        ) by {
            assert(r.1.contains((pk.to, pk.msg)));
            assert(pk == reply);
        }
        assert forall|t: u64, k: int| #[trigger] ack_ok(c2, h, i, t, k) by {
            if acked(h, c2.net, i, t, k) && carried(h, t, n.term + 1, k) {
                if acked(h, c.net, i, t, k) {
                    assert(ack_ok(c, h, i, t, k));
                    assert(lead_ok(c, h, t));
                    if t < term {
                        assert(agree(h.elog(term), h.llog[t], k));
                        lemma_agree_less(ll, h.elog(term), h.elog(term).len() as int, k);
                        lemma_agree_trans(ll, h.elog(term), h.llog[t], k);
                    } else if t > term {
                        if h.leaders[t] != i {
                            let pk = choose|pk: Packet| #[trigger]
                                c.net.contains(pk) && pk.from == i && is_ack(pk.msg, t, k);
                            assert(packet_ok(c, h, pk));
                        }
                        assert(false);
                    } else {
                        assert(agree(ll, ll, k));
                    }
                    lemma_merge_keeps(c, h, past, n.log, term, s, entries, h.llog[t], k);
                } else {
                    let pk = choose|pk: Packet| #[trigger]
                        c2.net.contains(pk) && pk.from == i && is_ack(pk.msg, t, k);
                    assert(!c.net.contains(pk));
                    assert(r.1.contains((pk.to, pk.msg)));
                    assert(pk == reply);
                    assert(t == term && k <= end);
                    lemma_agree_less(m, ll, end, k);
                }
            }
        }
        assert forall|tv: u64, t: u64, k: int| #[trigger] voter_ok(c2, h, tv, i, t, k) by {
            if h.votes.contains_key((tv, i)) && t < tv && acked(h, c2.net, i, t, k) {
                assert(vote_ok(c, h, tv, i));
                if !acked(h, c.net, i, t, k) {
                    let pk = choose|pk: Packet| #[trigger]
                        c2.net.contains(pk) && pk.from == i && is_ack(pk.msg, t, k);
                    assert(!c.net.contains(pk));
                    assert(r.1.contains((pk.to, pk.msg)));
                    assert(pk == reply);
                    assert(false);
                }
                assert(voter_ok(c, h, tv, i, t, k));
            }
        }
        assert forall|t: u64| #[trigger] h.leaders.contains_key(t) implies h.llog.contains_key(t)
            && h.quorum.contains_key(t) by {
            assert(lead_ok(c, h, t));
        }
        lemma_move(c, h, c2, h, i);
    }
}

/// The members on which `index` is known to be.
spec fn reached_set(peers: Seq<usize>, matched: Seq<u64>, index: u64) -> Set<usize> {
    peers.to_set().filter(|p: usize| matched[p as int] >= index)
}

proof fn lemma_reached_set(peers: Seq<usize>, matched: Seq<u64>, index: u64)
    requires
        peers.no_duplicates(),
    ensures
        reached_set(peers, matched, index).finite(),
        reached_set(peers, matched, index).len() == count_reached(peers, matched, index),
    decreases peers.len(),
{
    let s = reached_set(peers, matched, index);
    if peers.len() == 0 {
        assert(s =~= Set::empty());
    } else {
        let init = peers.drop_last();
        let p = peers.last();
        lemma_reached_set(init, matched, index);
        let r = reached_set(init, matched, index);
        assert(!init.contains(p));
        assert forall|q: usize| peers.contains(q) == (init.contains(q) || q == p) by {
            if peers.contains(q) {
                let x = choose|x: int| 0 <= x < peers.len() && peers[x] == q;
                if x < init.len() {
                    assert(init[x] == q);
                }
            }
            if init.contains(q) {
                let x = choose|x: int| 0 <= x < init.len() && init[x] == q;
                assert(peers[x] == q);
            }
            assert(peers[peers.len() - 1] == p);
        }
        if matched[p as int] >= index {
            assert(s =~= r.insert(p));
        } else {
            assert(s =~= r);
        }
    }
}

/// The commit index stays, or moves to an index that can be committed.
proof fn lemma_commit_below(n: NodeView, top: u64)
    ensures
        ({
            let r = n.commit_below(top);
            r == n.commit || (n.commit < r <= top && n.can_commit(r))
        }),
    decreases top,
{
    if top > n.commit && !n.can_commit(top) {
        lemma_commit_below(n, (top - 1) as u64);
    }
}

/// An acknowledgement reaches the leader of the present term.
#[verifier::spinoff_prover]
#[verifier::rlimit(40)]
proof fn lemma_ack_arrives(c: Cluster, h: History, i: usize, from: usize, reached: u64)
    requires
        inv(c, h),
        is_member(c.members, i as int),
        c.nodes[i].role == Role::Leader,
        c.net.contains(
            Packet {
                from,
                to: i,
                msg: MsgView::AppendEntriesResp {
                    term: c.nodes[i].term,
                    success: true,
                    match_index: reached,
                },
            },
        ),
    ensures
        inv(c.moved(i, c.nodes[i].on_append_resp(from, c.nodes[i].term, true, reached)), h),
{
    let n = c.nodes[i];
    let r = n.on_append_resp(from, n.term, true, reached);
    let n3 = r.0;
    let m = if n.matched[from as int] < reached {
        reached
    } else {
        n.matched[from as int]
    };
    let n2 = NodeView {
        matched: n.matched.update(from as int, m),
        next: n.next.update(from as int, (m + 1) as u64),
        ..n
    };
    let c3 = c.moved(i, r);
    let l = c.stored(i);
    let pk = Packet {
        from,
        to: i,
        msg: MsgView::AppendEntriesResp { term: n.term, success: true, match_index: reached },
    };
    assert(node_ok(c, h, i));
    assert(packet_ok(c, h, pk));
    assert(c3.net =~= c.net);
    assert(c3.nodes[i] == n3);
    assert(c3.stored(i) == l);
    lemma_log_tail(c.folded[i], n.log);
    lemma_leader_kept(c, h, i, c3.net);
    lemma_commit_kept(c, h, i, c3.net, n.term);
    assert(lead_ok(c, h, n.term));
    let fx = choose|x: int| 0 <= x < c.members.len() && c.members[x] == from;
    assert(n.peers[fx] < n.votes.len());
    assert(peer_ok(c3.net, h, n, l, c.members[fx]));
    assert(acked(h, c3.net, from, n.term, reached as int)) by {
        assert(c3.net.contains(pk) && is_ack(pk.msg, n.term, reached as int));
    }
    assert forall|x: int| 0 <= x < c.members.len() implies peer_ok(
        c3.net,
        h,
        n2,
        l,
        #[trigger] c.members[x],
    ) by {
        assert(peer_ok(c3.net, h, n, l, c.members[x]));
        assert(n.peers[x] < n.votes.len());
    }
    lemma_commit_below(n2, n2.log.last_index());
    let k = n3.commit;
    if k != n.commit {
        let a = ack_set(h, c3.net, c.members, n.term, k as int);
        let b = reached_set(c.members, n2.matched, k);
        lemma_reached_set(c.members, n2.matched, k);
        assert(l.take(k as int).last() == l[k - 1]);
        assert forall|p: usize| b.contains(p) implies a.contains(p) by {
            assert(c.members.contains(p));
            let x = choose|x: int| 0 <= x < c.members.len() && c.members[x] == p;
            assert(peer_ok(c3.net, h, n2, l, c.members[x]));
            let mp = n2.matched[p as int] as int;
            assert(acked(h, c3.net, p, n.term, mp));
            if h.leaders[n.term] != p {
                let q = choose|q: Packet| #[trigger]
                    c3.net.contains(q) && q.from == p && is_ack(q.msg, n.term, mp);
                assert(c3.net.contains(q) && is_ack(q.msg, n.term, k as int));
            }
        }
        assert(a.subset_of(c.members.to_set()));
        lemma_len_subset(a, c.members.to_set());
        lemma_len_subset(b, a);
        assert(committed(h, c3.net, c.members, n.term, k as int));
        assert(agree(l, h.llog[n.term], k as int));
        assert(commit_ok(h, c3.net, c.members, n.term, l, k as int));
    }
    assert forall|x: int| 0 <= x < c.members.len() implies peer_ok(
        c3.net,
        h,
        n3,
        l,
        #[trigger] c.members[x],
    ) by {
        assert(peer_ok(c3.net, h, n2, l, c.members[x]));
    }
    assert(leader_ok(c3.net, c3.members, h, n3, l));
    assert(n3.wf());
    assert(node_ok(c3, h, i));
    assert forall|t: u64| #[trigger]
        h.votes.contains_key((t, i)) && t == n3.term implies n3.vote == Some(
        h.votes[(t, i)].0,
    ) by {
        assert(vote_ok(c, h, t, i));
    }
    lemma_same_history(c, h, i, r);
}

/// A refusal reaches the leader of the present term.
proof fn lemma_refusal_arrives(c: Cluster, h: History, i: usize, from: usize, reached: u64)
    requires
        inv(c, h),
        is_member(c.members, i as int),
        is_member(c.members, from as int),
        from != i,
        c.nodes[i].role == Role::Leader,
    ensures
        inv(c.moved(i, c.nodes[i].on_append_resp(from, c.nodes[i].term, false, reached)), h),
{
    let n = c.nodes[i];
    let r = n.on_append_resp(from, n.term, false, reached);
    let n2 = r.0;
    let l = c.stored(i);
    let c2 = c.moved(i, (n2, Seq::empty()));
    assert(node_ok(c, h, i));
    assert(c2.stored(i) == l);
    assert(c2.net =~= c.net);
    assert(c2.nodes[i] == n2);
    lemma_commit_kept(c, h, i, c2.net, n.term);
    lemma_leader_kept(c, h, i, c2.net);
    let fx = choose|x: int| 0 <= x < c.members.len() && c.members[x] == from;
    assert(n.peers[fx] < n.votes.len());
    assert forall|x: int| 0 <= x < c.members.len() implies peer_ok(
        c2.net,
        h,
        n2,
        l,
        #[trigger] c.members[x],
    ) by {
        assert(peer_ok(c2.net, h, n, l, c.members[x]));
        assert(n.peers[x] < n.votes.len());
    }
    assert(n2.wf());
    assert(node_ok(c2, h, i));
    assert forall|t: u64| #[trigger]
        h.votes.contains_key((t, i)) && t == n2.term implies n2.vote == Some(
        h.votes[(t, i)].0,
    ) by {
        assert(vote_ok(c, h, t, i));
    }
    lemma_same_history(c, h, i, (n2, Seq::empty()));
    assert forall|s: Sent| #[trigger] r.1.contains(s) implies is_member(c2.members, s.0 as int)
        && s.0 != i && s == n2.append_msg(s.0) by {
        assert(s == n2.append_msg(from));
    }
    lemma_send_appends(c2, h, i, n2, r.1);
    lemma_moved_twice(c, i, (n2, Seq::empty()), r);
    assert(Seq::<Sent>::empty() + r.1 =~= r.1);
}

/// The leader adds a command to its log.
#[verifier::spinoff_prover]
#[verifier::rlimit(40)]
proof fn lemma_propose(c: Cluster, h: History, i: usize, command: Seq<u8>) -> (h2: History)
    requires
        inv(c, h),
        is_member(c.members, i as int),
        c.nodes[i].can_propose(command),
    ensures
        inv(c.moved(i, (c.nodes[i].propose(command), Seq::empty())), h2),
        extends(h, h2),
{
    let n = c.nodes[i];
    assert(node_ok(c, h, i));
    lemma_extends_self(c, h);
    if n.role != Role::Leader {
        lemma_quiet(c, h, i, n);
        h
    } else {
        let n2 = n.propose(command);
        let c2 = c.moved(i, (n2, Seq::empty()));
        let t = n.term;
        let l = c.stored(i);
        let e = n.next_entry(command);
        let l2 = l.push(e);
        assert(c2.stored(i) =~= l2);
        assert(lead_ok(c, h, t));
        lemma_log_tail(c.folded[i], n.log);
        let h2 = History { llog: h.llog.insert(t, l2), ..h };
        assert(c2.net =~= c.net);
        assert(c2.nodes[i] == n2);
        assert(l2.take(l.len() as int) =~= l);
        assert(l.take(l.len() as int) =~= l);
        assert(extends(h, h2));
        lemma_genuine_extends(h, h2, l);
        assert(genuine(h2, l2)) by {
            assert forall|k: int| 0 <= k < l2.len() implies genuine_at(h2, l2, k) by {
                if k < l.len() {
                    assert(genuine_at(h2, l, k));
                    assert(l2.take(k + 1) =~= l.take(k + 1));
                } else {
                    assert(l2[k] == e);
                }
            }
        }
        assert(terms_in(l2, 1, t as int)) by {
            assert(cand_ok(c, h, t, i));
        }
        assert(numbered(l2));
        if n.commit != 0 {
            assert(l2.take(n.commit as int) =~= l.take(n.commit as int));
        }
        lemma_commit_extends(h, c.net, h2, c2.net, c.members, t, t, l, l2, n.commit as int);
        lemma_folded_extends(h, c.net, h2, c2.net, c.members, t, t, c.folded[i]);
        assert(n2.wf()) by {
            let x = choose|x: int| 0 <= x < n.peers.len() && n.peers[x] == n.id;
            assert(n.peers[x] < n.votes.len());
            assert(n2.peers[x] == n2.id);
        }
        assert(leader_ok(c2.net, c2.members, h2, n2, l2)) by {
            assert forall|x: int| 0 <= x < c.members.len() implies peer_ok(
                c2.net,
                h2,
                n2,
                l2,
                #[trigger] c.members[x],
            ) by {
                let q = c.members[x];
                assert(n.peers[x] < n.votes.len());
                assert(peer_ok(c.net, h, n, l, q));
                if q != i && n.matched[q as int] != 0 {
                    lemma_acked_extends(
                        h,
                        c.net,
                        h2,
                        c2.net,
                        q,
                        t,
                        n.matched[q as int] as int,
                    );
                }
            }
        }
        assert(node_ok(c2, h2, i));
        assert(h2.elog(t) == h.elog(t));
        lemma_agree_less(l, h.elog(t), h.elog(t).len() as int, h.elog(t).len() as int);
        assert(l2.take(h.elog(t).len() as int) =~= l.take(h.elog(t).len() as int));
        assert(lead_ok(c2, h2, t));
        assert forall|u: u64| #[trigger]
            h.votes.contains_key((u, i)) && u == n2.term implies n2.vote == Some(
            h.votes[(u, i)].0,
        ) by {
            assert(vote_ok(c, h, u, i));
        }
        assert(forall|u: u64| #[trigger] h.leaders.contains_key(u) ==> lead_ok(c, h, u));
        assert forall|u: u64, k: int| #[trigger] ack_ok(c2, h2, i, u, k) by {
            if acked(h2, c2.net, i, u, k) && carried(h2, u, n2.term + 1, k) {
                if u == t {
                    assert(agree(l2, h2.llog[t], k));
                } else {
                    assert(acked(h, c.net, i, u, k));
                    lemma_carried_extends(h, h2, u, n2.term + 1, k);
                    assert(ack_ok(c, h, i, u, k));
                    if u > t {
                        if h.leaders[u] != i {
                            let pk = choose|pk: Packet| #[trigger]
                                c.net.contains(pk) && pk.from == i && is_ack(pk.msg, u, k);
                            assert(packet_ok(c, h, pk));
                        }
                        assert(false);
                    }
                    assert(l2.take(k) =~= l.take(k));
                }
            }
        }
        assert forall|tv: u64, u: u64, k: int| #[trigger] voter_ok(c2, h2, tv, i, u, k) by {
            if h2.votes.contains_key((tv, i)) && u < tv && (h2.leaders.contains_key(tv)
                ==> h2.quorum[tv].contains(i)) && acked(h2, c2.net, i, u, k) && carried(
                h2,
                u,
                tv as int,
                k,
            ) {
                assert(vote_ok(c, h, tv, i));
                assert(acked(h, c.net, i, u, k));
                lemma_carried_extends(h, h2, u, tv as int, k);
                assert(voter_ok(c, h, tv, i, u, k));
            }
        }
        lemma_move(c, h, c2, h2, i);
        h2
    }
}

/// A message arrives.
proof fn lemma_deliver(c: Cluster, h: History, pk: Packet) -> (h2: History)
    requires
        inv(c, h),
        c.enabled(Event::Deliver { packet: pk }),
    ensures
        inv(c.next(Event::Deliver { packet: pk }), h2),
        extends(h, h2),
{
    let i = pk.to;
    let n = c.nodes[i];
    let s = n.seeing(pk.msg.term());
    let r = n.step(pk.from, pk.msg);
    let c1 = c.moved(i, (s, Seq::empty()));
    assert(node_ok(c, h, i));
    assert(packet_ok(c, h, pk));
    lemma_extends_self(c, h);
    if pk.msg.term() > n.term {
        lemma_new_term(c, h, i, pk.msg.term());
    } else {
        lemma_quiet(c, h, i, n);
    }
    assert(inv(c1, h));
    assert(c1.net =~= c.net);
    assert(c1.nodes[i] == s);
    lemma_moved_twice(c, i, (s, Seq::empty()), r);
    assert(Seq::<Sent>::empty() + r.1 =~= r.1);
    assert(c.next(Event::Deliver { packet: pk }) == c1.moved(i, r));
    match pk.msg {
        MsgView::RequestVote { term, candidate, last_log_index, last_log_term } => {
            assert(pk == Packet {
                from: pk.from,
                to: i,
                msg: MsgView::RequestVote { term, candidate, last_log_index, last_log_term },
            });
            lemma_vote_request(
                c1,
                h,
                i,
                pk.from,
                term,
                candidate,
                last_log_index,
                last_log_term,
            )
        },
        MsgView::RequestVoteResp { term, granted } => {
            if s.role == Role::Candidate && term == s.term && granted {
                assert(pk == Packet {
                    from: pk.from,
                    to: i,
                    msg: MsgView::RequestVoteResp { term: s.term, granted: true },
                });
                lemma_vote_arrives(c1, h, i, pk.from);
                let n2 = NodeView { votes: s.votes.update(pk.from as int, true), ..s };
                let c2 = c1.moved(i, (n2, Seq::empty()));
                assert(c2.nodes[i] == n2);
                let h2 = lemma_maybe_win(c2, h, i);
                lemma_moved_twice(c1, i, (n2, Seq::empty()), n2.maybe_lead());
                assert(Seq::<Sent>::empty() + n2.maybe_lead().1 =~= n2.maybe_lead().1);
                h2
            } else {
                lemma_quiet(c1, h, i, s);
                h
            }
        },
        MsgView::AppendEntries {
            term,
            leader,
            prev_log_index,
            prev_log_term,
            entries,
            leader_commit,
        } => {
            lemma_term_vote_merge(n.log, term, None, entries);
            assert(pk == Packet {
                from: pk.from,
                to: i,
                msg: MsgView::AppendEntries {
                    term,
                    leader,
                    prev_log_index,
                    prev_log_term,
                    entries,
                    leader_commit,
                },
            });
            lemma_append_arrives(
                c1,
                h,
                i,
                pk.from,
                term,
                leader,
                prev_log_index,
                prev_log_term,
                entries,
                leader_commit,
            );
            h
        },
        MsgView::AppendEntriesResp { term, success, match_index } => {
            if s.role == Role::Leader && term == s.term {
                if success {
                    assert(pk == Packet {
                        from: pk.from,
                        to: i,
                        msg: MsgView::AppendEntriesResp {
                            term: s.term,
                            success: true,
                            match_index,
                        },
                    });
                    lemma_ack_arrives(c1, h, i, pk.from, match_index);
                } else {
                    lemma_refusal_arrives(c1, h, i, pk.from, match_index);
                }
                h
            } else {
                lemma_quiet(c1, h, i, s);
                h
            }
        },
    }
}

/// A member's clock ticks.
proof fn lemma_tick(c: Cluster, h: History, i: usize) -> (h2: History)
    requires
        inv(c, h),
        c.enabled(Event::Tick { at: i }),
    ensures
        inv(c.next(Event::Tick { at: i }), h2),
        extends(h, h2),
{
    let n = c.nodes[i];
    let r = n.tick();
    assert(node_ok(c, h, i));
    lemma_extends_self(c, h);
    let s = NodeView { elapsed: (n.elapsed + 1) as u64, ..n };
    if n.role == Role::Leader {
        if s.elapsed >= s.heartbeat {
            let t = NodeView { elapsed: 0, ..s };
            lemma_quiet(c, h, i, t);
            let c1 = c.moved(i, (t, Seq::empty()));
            assert(c1.nodes[i] == t);
            lemma_append_msgs(t, t.peers.len());
            lemma_send_appends(c1, h, i, t, t.broadcast_append());
            lemma_moved_twice(c, i, (t, Seq::empty()), (t, t.broadcast_append()));
            assert(Seq::<Sent>::empty() + t.broadcast_append() =~= t.broadcast_append());
        } else {
            assert(s.wf());
            lemma_quiet(c, h, i, s);
        }
        h
    } else if s.elapsed >= s.timeout {
        assert(s.as_candidate() == n.as_candidate());
        let h1 = lemma_stand(c, h, i);
        let n1 = n.as_candidate();
        let sent = n1.vote_msgs(n1.peers.len());
        let c1 = c.moved(i, (n1, sent));
        assert(c1.nodes[i] == n1);
        let h2 = lemma_maybe_win(c1, h1, i);
        lemma_moved_twice(c, i, (n1, sent), n1.maybe_lead());
        lemma_extends_trans(h, h1, h2);
        h2
    } else {
        assert(s.wf());
        lemma_quiet(c, h, i, s);
        h
    }
}

/// Nothing is matched below the least that is matched.
proof fn lemma_least_matched(peers: Seq<usize>, matched: Seq<u64>, cap: u64)
    ensures
        least_matched(peers, matched, cap) <= cap,
        forall|x: int|
            0 <= x < peers.len() ==> least_matched(peers, matched, cap) <= matched[(
            #[trigger] peers[x]) as int],
    decreases peers.len(),
{
    if peers.len() > 0 {
        let rest = peers.drop_last();
        lemma_least_matched(rest, matched, cap);
        assert forall|x: int| 0 <= x < peers.len() implies least_matched(peers, matched, cap)
            <= matched[(#[trigger] peers[x]) as int] by {
            if x < rest.len() {
                assert(rest[x] == peers[x]);
            }
        }
    }
}

/// A member bounds its log: it still has stored what it had.
#[verifier::spinoff_prover]
#[verifier::rlimit(40)]
proof fn lemma_compact(c: Cluster, h: History, i: usize, keep: usize)
    requires
        inv(c, h),
        is_member(c.members, i as int),
    ensures
        inv(c.next(Event::Compact { at: i, keep }), h),
{
    let n = c.nodes[i];
    let n2 = n.maybe_compact(keep);
    let c2 = c.next(Event::Compact { at: i, keep });
    let l = c.stored(i);
    let past = c.folded[i];
    let past2 = c2.folded[i];
    let up_to = least_matched(n.peers, n.matched, n.applied);
    assert(node_ok(c, h, i));
    lemma_extends_self(c, h);
    lemma_log_tail(past, n.log);
    lemma_least_matched(n.peers, n.matched, n.applied);
    assert(c2.nodes[i] == n2);
    assert(c2.net =~= c.net);
    if n2.log.snapshot_index == n.log.snapshot_index {
        assert(past2 =~= past);
        assert(n2.log.entries =~= n.log.entries);
    } else {
        let gone = up_to - n.log.snapshot_index;
        assert(n.role == Role::Leader);
        assert(past2 == past + n.log.entries.take(gone));
        assert(past2 =~= l.take(up_to as int));
        assert(past2.last() == l[up_to - 1]);
        assert(n.log.live(up_to) == l[up_to - 1]);
        assert(c2.stored(i) =~= l);
        assert(agree(past2, l, up_to as int)) by {
            assert(past2.take(up_to as int) =~= l.take(up_to as int));
        }
        assert(lead_ok(c, h, n.term));
        let (t0, k0) = choose|t0: u64, k0: int| #[trigger]
            committed(h, c.net, c.members, t0, k0) && n.commit <= k0 && t0 <= n.term && agree(
                l,
                h.llog[t0],
                n.commit as int,
            );
        lemma_agree_less(l, h.llog[t0], n.commit as int, up_to as int);
        assert(committed(h, c.net, c.members, t0, k0) && up_to <= k0);
        assert(commit_ok(h, c.net, c.members, n.term, l, up_to as int));
        assert forall|p: usize| #[trigger] is_member(c.members, p as int) implies acked(
            h,
            c.net,
            p,
            n.term,
            up_to as int,
        ) by {
            let x = choose|x: int| 0 <= x < c.members.len() && c.members[x] == p;
            assert(peer_ok(c.net, h, n, l, c.members[x]));
            assert(n.peers[x] == p);
            let mp = n.matched[p as int] as int;
            assert(acked(h, c.net, p, n.term, mp));
            if h.leaders[n.term] != p {
                let q = choose|q: Packet| #[trigger]
                    c.net.contains(q) && q.from == p && is_ack(q.msg, n.term, mp);
                assert(c.net.contains(q) && is_ack(q.msg, n.term, up_to as int));
            }
        }
        assert(folded_by(h, c.net, c.members, n.term, past2));
        assert(folded_ok(h, c.net, c.members, n.term, past2)) by {
            reveal(folded_ok);
        }
    }
    assert(c2.stored(i) =~= l);
    if n.role == Role::Leader {
        assert forall|x: int| 0 <= x < c.members.len() implies peer_ok(
            c2.net,
            h,
            n2,
            l,
            #[trigger] c.members[x],
        ) by {
            assert(peer_ok(c.net, h, n, l, c.members[x]));
        }
    }
    assert(n2.wf());
    assert(node_ok(c2, h, i));
    assert forall|t: u64| #[trigger]
        h.votes.contains_key((t, i)) && t == n2.term implies n2.vote == Some(
        h.votes[(t, i)].0,
    ) by {
        assert(vote_ok(c, h, t, i));
    }
    assert forall|t: u64, k: int| #[trigger] ack_ok(c2, h, i, t, k) by {
        assert(ack_ok(c, h, i, t, k));
    }
    assert forall|tv: u64, t: u64, k: int| #[trigger] voter_ok(c2, h, tv, i, t, k) by {
        assert(voter_ok(c, h, tv, i, t, k));
    }
    assert forall|t: u64| #[trigger] h.leaders.contains_key(t) implies h.llog.contains_key(t)
        && h.quorum.contains_key(t) by {
        assert(lead_ok(c, h, t));
    }
    lemma_move(c, h, c2, h, i);
}

/// Everything that can happen keeps the invariant.
proof fn lemma_next(c: Cluster, h: History, e: Event) -> (h2: History)
    requires
        inv(c, h),
        c.enabled(e),
    ensures
        inv(c.next(e), h2),
        extends(h, h2),
{
    lemma_extends_self(c, h);
    let i = c.effect(e).0;
    assert(node_ok(c, h, i));
    match e {
        Event::Tick { at } => lemma_tick(c, h, at),
        Event::Deliver { packet } => lemma_deliver(c, h, packet),
        Event::Propose { at, command } => lemma_propose(c, h, at, command),
        Event::Drain { at } => {
            lemma_quiet(c, h, at, c.nodes[at].take_committed());
            h
        },
        Event::Flush { at } => {
            lemma_quiet(
                c,
                h,
                at,
                NodeView {
                    log: LogView { writes: Seq::empty(), ..c.nodes[at].log },
                    ..c.nodes[at]
                },
            );
            h
        },
        Event::Compact { at, keep } => {
            lemma_compact(c, h, at, keep);
            h
        },
        Event::Restart { at, log, seed } => {
            lemma_fresh_wf(at, c.members, log, seed);
            lemma_quiet(c, h, at, fresh_node(at, c.members, log, seed));
            h
        },
    }
}

proof fn lemma_fresh_wf(i: usize, members: Seq<usize>, log: LogView, seed: u64)
    requires
        log.wf(),
        is_member(members, i as int),
    ensures
        fresh_node(i, members, log, seed).wf(),
{
    lemma_slots_bound(members);
}

/// The invariant holds before anything has happened.
proof fn lemma_initial(c: Cluster) -> (h: History)
    requires
        c.is_initial(),
    ensures
        inv(c, h),
{
    let h = History {
        cands: Map::empty(),
        votes: Map::empty(),
        leaders: Map::empty(),
        llog: Map::empty(),
        quorum: Map::empty(),
    };
    assert forall|i: usize| #[trigger] is_member(c.members, i as int) implies node_ok(c, h, i) by {
        assert(is_new_node(c.nodes[i], i, c.members));
        let (log, seed) = choose|log: LogView, seed: u64|
            {
                &&& #[trigger] fresh_node(i, c.members, log, seed) == c.nodes[i]
                &&& log.wf()
                &&& log.entries.len() == 0
                &&& log.term == 0
                &&& log.vote is None
                &&& log.snapshot_index == 0
                &&& log.snapshot_term == 0
            };
        lemma_fresh_wf(i, c.members, log, seed);
        assert(c.folded[i].len() == 0);
        assert(c.stored(i) =~= log.entries);
        reveal(folded_ok);
    }
    h
}

/// Whatever a group does from its start on, the invariant holds; and what the proof remembers of a
/// shorter run it remembers of a longer one.
proof fn lemma_run(c: Cluster, events: Seq<Event>, a: int) -> (hs: (History, History))
    requires
        c.is_initial(),
        c.allows(events),
        0 <= a <= events.len(),
    ensures
        inv(c.after(events.take(a)), hs.0),
        inv(c.after(events), hs.1),
        extends(hs.0, hs.1),
        c.after(events.take(a)).net.subset_of(c.after(events).net),
        c.after(events).members == c.members,
        c.after(events.take(a)).members == c.members,
    decreases events.len(),
{
    if events.len() == 0 {
        let h = lemma_initial(c);
        assert(events.take(a) =~= events);
        lemma_extends_self(c, h);
        (h, h)
    } else if a == events.len() {
        let init = events.drop_last();
        let (x, h) = lemma_run(c, init, init.len() as int);
        let h2 = lemma_next(c.after(init), h, events.last());
        assert(events.take(a) =~= events);
        lemma_extends_self(c.after(events), h2);
        (h2, h2)
    } else {
        let init = events.drop_last();
        let (x, h) = lemma_run(c, init, a);
        let h2 = lemma_next(c.after(init), h, events.last());
        assert(events.take(a) =~= init.take(a));
        lemma_extends_trans(x, h, h2);
        (x, h2)
    }
}

/// Election safety: in any run, whoever leads in a term at one time and whoever leads in that term
/// at another time are the same member.
pub proof fn law_one_leader_per_term(c: Cluster, events: Seq<Event>, a: int, i: usize, j: usize)
    requires
        c.is_initial(),
        c.allows(events),
        0 <= a <= events.len(),
        is_member(c.members, i as int),
        is_member(c.members, j as int),
        c.after(events.take(a)).nodes[i].role == Role::Leader,
        c.after(events).nodes[j].role == Role::Leader,
        c.after(events.take(a)).nodes[i].term == c.after(events).nodes[j].term,
    ensures
        i == j,
{
    let (h1, h2) = lemma_run(c, events, a);
    assert(node_ok(c.after(events.take(a)), h1, i));
    assert(node_ok(c.after(events), h2, j));
}

/// What a member has stored is numbered from 1 on, its live log goes on where what it has folded
/// away ends, and nothing is folded away that is not applied.
pub proof fn law_stored_entries_are_the_log(c: Cluster, events: Seq<Event>, i: usize)
    requires
        c.is_initial(),
        c.allows(events),
        is_member(c.members, i as int),
    ensures
        ({
            let n = c.after(events).nodes[i];
            let l = c.after(events).stored(i);
            &&& l.len() == n.log.last_index()
            &&& l.skip(n.log.snapshot_index as int) == n.log.entries
            &&& forall|k: int| 0 <= k < l.len() ==> (#[trigger] l[k]).index == k + 1
            &&& n.log.snapshot_index <= n.applied <= n.commit <= l.len()
        }),
{
    let (x, h) = lemma_run(c, events, events.len() as int);
    let d = c.after(events);
    let n = d.nodes[i];
    let l = d.stored(i);
    assert(node_ok(d, h, i));
    lemma_log_tail(d.folded[i], n.log);
    assert(l.skip(n.log.snapshot_index as int) =~= n.log.entries);
}

/// Log matching: if two members have stored an entry of the same term at the same index, what
/// they have stored is the same up to that index.
pub proof fn law_logs_match(c: Cluster, events: Seq<Event>, i: usize, j: usize, k: int)
    requires
        c.is_initial(),
        c.allows(events),
        is_member(c.members, i as int),
        is_member(c.members, j as int),
        0 <= k < c.after(events).stored(i).len(),
        k < c.after(events).stored(j).len(),
        c.after(events).stored(i)[k].term == c.after(events).stored(j)[k].term,
    ensures
        c.after(events).stored(i).take(k + 1) == c.after(events).stored(j).take(k + 1),
{
    let (x, h) = lemma_run(c, events, events.len() as int);
    let d = c.after(events);
    assert(node_ok(d, h, i));
    assert(node_ok(d, h, j));
    assert(genuine_at(h, d.stored(i), k));
    assert(genuine_at(h, d.stored(j), k));
}

/// What a member has committed at one time and what any member has committed at any later time
/// agree, entry by entry: committed entries are never lost, changed or reordered.
pub proof fn law_committed_never_diverges(
    c: Cluster,
    events: Seq<Event>,
    a: int,
    i: usize,
    j: usize,
    k: int,
)
    requires
        c.is_initial(),
        c.allows(events),
        0 <= a <= events.len(),
        is_member(c.members, i as int),
        is_member(c.members, j as int),
        1 <= k <= c.after(events.take(a)).nodes[i].commit,
        k <= c.after(events).nodes[j].commit,
    ensures
        k <= c.after(events.take(a)).stored(i).len(),
        k <= c.after(events).stored(j).len(),
        c.after(events.take(a)).stored(i)[k - 1] == c.after(events).stored(j)[k - 1],
{
    let (h1, h2) = lemma_run(c, events, a);
    let d1 = c.after(events.take(a));
    let d2 = c.after(events);
    let n = d1.nodes[i];
    let m = d2.nodes[j];
    assert(node_ok(d1, h1, i));
    assert(node_ok(d2, h2, j));
    let l = d1.stored(i);
    assert(l.take(n.commit as int) =~= l.take(n.commit as int));
    lemma_commit_extends(
        h1,
        d1.net,
        h2,
        d2.net,
        c.members,
        n.term,
        n.term,
        l,
        l,
        n.commit as int,
    );
    lemma_commits_agree(
        d2,
        h2,
        n.term,
        l,
        n.commit as int,
        m.term,
        d2.stored(j),
        m.commit as int,
        k,
    );
    lemma_agree_less(l, d2.stored(j), k, k);
}

/// Leader completeness: whatever a member has committed, every later leader has stored.
pub proof fn law_leaders_are_complete(
    c: Cluster,
    events: Seq<Event>,
    a: int,
    i: usize,
    j: usize,
    k: int,
)
    requires
        c.is_initial(),
        c.allows(events),
        0 <= a <= events.len(),
        is_member(c.members, i as int),
        is_member(c.members, j as int),
        1 <= k <= c.after(events.take(a)).nodes[i].commit,
        c.after(events).nodes[j].role == Role::Leader,
        c.after(events.take(a)).nodes[i].term <= c.after(events).nodes[j].term,
    ensures
        k <= c.after(events).stored(j).len(),
        c.after(events.take(a)).stored(i)[k - 1] == c.after(events).stored(j)[k - 1],
{
    let (h1, h2) = lemma_run(c, events, a);
    let d1 = c.after(events.take(a));
    let n = d1.nodes[i];
    assert(node_ok(d1, h1, i));
    lemma_leader_stores(
        h1,
        d1.net,
        n.term,
        d1.stored(i),
        n.commit as int,
        c.after(events),
        h2,
        j,
        k,
    );
}

/// What was committed in an earlier state, a leader in a later one has stored.
proof fn lemma_leader_stores(
    h1: History,
    net1: Set<Packet>,
    term: u64,
    l: Seq<EntryView>,
    x: int,
    d2: Cluster,
    h2: History,
    j: usize,
    k: int,
)
    requires
        commit_ok(h1, net1, d2.members, term, l, x),
        inv(d2, h2),
        extends(h1, h2),
        net1.subset_of(d2.net),
        is_member(d2.members, j as int),
        1 <= k <= x,
        d2.nodes[j].role == Role::Leader,
        term <= d2.nodes[j].term,
    ensures
        k <= d2.stored(j).len(),
        l[k - 1] == d2.stored(j)[k - 1],
{
    let m = d2.nodes[j];
    let (t0, k0) = choose|t: u64, k: int| #[trigger]
        committed(h1, net1, d2.members, t, k) && x <= k && t <= term && agree(l, h1.llog[t], x);
    lemma_committed_extends(h1, net1, h2, d2.net, d2.members, t0, k0);
    assert(agree(h2.llog[t0], h1.llog[t0], h1.llog[t0].len() as int));
    lemma_agree_less(l, h1.llog[t0], x, k);
    lemma_agree_less(h2.llog[t0], h1.llog[t0], h1.llog[t0].len() as int, k);
    assert(node_ok(d2, h2, j));
    if t0 < m.term {
        lemma_leader_complete(d2, h2, t0, k0, m.term);
        lemma_agree_less(h2.llog[m.term], h2.llog[t0], k0, k);
    }
    lemma_agree_less(l, h1.llog[t0], x, x);
}

/// Every message that a member of a group sends to another can be processed there, as long as the
/// commands in it fit and the receiver has folded nothing away.
pub proof fn law_every_message_is_admitted(c: Cluster, events: Seq<Event>, pk: Packet)
    requires
        c.is_initial(),
        c.allows(events),
        c.after(events).net.contains(pk),
        is_member(c.members, pk.to as int),
        pk.msg matches MsgView::AppendEntries { entries, .. } ==> {
            &&& c.after(events).nodes[pk.to].log.snapshot_index == 0
            &&& forall|k: int|
                0 <= k < entries.len() ==> (#[trigger] entries[k]).command.len() <= MAX_COMMAND
        },
    ensures
        c.after(events).nodes[pk.to].admits(pk.from, pk.msg),
{
    let (x, h) = lemma_run(c, events, events.len() as int);
    lemma_admitted(c.after(events), h, pk);
}

proof fn lemma_admitted(d: Cluster, h: History, pk: Packet)
    requires
        inv(d, h),
        d.net.contains(pk),
        is_member(d.members, pk.to as int),
        pk.msg matches MsgView::AppendEntries { entries, .. } ==> {
            &&& d.nodes[pk.to].log.snapshot_index == 0
            &&& forall|k: int|
                0 <= k < entries.len() ==> (#[trigger] entries[k]).command.len() <= MAX_COMMAND
        },
    ensures
        d.nodes[pk.to].admits(pk.from, pk.msg),
{
    let n = d.nodes[pk.to];
    assert(node_ok(d, h, pk.to));
    assert(packet_ok(d, h, pk));
    lemma_slots_bound(d.members);
    match pk.msg {
        MsgView::AppendEntries {
            term,
            leader,
            prev_log_index,
            prev_log_term,
            entries,
            leader_commit,
        } => {
            let l = h.llog[term];
            let s = choose|s: int| #[trigger]
                sent_from(
                    h,
                    d.net,
                    d.members,
                    term,
                    prev_log_index,
                    prev_log_term,
                    entries,
                    leader_commit,
                    s,
                );
            assert(lead_ok(d, h, term));
            lemma_log_tail(d.folded[pk.to], n.log);
            if term >= n.term && n.agrees_at(prev_log_index, prev_log_term) {
                assert(s <= n.log.entries.len()) by {
                    if s == prev_log_index {
                        lemma_prev_agrees(d, h, d.folded[pk.to], n.log, term, prev_log_index);
                    } else {
                        lemma_gap_held(d, h, pk.to, term, s);
                    }
                }
                assert forall|k: int| 0 <= k < entries.len() implies (#[trigger] entries[k]).index
                    == s + 1 + k by {
                    assert(entries[k] == l[s + k]);
                }
                lemma_orderly_mergeable(n.log, entries);
            }
        },
        MsgView::AppendEntriesResp { term, success, match_index } => {
            if success {
                assert(lead_ok(d, h, term));
            }
        },
        _ => {},
    }
}

/// Members hand the same commands to their state machines: whatever is drained at one index, at
/// any two times and at any two members, is the same command.
pub proof fn law_state_machines_see_the_same_commands(
    c: Cluster,
    events: Seq<Event>,
    a: int,
    i: usize,
    j: usize,
    x: (u64, Seq<u8>),
    y: (u64, Seq<u8>),
)
    requires
        c.is_initial(),
        c.allows(events),
        0 <= a <= events.len(),
        is_member(c.members, i as int),
        is_member(c.members, j as int),
        ({
            let n = c.after(events.take(a)).nodes[i];
            commands_between(n.log, n.applied, n.commit).contains(x)
        }),
        ({
            let n = c.after(events).nodes[j];
            commands_between(n.log, n.applied, n.commit).contains(y)
        }),
        x.0 == y.0,
    ensures
        x.1 == y.1,
{
    let (h1, h2) = lemma_run(c, events, a);
    lemma_drained_one(c.after(events.take(a)), h1, i, x);
    lemma_drained_one(c.after(events), h2, j, y);
    law_committed_never_diverges(c, events, a, i, j, x.0 as int);
}

/// A command that is drained is the stored one of its index.
proof fn lemma_drained_one(c: Cluster, h: History, i: usize, x: (u64, Seq<u8>))
    requires
        inv(c, h),
        is_member(c.members, i as int),
        commands_between(c.nodes[i].log, c.nodes[i].applied, c.nodes[i].commit).contains(x),
    ensures
        1 <= x.0 <= c.nodes[i].commit,
        x.1 == c.stored(i)[x.0 - 1].command,
{
    lemma_drained(c, h, i);
    let s = commands_between(c.nodes[i].log, c.nodes[i].applied, c.nodes[i].commit);
    let p = choose|p: int| 0 <= p < s.len() && s[p] == x;
    assert(s[p] == x);
}

/// What is drained are the stored commands behind those that are applied, up to the commit index.
proof fn lemma_drained(c: Cluster, h: History, i: usize)
    requires
        inv(c, h),
        is_member(c.members, i as int),
    ensures
        ({
            let n = c.nodes[i];
            let drained = commands_between(n.log, n.applied, n.commit);
            &&& drained.len() == n.commit - n.applied
            &&& forall|k: int|
                0 <= k < drained.len() ==> #[trigger] drained[k] == (
                    (n.applied + 1 + k) as u64,
                    c.stored(i)[n.applied + k].command,
                )
        }),
{
    let n = c.nodes[i];
    assert(node_ok(c, h, i));
    lemma_log_tail(c.folded[i], n.log);
    lemma_commands_between(n.log, n.applied, n.commit);
    let drained = commands_between(n.log, n.applied, n.commit);
    assert forall|k: int| 0 <= k < drained.len() implies #[trigger] drained[k] == (
        (n.applied + 1 + k) as u64,
        c.stored(i)[n.applied + k].command,
    ) by {
        assert(c.stored(i)[n.applied + k] == n.log.entries[n.applied + k - n.log.snapshot_index]);
    }
}

/// The commands of entries, with their indices.
pub open spec fn commands_of(l: Seq<EntryView>) -> Seq<(u64, Seq<u8>)> {
    Seq::new(l.len(), |k: int| (l[k].index, l[k].command))
}

/// The commands that two members have committed up to an index are the same, one by one.
pub proof fn law_replicas_apply_the_same_commands(
    c: Cluster,
    events: Seq<Event>,
    i: usize,
    j: usize,
    k: u64,
)
    requires
        c.is_initial(),
        c.allows(events),
        is_member(c.members, i as int),
        is_member(c.members, j as int),
        k <= c.after(events).nodes[i].commit,
        k <= c.after(events).nodes[j].commit,
    ensures
        k <= c.after(events).stored(i).len(),
        commands_of(c.after(events).stored(i).take(k as int)) == commands_of(
            c.after(events).stored(j).take(k as int),
        ),
{
    let d = c.after(events);
    law_stored_entries_are_the_log(c, events, i);
    law_stored_entries_are_the_log(c, events, j);
    assert(events.take(events.len() as int) =~= events);
    assert forall|q: int| 0 <= q < k implies d.stored(i)[q] == d.stored(j)[q] by {
        law_committed_never_diverges(c, events, events.len() as int, i, j, q + 1);
    }
    assert(d.stored(i).take(k as int) =~= d.stored(j).take(k as int));
}

/// What a member hands to its state machine are its stored commands, from the first one that it
/// has not applied up to its commit index.
pub proof fn law_drained_commands_are_stored(c: Cluster, events: Seq<Event>, i: usize)
    requires
        c.is_initial(),
        c.allows(events),
        is_member(c.members, i as int),
    ensures
        ({
            let n = c.after(events).nodes[i];
            commands_between(n.log, n.applied, n.commit) == commands_of(
                c.after(events).stored(i).subrange(n.applied as int, n.commit as int),
            )
        }),
{
    let (x, h) = lemma_run(c, events, events.len() as int);
    let d = c.after(events);
    let n = d.nodes[i];
    law_stored_entries_are_the_log(c, events, i);
    lemma_drained(d, h, i);
    assert(commands_between(n.log, n.applied, n.commit) =~= commands_of(
        d.stored(i).subrange(n.applied as int, n.commit as int),
    ));
}

/// Commands are drained one by one in index order, without a gap.
pub proof fn lemma_commands_between(log: LogView, from: u64, to: u64)
    requires
        log.wf(),
        log.snapshot_index <= from,
        to <= log.snapshot_index + log.entries.len(),
    ensures
        commands_between(log, from, to).len() == if to <= from {
            0
        } else {
            to - from
        },
        forall|k: int|
            0 <= k < commands_between(log, from, to).len() ==> #[trigger] commands_between(
                log,
                from,
                to,
            )[k] == ((from + 1 + k) as u64, log.entries[from + k - log.snapshot_index].command),
    decreases to,
{
    if to > from {
        lemma_commands_between(log, from, (to - 1) as u64);
    }
}

/// No event but a restart moves a member's commit index back, and none moves its term back.
pub proof fn law_commit_and_term_only_grow(c: Cluster, events: Seq<Event>, e: Event, i: usize)
    requires
        c.is_initial(),
        c.allows(events),
        c.after(events).enabled(e),
        is_member(c.members, i as int),
    ensures
        c.after(events).nodes[i].term <= c.after(events).next(e).nodes[i].term,
        e is Restart || c.after(events).nodes[i].commit <= c.after(events).next(e).nodes[i].commit,
{
    let (x, h) = lemma_run(c, events, events.len() as int);
    lemma_grows(c.after(events), h, e, i);
}

#[verifier::spinoff_prover]
#[verifier::rlimit(60)]
proof fn lemma_grows(d: Cluster, h: History, e: Event, i: usize)
    requires
        inv(d, h),
        d.enabled(e),
        is_member(d.members, i as int),
    ensures
        d.nodes[i].term <= d.next(e).nodes[i].term,
        e is Restart || d.nodes[i].commit <= d.next(e).nodes[i].commit,
{
    let at = d.effect(e).0;
    assert(node_ok(d, h, at));
    let n = d.nodes[at];
    match e {
        Event::Deliver { packet } => {
            assert(packet_ok(d, h, packet));
            match packet.msg {
                MsgView::AppendEntries {
                    term,
                    leader,
                    prev_log_index,
                    prev_log_term,
                    entries,
                    leader_commit,
                } => {
                    if term >= n.term && n.agrees_at(prev_log_index, prev_log_term) {
                        let s = n.seeing(term);
                        lemma_term_vote_merge(n.log, term, None, entries);
                        lemma_log_tail(d.folded[at], n.log);
                        lemma_merge_wf(s.log, entries);
                        merge(s.log, entries).lemma_last_index();
                    }
                },
                MsgView::AppendEntriesResp { term, success, match_index } => {
                    if n.role == Role::Leader && term == n.term && success {
                        let m = if n.matched[packet.from as int] < match_index {
                            match_index
                        } else {
                            n.matched[packet.from as int]
                        };
                        let n2 = NodeView {
                            matched: n.matched.update(packet.from as int, m),
                            next: n.next.update(packet.from as int, (m + 1) as u64),
                            ..n
                        };
                        lemma_commit_below(n2, n2.log.last_index());
                    }
                },
                _ => {},
            }
        },
        _ => {},
    }
}

} // verus!
