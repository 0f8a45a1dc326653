use vstd::prelude::*;
use crate::constants::fixed_sizes::{ALPHA, K_BUCKET_SIZE};
use crate::dht::distance::{
    distance_lt, lemma_lex_transitive, lemma_lex_trichotomy, lex_lt, rd_pairs, sort_by_distance,
    sorted_by_distance, stable_sorted, RoutingDistance,
};
use crate::dht::routing_table::nearest_of;
use crate::network::key::{spec_xor, Key};
use crate::network::node::Node;
use crate::network::rpc::Rpc;

verus! {

broadcast use vstd::seq_lib::group_to_multiset_ensures;

/// What identifies an entry of a lookup: the contact's address, identifier
/// and distance.
pub open spec fn ev(r: RoutingDistance) -> (Seq<char>, u16, Seq<u8>, Seq<u8>) {
    (r.0.ip@, r.0.port, r.0.id@, r.1@)
}

/// The identifying views of a sequence of entries.
pub open spec fn evs(s: Seq<RoutingDistance>) -> Seq<(Seq<char>, u16, Seq<u8>, Seq<u8>)> {
    s.map_values(|r: RoutingDistance| ev(r))
}

/// The `queried` set and the `to_query` queue after the entries of `nds`,
/// in order, are offered: an entry not yet queried joins both.
pub open spec fn absorb_entries(
    queried: Seq<RoutingDistance>,
    to_query: Seq<RoutingDistance>,
    nds: Seq<RoutingDistance>,
) -> (Seq<RoutingDistance>, Seq<RoutingDistance>)
    decreases nds.len(),
{
    if nds.len() == 0 {
        (queried, to_query)
    } else {
        let prev = absorb_entries(queried, to_query, nds.drop_last());
        if evs(prev.0).contains(ev(nds.last())) {
            prev
        } else {
            (prev.0.push(nds.last()), prev.1.push(nds.last()))
        }
    }
}

/// The entries of contacts with their distance to `key`.
pub open spec fn entries_for(ns: Seq<Node>, key: Seq<u8>) -> Seq<(Node, Seq<u8>)> {
    ns.map_values(|n: Node| (n, spec_xor(n.id@, key)))
}

/// A lookup queues each entry at most once: offering entries appends the
/// same new entries to `queried` and to `to_query`, none of them queued
/// before, and `queried` keeps no entry twice.
pub proof fn lemma_absorb_queues_only_new(
    queried: Seq<RoutingDistance>,
    to_query: Seq<RoutingDistance>,
    nds: Seq<RoutingDistance>,
)
    requires
        evs(queried).no_duplicates(),
    ensures
        ({
            let r = absorb_entries(queried, to_query, nds);
            let added = r.0.subrange(queried.len() as int, r.0.len() as int);
            &&& queried.len() <= r.0.len()
            &&& r.0 == queried + added
            &&& r.1 == to_query + added
            &&& evs(r.0).no_duplicates()
            &&& forall|i: int| 0 <= i < added.len() ==> !evs(queried).contains(ev(#[trigger] added[i]))
        }),
    decreases nds.len(),
{
    let r = absorb_entries(queried, to_query, nds);
    if nds.len() == 0 {
        assert(r.0.subrange(queried.len() as int, r.0.len() as int) =~= Seq::<RoutingDistance>::empty());
        assert(queried + Seq::<RoutingDistance>::empty() =~= queried);
        assert(to_query + Seq::<RoutingDistance>::empty() =~= to_query);
    } else {
        lemma_absorb_queues_only_new(queried, to_query, nds.drop_last());
        let p = absorb_entries(queried, to_query, nds.drop_last());
        let pa = p.0.subrange(queried.len() as int, p.0.len() as int);
        let x = nds.last();
        if !evs(p.0).contains(ev(x)) {
            let added = r.0.subrange(queried.len() as int, r.0.len() as int);
            assert(added =~= pa.push(x));
            assert(r.0 =~= queried + added);
            assert(r.1 =~= to_query + added);
            assert(evs(r.0) =~= evs(p.0).push(ev(x)));
            assert forall|a: int, b: int|
                0 <= a < evs(r.0).len() && 0 <= b < evs(r.0).len() && a != b implies evs(r.0)[a]
                != evs(r.0)[b] by {
                if a < p.0.len() && b < p.0.len() {
                    assert(evs(p.0)[a] != evs(p.0)[b]);
                } else if a < p.0.len() {
                    assert(evs(r.0)[a] == evs(p.0)[a]);
                } else {
                    assert(evs(r.0)[b] == evs(p.0)[b]);
                }
            }
            assert forall|i: int| 0 <= i < added.len() implies !evs(queried).contains(
                ev(#[trigger] added[i]),
            ) by {
                if i < pa.len() {
                    assert(added[i] == pa[i]);
                } else {
                    if evs(queried).contains(ev(x)) {
                        let w = choose|w: int| 0 <= w < evs(queried).len() && evs(queried)[w] == ev(x);
                        assert(evs(p.0)[w] == evs(queried)[w]);
                    }
                }
            }
        }
    }
}

/// The state of an iterative lookup: the entries still to query, those ever
/// queued, and those that answered.
#[derive(Debug)]
pub struct Lookup {
    pub to_query: Vec<RoutingDistance>,
    pub queried: Vec<RoutingDistance>,
    pub nodes: Vec<RoutingDistance>,
}

fn same_entry(a: &RoutingDistance, b: &RoutingDistance) -> (res: bool)
    ensures
        res == (ev(*a) == ev(*b)),
{
    a.0.ip == b.0.ip && a.0.port == b.0.port && a.0.id == b.0.id && *a == *b
}

fn contains_entry(v: &Vec<RoutingDistance>, x: &RoutingDistance) -> (res: bool)
    ensures
        res == evs(v@).contains(ev(*x)),
{
    let mut i: usize = 0;
    while i < v.len()
        invariant
            i <= v@.len(),
            forall|j: int| 0 <= j < i ==> ev(#[trigger] v@[j]) != ev(*x),
        decreases v@.len() - i,
    {
        if same_entry(&v[i], x) {
            assert(evs(v@)[i as int] == ev(*x));
            return true;
        }
        i = i + 1;
    }
    proof {
        if evs(v@).contains(ev(*x)) {
            let j = choose|j: int| 0 <= j < evs(v@).len() && evs(v@)[j] == ev(*x);
            assert(ev(v@[j]) == ev(*x));
        }
    }
    false
}

impl Lookup {
    /// No entry of `queried` is there twice, and every entry to query is in
    /// `queried`.
    pub open spec fn wf(&self) -> bool {
        &&& evs(self.queried@).no_duplicates()
        &&& forall|i: int|
            0 <= i < self.to_query@.len() ==> evs(self.queried@).contains(
                ev(#[trigger] self.to_query@[i]),
            )
    }

    /// A lookup that starts from `initial`: all of it is to query, and each
    /// distinct entry of it is queued once.
    pub fn new(initial: Vec<RoutingDistance>) -> (l: Lookup)
        ensures
            l.wf(),
            l.to_query@ == initial@,
            l.nodes@ == Seq::<RoutingDistance>::empty(),
            l.queried@ == absorb_entries(
                Seq::<RoutingDistance>::empty(),
                Seq::<RoutingDistance>::empty(),
                initial@,
            ).0,
    {
        let mut queried: Vec<RoutingDistance> = Vec::new();
        let mut shadow: Vec<RoutingDistance> = Vec::new();
        let mut i: usize = 0;
        assert(initial@.take(0) =~= Seq::<RoutingDistance>::empty());
        while i < initial.len()
            invariant
                i <= initial@.len(),
                (queried@, shadow@) == absorb_entries(
                    Seq::<RoutingDistance>::empty(),
                    Seq::<RoutingDistance>::empty(),
                    initial@.take(i as int),
                ),
                evs(queried@).no_duplicates(),
                forall|j: int|
                    0 <= j < i ==> evs(queried@).contains(ev(#[trigger] initial@[j])),
            decreases initial@.len() - i,
        {
            let x = initial[i].clone();
            assert(initial@.take(i + 1).drop_last() =~= initial@.take(i as int));
            if !contains_entry(&queried, &x) {
                let ghost before = queried@;
                queried.push(x.clone());
                shadow.push(x);
                proof {
                    assert(evs(queried@) =~= evs(before).push(ev(initial@[i as int])));
                    assert forall|j: int| 0 <= j <= i implies evs(queried@).contains(
                        ev(#[trigger] initial@[j]),
                    ) by {
                        if j < i {
                            let w = choose|w: int|
                                0 <= w < evs(before).len() && evs(before)[w] == ev(initial@[j]);
                            assert(evs(queried@)[w] == ev(initial@[j]));
                        } else {
                            assert(evs(queried@)[before.len() as int] == ev(initial@[j]));
                        }
                    }
                }
            }
            i = i + 1;
        }
        assert(initial@.take(initial@.len() as int) =~= initial@);
        Lookup { to_query: initial, queried, nodes: Vec::new() }
    }

    /// Whether nothing is left to query.
    pub fn is_done(&self) -> (res: bool)
        ensures
            res == (self.to_query@.len() == 0),
    {
        self.to_query.len() == 0
    }

    /// Takes the at most `ALPHA` entries nearest to the target out of the
    /// queue, nearest first.
    pub fn next_batch(&mut self) -> (batch: Vec<RoutingDistance>)
        requires
            old(self).wf(),
        ensures
            final(self).wf(),
            final(self).queried == old(self).queried,
            final(self).nodes == old(self).nodes,
            batch@.len() == if old(self).to_query@.len() < ALPHA {
                old(self).to_query@.len() as int
            } else {
                ALPHA as int
            },
            batch@.to_multiset().add(final(self).to_query@.to_multiset()) == old(
                self,
            ).to_query@.to_multiset(),
            sorted_by_distance(rd_pairs(batch@)),
            forall|a: int, b: int|
                0 <= a < batch@.len() && 0 <= b < final(self).to_query@.len() ==> !lex_lt(
                    (#[trigger] final(self).to_query@[b]).1@,
                    (#[trigger] batch@[a]).1@,
                ),
    {
        let ghost q0 = self.to_query@;
        let mut batch: Vec<RoutingDistance> = Vec::new();
        let mut n: usize = 0;
        while n < ALPHA
            invariant
                n <= ALPHA,
                batch@.len() == n,
                self.queried == old(self).queried,
                self.nodes == old(self).nodes,
                self.wf(),
                q0 == old(self).to_query@,
                batch@.to_multiset().add(self.to_query@.to_multiset()) == q0.to_multiset(),
                n + self.to_query@.len() == q0.len(),
                sorted_by_distance(rd_pairs(batch@)),
                forall|a: int, b: int|
                    0 <= a < batch@.len() && 0 <= b < self.to_query@.len() ==> !lex_lt(
                        (#[trigger] self.to_query@[b]).1@,
                        (#[trigger] batch@[a]).1@,
                    ),
            ensures
                batch@.len() == n,
                n == ALPHA || self.to_query@.len() == 0,
                self.queried == old(self).queried,
                self.nodes == old(self).nodes,
                self.wf(),
                batch@.to_multiset().add(self.to_query@.to_multiset()) == q0.to_multiset(),
                n + self.to_query@.len() == q0.len(),
                sorted_by_distance(rd_pairs(batch@)),
                forall|a: int, b: int|
                    0 <= a < batch@.len() && 0 <= b < self.to_query@.len() ==> !lex_lt(
                        (#[trigger] self.to_query@[b]).1@,
                        (#[trigger] batch@[a]).1@,
                    ),
            decreases ALPHA - n,
        {
            if self.to_query.len() == 0 {
                break;
            }
            let mut best: usize = 0;
            let mut j: usize = 1;
            proof {
                lemma_lex_trichotomy(self.to_query@[0].1@, self.to_query@[0].1@);
            }
            while j < self.to_query.len()
                invariant
                    best < j <= self.to_query@.len(),
                    forall|k: int|
                        0 <= k < j ==> !lex_lt(
                            (#[trigger] self.to_query@[k]).1@,
                            self.to_query@[best as int].1@,
                        ),
                decreases self.to_query@.len() - j,
            {
                if distance_lt(&self.to_query[j].1, &self.to_query[best].1) {
                    proof {
                        assert forall|k: int| 0 <= k < j + 1 implies !lex_lt(
                            (#[trigger] self.to_query@[k]).1@,
                            self.to_query@[j as int].1@,
                        ) by {
                            let a = self.to_query@[k].1@;
                            let bb = self.to_query@[best as int].1@;
                            let c = self.to_query@[j as int].1@;
                            lemma_lex_trichotomy(a, c);
                            lemma_lex_trichotomy(a, bb);
                            if lex_lt(a, c) {
                                lemma_lex_transitive(a, c, bb);
                            }
                        }
                    }
                    best = j;
                }
                j = j + 1;
            }
            let ghost before_q = self.to_query@;
            let ghost before_b = batch@;
            let x = self.to_query.remove(best);
            batch.push(x);
            proof {
                let xd = x.1@;
                assert(batch@ =~= before_b.push(x));
                assert(self.to_query@ =~= before_q.remove(best as int));
                assert(batch@.to_multiset() =~= before_b.to_multiset().insert(x));
                assert(before_q.to_multiset() =~= self.to_query@.to_multiset().insert(x)) by {
                    assert(before_q.remove(best as int).to_multiset() =~= before_q.to_multiset().remove(x));
                }
                assert forall|i: int| 0 <= i < self.to_query@.len() implies evs(
                    self.queried@,
                ).contains(ev(#[trigger] self.to_query@[i])) by {
                    if i < best {
                        assert(self.to_query@[i] == before_q[i]);
                    } else {
                        assert(self.to_query@[i] == before_q[i + 1]);
                    }
                }
                assert forall|a: int, b: int|
                    0 <= a < batch@.len() && 0 <= b < self.to_query@.len() implies !lex_lt(
                    (#[trigger] self.to_query@[b]).1@,
                    (#[trigger] batch@[a]).1@,
                ) by {
                    let b2 = if b < best { b } else { b + 1 };
                    assert(self.to_query@[b] == before_q[b2]);
                    if a < before_b.len() {
                        assert(batch@[a] == before_b[a]);
                    } else {
                        assert(batch@[a] == x);
                    }
                }
                let p = rd_pairs(batch@);
                assert forall|a: int, b: int| 0 <= a < b < p.len() implies !lex_lt(
                    #[trigger] p[b].1,
                    #[trigger] p[a].1,
                ) by {
                    if b == p.len() - 1 {
                        assert(p[b].1 == xd);
                        assert(before_q[best as int] == x);
                        assert(batch@[a] == before_b[a]);
                        assert(p[a].1 == before_b[a].1@);
                    } else {
                        assert(p[a] == rd_pairs(before_b)[a]);
                        assert(p[b] == rd_pairs(before_b)[b]);
                    }
                }
            }
            n = n + 1;
        }
        batch
    }

    fn absorb(&mut self, nds: &Vec<RoutingDistance>)
        requires
            old(self).wf(),
        ensures
            final(self).wf(),
            final(self).nodes == old(self).nodes,
            (final(self).queried@, final(self).to_query@) == absorb_entries(
                old(self).queried@,
                old(self).to_query@,
                nds@,
            ),
    {
        let ghost q0 = self.queried@;
        let ghost t0 = self.to_query@;
        let mut i: usize = 0;
        assert(nds@.take(0) =~= Seq::<RoutingDistance>::empty());
        while i < nds.len()
            invariant
                i <= nds@.len(),
                self.wf(),
                self.nodes == old(self).nodes,
                (self.queried@, self.to_query@) == absorb_entries(q0, t0, nds@.take(i as int)),
            decreases nds@.len() - i,
        {
            let x = nds[i].clone();
            assert(nds@.take(i + 1).drop_last() =~= nds@.take(i as int));
            if !contains_entry(&self.queried, &x) {
                let ghost bq = self.queried@;
                let ghost bt = self.to_query@;
                self.queried.push(x.clone());
                self.to_query.push(x);
                proof {
                    assert(evs(self.queried@) =~= evs(bq).push(ev(nds@[i as int])));
                    assert forall|a: int, b: int|
                        0 <= a < evs(self.queried@).len() && 0 <= b < evs(self.queried@).len()
                            && a != b implies evs(self.queried@)[a] != evs(self.queried@)[b] by {
                        if a < bq.len() && b < bq.len() {
                            assert(evs(bq)[a] != evs(bq)[b]);
                        } else if a < bq.len() {
                            assert(evs(bq)[a] == evs(self.queried@)[a]);
                        } else {
                            assert(evs(bq)[b] == evs(self.queried@)[b]);
                        }
                    }
                    assert forall|k: int| 0 <= k < self.to_query@.len() implies evs(
                        self.queried@,
                    ).contains(ev(#[trigger] self.to_query@[k])) by {
                        if k < bt.len() {
                            assert(self.to_query@[k] == bt[k]);
                            let w = choose|w: int|
                                0 <= w < evs(bq).len() && evs(bq)[w] == ev(bt[k]);
                            assert(evs(self.queried@)[w] == ev(bt[k]));
                        } else {
                            assert(evs(self.queried@)[bq.len() as int] == ev(
                                self.to_query@[k],
                            ));
                        }
                    }
                }
            }
            i = i + 1;
        }
        assert(nds@.take(nds@.len() as int) =~= nds@);
    }

    /// Records the answer to `FindNode` of the queried entry `query`: where
    /// there is one, `query` joins the answering nodes and each answered entry
    /// not queued before joins the queue.
    pub fn absorb_find_node(
        &mut self,
        query: RoutingDistance,
        result: Option<Vec<RoutingDistance>>,
    )
        requires
            old(self).wf(),
        ensures
            final(self).wf(),
            match result {
                Some(nds) => final(self).nodes@ == old(self).nodes@.push(query) && (
                final(self).queried@,
                final(self).to_query@,
            ) == absorb_entries(old(self).queried@, old(self).to_query@, nds@),
                None => final(self).nodes == old(self).nodes && final(self).queried == old(
                    self,
                ).queried && final(self).to_query == old(self).to_query,
            },
    {
        if let Some(nds) = result {
            self.nodes.push(query);
            self.absorb(&nds);
        }
    }

    /// Records the answer to `FindValue` of the queried entry `query`. A
    /// `FindValueReply` ends the lookup with its value; a `FindNodeReply`
    /// makes `query` join the answering nodes and offers each contact of the
    /// reply, with its distance to `key_search`, to the queue; anything else
    /// changes nothing.
    pub fn absorb_find_value(
        &mut self,
        query: RoutingDistance,
        result: Option<Rpc>,
        key_search: &Key,
    ) -> (found: Option<String>)
        requires
            old(self).wf(),
        ensures
            final(self).wf(),
            match result {
                Some(Rpc::FindValueReply(_, v)) => found == Some(v) && final(self).nodes
                    == old(self).nodes && final(self).queried == old(self).queried
                    && final(self).to_query == old(self).to_query,
                Some(Rpc::FindNodeReply(ns)) => found is None && final(self).nodes@ == old(
                    self,
                ).nodes@.push(query) && exists|nds: Seq<RoutingDistance>|
                    #![trigger absorb_entries(old(self).queried@, old(self).to_query@, nds)]
                    rd_pairs(nds) == entries_for(ns@, key_search@) && (
                    final(self).queried@,
                    final(self).to_query@,
                ) == absorb_entries(old(self).queried@, old(self).to_query@, nds),
                _ => found is None && final(self).nodes == old(self).nodes && final(self).queried
                    == old(self).queried && final(self).to_query == old(self).to_query,
            },
    {
        match result {
            Some(Rpc::FindValueReply(_, v)) => Some(v),
            Some(Rpc::FindNodeReply(ns)) => {
                self.nodes.push(query);
                let mut nds: Vec<RoutingDistance> = Vec::new();
                let mut i: usize = 0;
                while i < ns.len()
                    invariant
                        i <= ns@.len(),
                        rd_pairs(nds@) == entries_for(ns@.take(i as int), key_search@),
                    decreases ns@.len() - i,
                {
                    let n = ns[i].clone();
                    let d = n.id.distance(key_search);
                    let ghost before = nds@;
                    nds.push(RoutingDistance(n, d));
                    proof {
                        assert(rd_pairs(nds@) =~= rd_pairs(before).push((ns@[i as int], d@)));
                        assert(ns@.take(i + 1) =~= ns@.take(i as int).push(ns@[i as int]));
                        assert(rd_pairs(nds@) =~= entries_for(ns@.take(i + 1), key_search@));
                    }
                    i = i + 1;
                }
                assert(ns@.take(ns@.len() as int) =~= ns@);
                self.absorb(&nds);
                None
            },
            _ => None,
        }
    }

    /// The at most `K_BUCKET_SIZE` answering nodes nearest to the target,
    /// nearest first; nodes at one distance keep the order in which they
    /// answered.
    pub fn finish(&self) -> (res: Vec<RoutingDistance>)
        ensures
            res@.len() == if K_BUCKET_SIZE < self.nodes@.len() {
                K_BUCKET_SIZE as int
            } else {
                self.nodes@.len() as int
            },
            sorted_by_distance(rd_pairs(res@)),
            nearest_of(rd_pairs(res@), rd_pairs(self.nodes@)),
            rd_pairs(res@) == stable_sorted(rd_pairs(self.nodes@)).take(res@.len() as int),
    {
        let mut sorted = sort_by_distance(&self.nodes);
        let ghost full = rd_pairs(sorted@);
        sorted.truncate(K_BUCKET_SIZE);
        proof {
            assert(rd_pairs(sorted@) =~= full.take(sorted@.len() as int));
            assert forall|i: int, j: int|
                0 <= i < j < rd_pairs(sorted@).len() implies !lex_lt(
                #[trigger] rd_pairs(sorted@)[j].1,
                #[trigger] rd_pairs(sorted@)[i].1,
            ) by {
                assert(rd_pairs(sorted@)[j] == full[j]);
                assert(rd_pairs(sorted@)[i] == full[i]);
            }
        }
        sorted
    }
}

} // verus!
