use vstd::prelude::*;
use crate::constants::fixed_sizes::{KEY_SIZE, K_BUCKET_SIZE, N_BUCKETS};
use crate::dht::distance::{
    lemma_stable_sorted_keeps_entries, rd_pairs, sort_by_distance, sorted_by_distance, stable_sorted,
    RoutingDistance,
};
use crate::network::key::{spec_xor, Key};
use crate::network::node::{Node, ThrustAndReputation};

verus! {

broadcast use vstd::seq_lib::group_to_multiset_ensures;

/// Interaction counts per peer identifier. No identifier occurs twice.
#[derive(Debug)]
pub struct ReputationTable {
    entries: Vec<(Key, ThrustAndReputation)>,
}

impl ReputationTable {
    /// No identifier occurs twice among the entries.
    pub closed spec fn wf(&self) -> bool {
        forall|i: int, j: int|
            0 <= i < j < self.entries@.len() ==> (#[trigger] self.entries@[i]).0@
                != (#[trigger] self.entries@[j]).0@
    }

    /// The counts recorded for each identifier.
    pub closed spec fn view(&self) -> Map<Seq<u8>, ThrustAndReputation> {
        Map::new(
            |k: Seq<u8>| exists|i: int| 0 <= i < self.entries@.len() && self.entries@[i].0@ == k,
            |k: Seq<u8>|
                self.entries@[choose|i: int|
                    0 <= i < self.entries@.len() && self.entries@[i].0@ == k].1,
        )
    }

    proof fn lemma_view_at(&self, i: int)
        requires
            self.wf(),
            0 <= i < self.entries@.len(),
        ensures
            self@.contains_key(self.entries@[i].0@),
            self@[self.entries@[i].0@] == self.entries@[i].1,
    {
        let k = self.entries@[i].0@;
        let c = choose|c: int| 0 <= c < self.entries@.len() && self.entries@[c].0@ == k;
        if c != i {
            if c < i {
                assert(self.entries@[c].0@ != self.entries@[i].0@);
            } else {
                assert(self.entries@[i].0@ != self.entries@[c].0@);
            }
        }
    }

    /// A table with no entry.
    pub fn new() -> (r: Self)
        ensures
            r.wf(),
            r@ == Map::<Seq<u8>, ThrustAndReputation>::empty(),
    {
        let r = ReputationTable { entries: Vec::new() };
        assert(r@ =~= Map::<Seq<u8>, ThrustAndReputation>::empty());
        r
    }

    fn find(&self, key: &Key) -> (res: Option<usize>)
        ensures
            match res {
                Some(i) => i < self.entries@.len() && self.entries@[i as int].0@ == key@,
                None => forall|i: int|
                    0 <= i < self.entries@.len() ==> (#[trigger] self.entries@[i]).0@ != key@,
            },
    {
        let mut i: usize = 0;
        while i < self.entries.len()
            invariant
                i <= self.entries@.len(),
                forall|j: int| 0 <= j < i ==> (#[trigger] self.entries@[j]).0@ != key@,
            decreases self.entries@.len() - i,
        {
            if self.entries[i].0 == *key {
                return Some(i);
            }
            i = i + 1;
        }
        None
    }

    /// Whether counts are recorded for `key`.
    pub fn contains_key(&self, key: &Key) -> (res: bool)
        requires
            self.wf(),
        ensures
            res == self@.contains_key(key@),
    {
        match self.find(key) {
            Some(i) => {
                proof {
                    self.lemma_view_at(i as int);
                }
                true
            },
            None => false,
        }
    }

    /// The counts recorded for `key`, if any.
    pub fn get(&self, key: &Key) -> (res: Option<ThrustAndReputation>)
        requires
            self.wf(),
        ensures
            res == (if self@.contains_key(key@) {
                Some(self@[key@])
            } else {
                None::<ThrustAndReputation>
            }),
    {
        match self.find(key) {
            Some(i) => {
                proof {
                    self.lemma_view_at(i as int);
                }
                Some(self.entries[i].1)
            },
            None => None,
        }
    }

    /// Records `value` as the counts of `key`, replacing what was there.
    pub fn insert(&mut self, key: Key, value: ThrustAndReputation)
        requires
            old(self).wf(),
        ensures
            final(self).wf(),
            final(self)@ == old(self)@.insert(key@, value),
    {
        let ghost old_self = *self;
        match self.find(&key) {
            Some(i) => {
                self.entries.set(i, (key, value));
                proof {
                    assert forall|a: int, b: int|
                        0 <= a < b < self.entries@.len() implies (#[trigger] self.entries@[a]).0@
                        != (#[trigger] self.entries@[b]).0@ by {
                        assert(self.entries@[a].0@ == old_self.entries@[a].0@);
                        assert(self.entries@[b].0@ == old_self.entries@[b].0@);
                        assert(old_self.entries@[a].0@ != old_self.entries@[b].0@);
                    }
                    assert forall|k: Seq<u8>| #[trigger] self@.contains_key(k) == old_self@.insert(
                        key@,
                        value,
                    ).contains_key(k) && (self@.contains_key(k) ==> self@[k] == old_self@.insert(
                        key@,
                        value,
                    )[k]) by {
                        if exists|j: int| 0 <= j < self.entries@.len() && self.entries@[j].0@ == k {
                            let j = choose|j: int|
                                0 <= j < self.entries@.len() && self.entries@[j].0@ == k;
                            self.lemma_view_at(j);
                            if j != i {
                                old_self.lemma_view_at(j);
                            }
                        } else {
                            assert forall|j: int| 0 <= j < old_self.entries@.len() implies old_self.entries@[j].0@ != k by {
                                assert(self.entries@[j].0@ == old_self.entries@[j].0@);
                            }
                        }
                    }
                    assert(self@ =~= old_self@.insert(key@, value));
                }
            },
            None => {
                self.entries.push((key, value));
                proof {
                    let n = old_self.entries@.len() as int;
                    assert forall|a: int, b: int|
                        0 <= a < b < self.entries@.len() implies (#[trigger] self.entries@[a]).0@
                        != (#[trigger] self.entries@[b]).0@ by {
                        if b == n {
                            assert(old_self.entries@[a].0@ != key@);
                        } else {
                            assert(old_self.entries@[a].0@ != old_self.entries@[b].0@);
                        }
                    }
                    assert forall|k: Seq<u8>| #[trigger] self@.contains_key(k) == old_self@.insert(
                        key@,
                        value,
                    ).contains_key(k) && (self@.contains_key(k) ==> self@[k] == old_self@.insert(
                        key@,
                        value,
                    )[k]) by {
                        if exists|j: int| 0 <= j < self.entries@.len() && self.entries@[j].0@ == k {
                            let j = choose|j: int|
                                0 <= j < self.entries@.len() && self.entries@[j].0@ == k;
                            self.lemma_view_at(j);
                            if j != n {
                                old_self.lemma_view_at(j);
                            }
                        } else {
                            assert(self.entries@[n].0@ == key@);
                            assert forall|j: int| 0 <= j < old_self.entries@.len() implies old_self.entries@[j].0@ != k by {
                                assert(self.entries@[j] == old_self.entries@[j]);
                            }
                        }
                    }
                    assert(self@ =~= old_self@.insert(key@, value));
                }
            },
        }
    }
}

/// Bit `q` of a key-sized byte string read as a big-endian number, counted
/// from its least significant bit: the bit of value `2^q`.
pub open spec fn bit_set(d: Seq<u8>, q: int) -> bool {
    (d[31 - q / 8] & (1u8 << ((q % 8) as u8))) != 0u8
}

/// The highest-numbered set bit below `n`, if any.
pub open spec fn last_set_bit(d: Seq<u8>, n: int) -> Option<int>
    decreases n,
{
    if n <= 0 {
        None
    } else if bit_set(d, n - 1) {
        Some(n - 1)
    } else {
        last_set_bit(d, n - 1)
    }
}

/// The bucket of a contact at distance `d`: `j` with `2^j <= d < 2^(j+1)`,
/// the position of the highest set bit of `d` (`d`'s whole base-2
/// logarithm); the last bucket when `d` is zero.
pub open spec fn spec_bucket_index(d: Seq<u8>) -> int {
    match last_set_bit(d, N_BUCKETS as int) {
        Some(p) => p,
        None => N_BUCKETS - 1,
    }
}

/// The bucket, in the table of the node `own`, of the contact `id`.
pub open spec fn bucket_of(own: Seq<u8>, id: Seq<u8>) -> int {
    spec_bucket_index(spec_xor(own, id))
}

/// The contacts of each bucket.
pub open spec fn bucket_seqs(bs: Seq<Bucket>) -> Seq<Seq<Node>> {
    bs.map_values(|b: Bucket| b.nodes@)
}

/// Whole buckets `b`, `b + 1`, ... appended to `acc` while it holds fewer than
/// `cap` contacts, stopping before the last bucket.
pub open spec fn gather_forward(bs: Seq<Seq<Node>>, b: int, cap: nat, acc: Seq<Node>) -> Seq<Node>
    decreases N_BUCKETS - b,
{
    if acc.len() < cap && 0 <= b < N_BUCKETS - 1 {
        gather_forward(bs, b + 1, cap, acc + bs[b])
    } else {
        acc
    }
}

/// Whole buckets `r - 1`, `r - 2`, ... appended to `acc` while it holds fewer
/// than `cap` contacts.
pub open spec fn gather_backward(bs: Seq<Seq<Node>>, r: int, cap: nat, acc: Seq<Node>) -> Seq<Node>
    decreases r,
{
    if acc.len() < cap && r > 0 {
        gather_backward(bs, r - 1, cap, acc + bs[r - 1])
    } else {
        acc
    }
}

/// How many contacts buckets `lo` to `hi - 1` hold together.
pub open spec fn bucket_total(bs: Seq<Seq<Node>>, lo: int, hi: int) -> nat
    decreases hi - lo,
{
    if lo >= hi {
        0
    } else {
        bs[lo].len() + bucket_total(bs, lo + 1, hi)
    }
}

proof fn lemma_bucket_total_split(bs: Seq<Seq<Node>>, lo: int, mid: int, hi: int)
    requires
        lo <= mid <= hi,
    ensures
        bucket_total(bs, lo, hi) == bucket_total(bs, lo, mid) + bucket_total(bs, mid, hi),
    decreases mid - lo,
{
    if lo < mid {
        lemma_bucket_total_split(bs, lo + 1, mid, hi);
    }
}

/// While fewer than `cap` contacts would be gathered, the forward gathering
/// keeps what it had and takes every contact of buckets `b` to the one before
/// the last.
proof fn lemma_gather_forward_all(bs: Seq<Seq<Node>>, b: int, cap: nat, acc: Seq<Node>)
    requires
        0 <= b <= N_BUCKETS - 1,
        acc.len() + bucket_total(bs, b, N_BUCKETS - 1) < cap,
    ensures
        gather_forward(bs, b, cap, acc).len() == acc.len() + bucket_total(bs, b, N_BUCKETS - 1),
        forall|i: int| 0 <= i < acc.len() ==> #[trigger] gather_forward(bs, b, cap, acc)[i] == acc[i],
        forall|c: int, i: int|
            b <= c < N_BUCKETS - 1 && 0 <= i < bs[c].len() ==> gather_forward(bs, b, cap, acc).contains(
                #[trigger] bs[c][i],
            ),
    decreases N_BUCKETS - b,
{
    if b < N_BUCKETS - 1 {
        let next = acc + bs[b];
        lemma_gather_forward_all(bs, b + 1, cap, next);
        let g = gather_forward(bs, b, cap, acc);
        assert(g == gather_forward(bs, b + 1, cap, next));
        assert forall|i: int| 0 <= i < acc.len() implies #[trigger] g[i] == acc[i] by {
            assert(next[i] == acc[i]);
        }
        assert forall|c: int, i: int| b <= c < N_BUCKETS - 1 && 0 <= i < bs[c].len() implies g.contains(
            #[trigger] bs[c][i],
        ) by {
            if c == b {
                assert(next[acc.len() + i] == bs[b][i]);
                assert(g[acc.len() + i] == bs[b][i]);
            }
        }
    }
}

/// While fewer than `cap` contacts would be gathered, the backward gathering
/// keeps what it had and takes every contact of the buckets below `r`.
proof fn lemma_gather_backward_all(bs: Seq<Seq<Node>>, r: int, cap: nat, acc: Seq<Node>)
    requires
        0 <= r,
        acc.len() + bucket_total(bs, 0, r) < cap,
    ensures
        gather_backward(bs, r, cap, acc).len() == acc.len() + bucket_total(bs, 0, r),
        forall|i: int| 0 <= i < acc.len() ==> #[trigger] gather_backward(bs, r, cap, acc)[i] == acc[i],
        forall|c: int, i: int|
            0 <= c < r && 0 <= i < bs[c].len() ==> gather_backward(bs, r, cap, acc).contains(
                #[trigger] bs[c][i],
            ),
    decreases r,
{
    if r > 0 {
        let next = acc + bs[r - 1];
        lemma_bucket_total_split(bs, 0, r - 1, r);
        assert(bucket_total(bs, r - 1, r) == bs[r - 1].len() + bucket_total(bs, r, r));
        lemma_gather_backward_all(bs, r - 1, cap, next);
        let g = gather_backward(bs, r, cap, acc);
        assert(g == gather_backward(bs, r - 1, cap, next));
        assert forall|i: int| 0 <= i < acc.len() implies #[trigger] g[i] == acc[i] by {
            assert(next[i] == acc[i]);
        }
        assert forall|c: int, i: int| 0 <= c < r && 0 <= i < bs[c].len() implies g.contains(
            #[trigger] bs[c][i],
        ) by {
            if c == r - 1 {
                assert(next[acc.len() + i] == bs[c][i]);
                assert(g[acc.len() + i] == bs[c][i]);
            }
        }
    }
}

/// Each contact paired with its distance to `key`.
pub open spec fn distance_pairs(nodes: Seq<Node>, key: Seq<u8>) -> Seq<(Node, Seq<u8>)> {
    nodes.map_values(|n: Node| (n, spec_xor(n.id@, key)))
}

/// `res` is a nearest-first prefix of `candidates`: the first elements of an
/// ordering of all of them by distance.
pub open spec fn nearest_of(res: Seq<(Node, Seq<u8>)>, candidates: Seq<(Node, Seq<u8>)>) -> bool {
    exists|full: Seq<(Node, Seq<u8>)>|
        #![trigger full.to_multiset()]
        full.to_multiset() == candidates.to_multiset() && sorted_by_distance(full) && res.len()
            <= full.len() && res == full.take(res.len() as int)
}

/// `i` is the first position of a contact with identifier `id`.
pub open spec fn first_with_id(nodes: Seq<Node>, id: Seq<u8>, i: int) -> bool {
    &&& 0 <= i < nodes.len()
    &&& nodes[i].id@ == id
    &&& forall|j: int| 0 <= j < i ==> (#[trigger] nodes[j]).id@ != id
}

/// Some contact has identifier `id`.
pub open spec fn has_id(nodes: Seq<Node>, id: Seq<u8>) -> bool {
    exists|i: int| 0 <= i < nodes.len() && (#[trigger] nodes[i]).id@ == id
}

/// The first position of a contact with identifier `id`.
pub open spec fn first_index(nodes: Seq<Node>, id: Seq<u8>) -> int {
    choose|i: int| first_with_id(nodes, id, i)
}

/// The contacts without the first one with identifier `id`, if there is one.
pub open spec fn without_first(nodes: Seq<Node>, id: Seq<u8>) -> Seq<Node> {
    if has_id(nodes, id) {
        nodes.remove(first_index(nodes, id))
    } else {
        nodes
    }
}

/// The counts of a peer after a first success, when it is seen for the first time.
pub open spec fn first_seen() -> ThrustAndReputation {
    ThrustAndReputation::spec_new().recorded(true)
}

/// The reputation after a contact is seen: counts of a first success for an
/// identifier not yet known.
pub open spec fn seen(rep: Map<Seq<u8>, ThrustAndReputation>, id: Seq<u8>) -> Map<
    Seq<u8>,
    ThrustAndReputation,
> {
    if rep.contains_key(id) {
        rep
    } else {
        rep.insert(id, first_seen())
    }
}

/// The reputation after one more interaction with `id`.
pub open spec fn interacted(
    rep: Map<Seq<u8>, ThrustAndReputation>,
    id: Seq<u8>,
    success: bool,
) -> Map<Seq<u8>, ThrustAndReputation> {
    rep.insert(id, rep[id].recorded(success))
}

proof fn lemma_first_exists(nodes: Seq<Node>, id: Seq<u8>)
    requires
        has_id(nodes, id),
    ensures
        first_with_id(nodes, id, first_index(nodes, id)),
    decreases nodes.len(),
{
    if nodes[0].id@ == id {
        assert(first_with_id(nodes, id, 0));
    } else {
        let t = nodes.drop_first();
        let w = choose|i: int| 0 <= i < nodes.len() && (#[trigger] nodes[i]).id@ == id;
        assert(t[w - 1] == nodes[w]);
        lemma_first_exists(t, id);
        let k = first_index(t, id);
        assert forall|j: int| 0 <= j < k + 1 implies (#[trigger] nodes[j]).id@ != id by {
            if j > 0 {
                assert(nodes[j] == t[j - 1]);
            }
        }
        assert(first_with_id(nodes, id, k + 1));
    }
}

proof fn lemma_first_index(nodes: Seq<Node>, id: Seq<u8>, i: int)
    requires
        first_with_id(nodes, id, i),
    ensures
        first_index(nodes, id) == i,
        has_id(nodes, id),
{
    let c = first_index(nodes, id);
    assert(first_with_id(nodes, id, c));
    if c < i {
        assert(nodes[c].id@ != id);
    }
    if i < c {
        assert(nodes[i].id@ != id);
    }
}

/// What the peer at the head of a full bucket did when pinged.
#[derive(Clone, Copy, Debug, PartialEq, Eq, Structural)]
pub enum PingReply {
    /// It answered.
    Answered,
    /// It did not answer before the timeout.
    TimedOut,
    /// The answer channel was closed before any answer or timeout.
    Unreachable,
}

/// A table whose one changed bucket still holds well-placed contacts with
/// recorded counts, within capacity, is well formed.
proof fn lemma_wf_after_bucket_change(new: &RoutingTable, old: &RoutingTable, b: int)
    requires
        old.wf(),
        0 <= b < N_BUCKETS,
        new.same_except(old, b),
        forall|c: int| 0 <= c < N_BUCKETS ==> (#[trigger] new.buckets@[c]).size == K_BUCKET_SIZE,
        new.bucket(b).len() <= K_BUCKET_SIZE,
        forall|i: int|
            0 <= i < new.bucket(b).len() ==> bucket_of(new.node.id@, (#[trigger] new.bucket(b)[i]).id@)
                == b,
        forall|i: int|
            0 <= i < new.bucket(b).len() ==> new.reputation@.contains_key(
                (#[trigger] new.bucket(b)[i]).id@,
            ),
        forall|k: Seq<u8>| old.reputation@.contains_key(k) ==> #[trigger] new.reputation@.contains_key(k),
        new.reputation.wf(),
    ensures
        new.wf(),
{
    assert forall|c: int| 0 <= c < N_BUCKETS implies (#[trigger] new.buckets@[c]).nodes@.len()
        <= K_BUCKET_SIZE by {
        if c != b {
            assert(new.bucket(c) == old.bucket(c));
        }
    }
    assert forall|c: int, i: int|
        0 <= c < N_BUCKETS && 0 <= i < new.bucket(c).len() implies bucket_of(
        new.node.id@,
        (#[trigger] new.bucket(c)[i]).id@,
    ) == c && new.reputation@.contains_key(new.bucket(c)[i].id@) by {
        if c != b {
            assert(new.bucket(c) == old.bucket(c));
            assert(old.reputation@.contains_key(old.bucket(c)[i].id@));
        }
    }
}

/// A table whose one changed bucket has distinct identifiers keeps distinct
/// identifiers in every bucket.
proof fn lemma_unique_after_bucket_change(new: &RoutingTable, old: &RoutingTable, b: int)
    requires
        old.ids_unique(),
        new.same_except(old, b),
        old.buckets@.len() == N_BUCKETS,
        forall|i: int, j: int|
            0 <= i < j < new.bucket(b).len() ==> (#[trigger] new.bucket(b)[i]).id@ != (
            #[trigger] new.bucket(b)[j]).id@,
    ensures
        new.ids_unique(),
{
    assert forall|c: int, i: int, j: int|
        0 <= c < N_BUCKETS && 0 <= i < j < new.bucket(c).len() implies (#[trigger] new.bucket(
        c,
    )[i]).id@ != (#[trigger] new.bucket(c)[j]).id@ by {
        if c != b {
            assert(new.bucket(c) == old.bucket(c));
            assert(old.bucket(c)[i].id@ != old.bucket(c)[j].id@);
        }
    }
}

/// Removing the first contact with `id` and appending `node`, whose identifier
/// is `id`, keeps identifiers distinct.
proof fn lemma_refresh_unique(nodes: Seq<Node>, id: Seq<u8>, node: Node)
    requires
        node.id@ == id,
        forall|i: int, j: int|
            0 <= i < j < nodes.len() ==> (#[trigger] nodes[i]).id@ != (#[trigger] nodes[j]).id@,
    ensures
        forall|i: int, j: int|
            0 <= i < j < without_first(nodes, id).push(node).len() ==> (
            #[trigger] without_first(nodes, id).push(node)[i]).id@ != (#[trigger] without_first(
                nodes,
                id,
            ).push(node)[j]).id@,
{
    let w = without_first(nodes, id);
    let r = w.push(node);
    if has_id(nodes, id) {
        let k = first_index(nodes, id);
        lemma_first_exists(nodes, id);
        assert forall|i: int| 0 <= i < w.len() implies (#[trigger] w[i]).id@ != id by {
            let i2 = if i < k { i } else { i + 1 };
            assert(w[i] == nodes[i2]);
            if i2 != k {
                if i2 < k {
                    assert(nodes[i2].id@ != nodes[k].id@);
                } else {
                    assert(nodes[k].id@ != nodes[i2].id@);
                }
            }
        }
        assert forall|i: int, j: int| 0 <= i < j < r.len() implies (#[trigger] r[i]).id@ != (
        #[trigger] r[j]).id@ by {
            if j == w.len() {
                assert(r[i] == w[i]);
            } else {
                let i2 = if i < k { i } else { i + 1 };
                let j2 = if j < k { j } else { j + 1 };
                assert(r[i] == nodes[i2]);
                assert(r[j] == nodes[j2]);
            }
        }
    } else {
        assert forall|i: int, j: int| 0 <= i < j < r.len() implies (#[trigger] r[i]).id@ != (
        #[trigger] r[j]).id@ by {
            if j == w.len() {
                assert(r[i] == nodes[i]);
            } else {
                assert(r[i] == nodes[i]);
                assert(r[j] == nodes[j]);
            }
        }
    }
}

/// Moving the head of a bucket to its tail keeps identifiers distinct.
proof fn lemma_rotate_unique(nodes: Seq<Node>)
    requires
        nodes.len() > 0,
        forall|i: int, j: int|
            0 <= i < j < nodes.len() ==> (#[trigger] nodes[i]).id@ != (#[trigger] nodes[j]).id@,
    ensures
        forall|i: int, j: int|
            0 <= i < j < nodes.len() ==> (#[trigger] nodes.drop_first().push(nodes[0])[i]).id@ != (
            #[trigger] nodes.drop_first().push(nodes[0])[j]).id@,
{
    let r = nodes.drop_first().push(nodes[0]);
    assert forall|i: int, j: int| 0 <= i < j < nodes.len() implies (#[trigger] r[i]).id@ != (
    #[trigger] r[j]).id@ by {
        if j == nodes.len() - 1 {
            assert(r[i] == nodes[i + 1]);
            assert(nodes[0].id@ != nodes[i + 1].id@);
        } else {
            assert(r[i] == nodes[i + 1]);
            assert(r[j] == nodes[j + 1]);
        }
    }
}

/// Least-recently-seen order: where its bucket has room, a contact that
/// `update` records ends up at the tail of the bucket, and, when the
/// identifiers of the bucket were distinct, it is the only entry with its
/// identifier.
pub proof fn lemma_update_moves_contact_to_tail(nodes: Seq<Node>, node: Node)
    requires
        forall|i: int, j: int|
            0 <= i < j < nodes.len() ==> (#[trigger] nodes[i]).id@ != (#[trigger] nodes[j]).id@,
    ensures
        without_first(nodes, node.id@).push(node).last() == node,
        forall|i: int|
            0 <= i < without_first(nodes, node.id@).push(node).len() - 1 ==> (
            #[trigger] without_first(nodes, node.id@).push(node)[i]).id@ != node.id@,
{
    let w = without_first(nodes, node.id@);
    lemma_refresh_unique(nodes, node.id@, node);
    assert forall|i: int| 0 <= i < w.push(node).len() - 1 implies (#[trigger] w.push(
        node,
    )[i]).id@ != node.id@ by {
        let r = w.push(node);
        assert(r[i].id@ != r[r.len() - 1].id@);
    }
}

/// Once `remove` drops a contact from a bucket whose identifiers were
/// distinct, no entry with its identifier is left there.
pub proof fn lemma_remove_forgets_contact(nodes: Seq<Node>, id: Seq<u8>)
    requires
        forall|i: int, j: int|
            0 <= i < j < nodes.len() ==> (#[trigger] nodes[i]).id@ != (#[trigger] nodes[j]).id@,
    ensures
        !has_id(without_first(nodes, id), id),
{
    if has_id(nodes, id) {
        lemma_first_exists(nodes, id);
        let k = first_index(nodes, id);
        let w = nodes.remove(k);
        if has_id(w, id) {
            let i = choose|i: int| 0 <= i < w.len() && (#[trigger] w[i]).id@ == id;
            let i2 = if i < k { i } else { i + 1 };
            assert(w[i] == nodes[i2]);
            if i2 < k {
                assert(nodes[i2].id@ != id);
            } else {
                assert(nodes[k].id@ != nodes[i2].id@);
            }
        }
    }
}

/// A list of at most `K_BUCKET_SIZE` contacts, least recently seen first.
#[derive(Debug)]
pub struct Bucket {
    pub nodes: Vec<Node>,
    pub size: usize,
}

impl Bucket {
    /// An empty bucket of capacity `K_BUCKET_SIZE`.
    pub fn new() -> (b: Bucket)
        ensures
            b.nodes@ == Seq::<Node>::empty(),
            b.size == K_BUCKET_SIZE,
    {
        Bucket { nodes: Vec::new(), size: K_BUCKET_SIZE }
    }
}

/// The contacts of a node, one bucket per bit of distance, with what it knows
/// of each peer's reliability.
#[derive(Debug)]
pub struct RoutingTable {
    pub node: Node,
    pub buckets: Vec<Bucket>,
    pub reputation: ReputationTable,
}

impl RoutingTable {
    /// The contacts of bucket `b`.
    pub open spec fn bucket(&self, b: int) -> Seq<Node> {
        self.buckets@[b].nodes@
    }

    /// The table has one bucket per bit of a key; each bucket holds at most
    /// `K_BUCKET_SIZE` contacts, each in the bucket of its distance to this
    /// node; every contact has counts recorded.
    pub open spec fn wf(&self) -> bool {
        &&& self.buckets@.len() == N_BUCKETS
        &&& forall|b: int| 0 <= b < N_BUCKETS ==> (#[trigger] self.buckets@[b]).size == K_BUCKET_SIZE
        &&& forall|b: int| 0 <= b < N_BUCKETS ==> (#[trigger] self.buckets@[b]).nodes@.len() <= K_BUCKET_SIZE
        &&& forall|b: int, i: int|
            0 <= b < N_BUCKETS && 0 <= i < self.bucket(b).len() ==> bucket_of(
                self.node.id@,
                (#[trigger] self.bucket(b)[i]).id@,
            ) == b
        &&& forall|b: int, i: int|
            0 <= b < N_BUCKETS && 0 <= i < self.bucket(b).len() ==> self.reputation@.contains_key(
                (#[trigger] self.bucket(b)[i]).id@,
            )
        &&& self.reputation.wf()
    }

    /// No two contacts of a bucket share an identifier.
    pub open spec fn ids_unique(&self) -> bool {
        forall|b: int, i: int, j: int|
            0 <= b < N_BUCKETS && 0 <= i < j < self.bucket(b).len() ==> (#[trigger] self.bucket(
                b,
            )[i]).id@ != (#[trigger] self.bucket(b)[j]).id@
    }

    /// The index of the bucket where a contact with identifier `key` belongs.
    pub fn node_find_bucket_index(&self, key: &Key) -> (index: usize)
        ensures
            index == bucket_of(self.node.id@, key@),
            index < N_BUCKETS,
    {
        let mut bucket_index: usize = KEY_SIZE * 8 - 1;
        let dst = self.node.id.distance(key);
        let mut p: usize = 0;
        while p < N_BUCKETS
            invariant
                p <= N_BUCKETS,
                bucket_index < N_BUCKETS,
                dst@ == spec_xor(self.node.id@, key@),
                bucket_index == match last_set_bit(dst@, p as int) {
                    Some(q) => q,
                    None => N_BUCKETS - 1,
                },
            decreases N_BUCKETS - p,
        {
            let i = 31 - p / 8;
            let j = (p % 8) as u8;
            let bit = dst[i] & (1u8 << j);
            if bit != 0 {
                bucket_index = p;
            }
            p = p + 1;
        }
        bucket_index
    }

    /// How many contacts the buckets other than the last hold together.
    pub open spec fn contacts_outside_last(&self) -> nat {
        bucket_total(bucket_seqs(self.buckets@), 0, N_BUCKETS - 1)
    }

    /// The contacts that `get_closest_nodes` considers for `key`: whole
    /// buckets from the bucket of `key` upwards, then downwards from below it,
    /// until `cap` contacts are gathered.
    pub open spec fn closest_candidates(&self, key: Seq<u8>, cap: nat) -> Seq<Node> {
        let bs = bucket_seqs(self.buckets@);
        let b0 = bucket_of(self.node.id@, key);
        gather_backward(bs, b0, cap, gather_forward(bs, b0, cap, Seq::empty()))
    }

    fn push_bucket(
        &self,
        b: usize,
        key: &Key,
        closest: &mut Vec<RoutingDistance>,
        Ghost(acc): Ghost<Seq<Node>>,
    )
        requires
            b < self.buckets@.len(),
            rd_pairs(old(closest)@) == distance_pairs(acc, key@),
        ensures
            rd_pairs(final(closest)@) == distance_pairs(acc + self.bucket(b as int), key@),
    {
        let ghost start = closest@;
        let nodes = &self.buckets[b].nodes;
        let mut i: usize = 0;
        while i < nodes.len()
            invariant
                i <= nodes@.len(),
                nodes@ == self.bucket(b as int),
                rd_pairs(closest@) == distance_pairs(acc + nodes@.take(i as int), key@),
            decreases nodes@.len() - i,
        {
            let nd = nodes[i].clone();
            let d = nd.id.distance(key);
            let ghost before = closest@;
            closest.push(RoutingDistance(nd, d));
            proof {
                assert(acc + nodes@.take(i + 1) =~= (acc + nodes@.take(i as int)).push(nodes@[i as int]));
                assert(rd_pairs(closest@) =~= rd_pairs(before).push((nodes@[i as int], d@)));
            }
            i = i + 1;
        }
        assert(nodes@.take(nodes@.len() as int) =~= nodes@);
    }

    /// The at most `capacity` contacts nearest to `key` among the candidates
    /// (see `closest_candidates`), nearest first, each with its distance to
    /// `key`; contacts at one distance keep the order in which the candidates
    /// were gathered.
    pub fn get_closest_nodes(&self, key: &Key, capacity: usize) -> (res: Vec<RoutingDistance>)
        requires
            self.wf(),
        ensures
            res@.len() == if capacity < self.closest_candidates(key@, capacity as nat).len() {
                capacity as int
            } else {
                self.closest_candidates(key@, capacity as nat).len() as int
            },
            sorted_by_distance(rd_pairs(res@)),
            nearest_of(
                rd_pairs(res@),
                distance_pairs(self.closest_candidates(key@, capacity as nat), key@),
            ),
            rd_pairs(res@) == stable_sorted(
                distance_pairs(self.closest_candidates(key@, capacity as nat), key@),
            ).take(res@.len() as int),
            self.contacts_outside_last() < capacity ==> res@.len() == self.contacts_outside_last(),
            self.contacts_outside_last() < capacity ==> forall|b: int, i: int|
                0 <= b < N_BUCKETS - 1 && 0 <= i < self.bucket(b).len() ==> rd_pairs(res@).contains(
                    (#[trigger] self.bucket(b)[i], spec_xor(self.bucket(b)[i].id@, key@)),
                ),
    {
        let ghost bs = bucket_seqs(self.buckets@);
        let ghost cap = capacity as nat;
        let mut closest: Vec<RoutingDistance> = Vec::new();
        let b0 = self.node_find_bucket_index(key);
        let mut bucket_index: usize = b0;
        let mut bucket_index_reverse: usize = b0;
        let ghost mut acc: Seq<Node> = Seq::empty();
        assert(rd_pairs(closest@) =~= distance_pairs(acc, key@));
        while closest.len() < capacity && bucket_index < self.buckets.len() - 1
            invariant
                self.wf(),
                bs == bucket_seqs(self.buckets@),
                cap == capacity as nat,
                b0 <= bucket_index < N_BUCKETS,
                b0 == bucket_of(self.node.id@, key@),
                rd_pairs(closest@) == distance_pairs(acc, key@),
                gather_forward(bs, b0 as int, cap, Seq::empty()) == gather_forward(
                    bs,
                    bucket_index as int,
                    cap,
                    acc,
                ),
            decreases N_BUCKETS - bucket_index,
        {
            assert(rd_pairs(closest@).len() == closest@.len());
            assert(distance_pairs(acc, key@).len() == acc.len());
            assert(gather_forward(bs, bucket_index as int, cap, acc) == gather_forward(
                bs,
                bucket_index + 1,
                cap,
                acc + bs[bucket_index as int],
            ));
            self.push_bucket(bucket_index, key, &mut closest, Ghost(acc));
            proof {
                assert(bs[bucket_index as int] == self.bucket(bucket_index as int));
                acc = acc + self.bucket(bucket_index as int);
            }
            bucket_index = bucket_index + 1;
        }
        let ghost fwd = acc;
        assert(gather_backward(bs, b0 as int, cap, fwd) == self.closest_candidates(key@, cap));
        while closest.len() < capacity && bucket_index_reverse > 0
            invariant
                self.wf(),
                bs == bucket_seqs(self.buckets@),
                cap == capacity as nat,
                bucket_index_reverse <= b0 < N_BUCKETS,
                rd_pairs(closest@) == distance_pairs(acc, key@),
                self.closest_candidates(key@, cap) == gather_backward(
                    bs,
                    bucket_index_reverse as int,
                    cap,
                    acc,
                ),
            decreases bucket_index_reverse,
        {
            assert(rd_pairs(closest@).len() == closest@.len());
            assert(distance_pairs(acc, key@).len() == acc.len());
            assert(gather_backward(bs, bucket_index_reverse as int, cap, acc) == gather_backward(
                bs,
                bucket_index_reverse - 1,
                cap,
                acc + bs[bucket_index_reverse - 1],
            ));
            bucket_index_reverse = bucket_index_reverse - 1;
            self.push_bucket(bucket_index_reverse, key, &mut closest, Ghost(acc));
            proof {
                assert(bs[bucket_index_reverse as int] == self.bucket(bucket_index_reverse as int));
                acc = acc + self.bucket(bucket_index_reverse as int);
            }
        }
        let ghost cands = distance_pairs(acc, key@);
        let mut sorted = sort_by_distance(&closest);
        let ghost full = rd_pairs(sorted@);
        sorted.truncate(capacity);
        proof {
            assert(rd_pairs(sorted@) =~= full.take(sorted@.len() as int));
            assert(rd_pairs(closest@).len() == closest@.len());
            assert(distance_pairs(acc, key@).len() == acc.len());
            assert(full.to_multiset() == cands.to_multiset());
            assert forall|i: int, j: int|
                0 <= i < j < rd_pairs(sorted@).len() implies !crate::dht::distance::lex_lt(
                #[trigger] rd_pairs(sorted@)[j].1,
                #[trigger] rd_pairs(sorted@)[i].1,
            ) by {
                assert(rd_pairs(sorted@)[j] == full[j]);
                assert(rd_pairs(sorted@)[i] == full[i]);
            }
            if self.contacts_outside_last() < capacity {
                lemma_closest_nodes_give_every_contact(*self, key@, capacity as nat, rd_pairs(sorted@));
            }
        }
        sorted
    }

    /// `self` is `old` after `update(node)` answered `ping`: where the bucket
    /// of `node` has room, `node` is at its tail (replacing an entry with its
    /// identifier) and a success is recorded, with no ping; where it is full,
    /// nothing moves and the head of the bucket is to be pinged. Counts of a
    /// first success are recorded for an identifier not yet known.
    pub open spec fn updated_from(&self, old: &RoutingTable, node: Node, ping: Option<Node>) -> bool {
        let b = bucket_of(old.node.id@, node.id@);
        &&& self.same_except(old, b)
        &&& old.bucket(b).len() < K_BUCKET_SIZE ==> {
            &&& ping is None
            &&& self.bucket(b) == without_first(old.bucket(b), node.id@).push(node)
            &&& self.reputation@ == interacted(seen(old.reputation@, node.id@), node.id@, true)
        }
        &&& old.bucket(b).len() >= K_BUCKET_SIZE ==> {
            &&& ping == Some(old.bucket(b)[0])
            &&& self.bucket(b) == old.bucket(b)
            &&& self.reputation@ == seen(old.reputation@, node.id@)
        }
    }

    /// `self` is `old` after `complete_update(node, reply)`: when the head of
    /// the bucket of `node` answered, it moved to the tail and a success is
    /// recorded for it; when it timed out, nothing changed; when it was
    /// unreachable, it was dropped, `node` is at the tail and a success is
    /// recorded for `node`.
    pub open spec fn completed_from(&self, old: &RoutingTable, node: Node, reply: PingReply) -> bool {
        let b = bucket_of(old.node.id@, node.id@);
        let o = old.bucket(b);
        &&& self.same_except(old, b)
        &&& match reply {
            PingReply::Answered => self.bucket(b) == o.drop_first().push(o[0])
                && self.reputation@ == interacted(old.reputation@, o[0].id@, true),
            PingReply::TimedOut => self.bucket(b) == o && self.reputation@ == old.reputation@,
            PingReply::Unreachable => self.bucket(b) == o.drop_first().push(node)
                && self.reputation@ == interacted(old.reputation@, node.id@, true),
        }
    }

    /// `self` is `old` after `remove(node)`: the first entry with the
    /// identifier of `node` leaves its bucket and a failure is recorded.
    pub open spec fn removed_from(&self, old: &RoutingTable, node: Node) -> bool {
        let b = bucket_of(old.node.id@, node.id@);
        &&& self.same_except(old, b)
        &&& self.bucket(b) == without_first(old.bucket(b), node.id@)
        &&& self.reputation@ == old.reputation@.insert(
            node.id@,
            (if old.reputation@.contains_key(node.id@) {
                old.reputation@[node.id@]
            } else {
                ThrustAndReputation::spec_new()
            }).recorded(false),
        )
    }

    /// The buckets other than `b` are as in `old`, and the table keeps its node.
    pub open spec fn same_except(&self, old: &RoutingTable, b: int) -> bool {
        &&& self.node == old.node
        &&& self.buckets@.len() == old.buckets@.len()
        &&& forall|c: int|
            0 <= c < old.buckets@.len() && c != b ==> #[trigger] self.bucket(c) == old.bucket(c)
    }

    fn position_of(nodes: &Vec<Node>, id: &Key) -> (res: Option<usize>)
        ensures
            match res {
                Some(i) => first_with_id(nodes@, id@, i as int),
                None => !has_id(nodes@, id@),
            },
    {
        let mut i: usize = 0;
        while i < nodes.len()
            invariant
                i <= nodes@.len(),
                forall|j: int| 0 <= j < i ==> (#[trigger] nodes@[j]).id@ != id@,
            decreases nodes@.len() - i,
        {
            if nodes[i].id == *id {
                return Some(i);
            }
            i = i + 1;
        }
        None
    }

    fn set_bucket(&mut self, b: usize, nodes: Vec<Node>)
        requires
            b < old(self).buckets@.len(),
        ensures
            final(self).same_except(old(self), b as int),
            final(self).bucket(b as int) == nodes@,
            final(self).buckets@[b as int].size == K_BUCKET_SIZE,
            final(self).reputation == old(self).reputation,
            forall|c: int|
                0 <= c < old(self).buckets@.len() && c != b ==> #[trigger] final(self).buckets@[c]
                    == old(self).buckets@[c],
    {
        self.buckets.set(b, Bucket { nodes, size: K_BUCKET_SIZE });
    }

    fn copy_bucket(&self, b: usize) -> (nodes: Vec<Node>)
        requires
            b < self.buckets@.len(),
        ensures
            nodes@ == self.bucket(b as int),
    {
        let nodes = self.buckets[b].nodes.clone();
        proof {
            assert forall|i: int| 0 <= i < nodes@.len() implies nodes@[i] == self.bucket(b as int)[i] by {
                assert(cloned::<Node>(self.buckets@[b as int].nodes[i], nodes[i]));
            }
            assert(nodes@ =~= self.bucket(b as int));
        }
        nodes
    }

    /// Records a failed interaction with `node` and drops it from its bucket.
    pub fn remove(&mut self, node: &Node)
        requires
            old(self).wf(),
        ensures
            final(self).wf(),
            final(self).removed_from(old(self), *node),
            old(self).ids_unique() ==> final(self).ids_unique(),
    {
        let bucket_idx = self.node_find_bucket_index(&node.id);
        let ghost old_self = *self;
        let rep = match self.reputation.get(&node.id) {
            Some(r) => r,
            None => ThrustAndReputation::new(),
        };
        if let Some(i) = Self::position_of(&self.buckets[bucket_idx].nodes, &node.id) {
            let mut nodes = self.copy_bucket(bucket_idx);
            nodes.remove(i);
            self.set_bucket(bucket_idx, nodes);
            proof {
                lemma_first_index(old_self.bucket(bucket_idx as int), node.id@, i as int);
            }
        }
        self.reputation.insert(node.id, rep.update_interaction(false));
        proof {
            assert(self.bucket(bucket_idx as int) == without_first(
                old_self.bucket(bucket_idx as int),
                node.id@,
            ));
            assert forall|b: int, i: int|
                0 <= b < N_BUCKETS && 0 <= i < self.bucket(b).len() implies bucket_of(
                self.node.id@,
                (#[trigger] self.bucket(b)[i]).id@,
            ) == b && self.reputation@.contains_key(self.bucket(b)[i].id@) by {
                if b == bucket_idx && has_id(old_self.bucket(b), node.id@) {
                    let k = first_index(old_self.bucket(b), node.id@);
                    if i < k {
                        assert(self.bucket(b)[i] == old_self.bucket(b)[i]);
                    } else {
                        assert(self.bucket(b)[i] == old_self.bucket(b)[i + 1]);
                    }
                } else {
                    assert(self.bucket(b)[i] == old_self.bucket(b)[i]);
                }
            }
            if old_self.ids_unique() {
                assert forall|b: int, i: int, j: int|
                    0 <= b < N_BUCKETS && 0 <= i < j < self.bucket(b).len() implies (
                    #[trigger] self.bucket(b)[i]).id@ != (#[trigger] self.bucket(b)[j]).id@ by {
                    if b == bucket_idx && has_id(old_self.bucket(b), node.id@) {
                        let k = first_index(old_self.bucket(b), node.id@);
                        let i2 = if i < k { i } else { i + 1 };
                        let j2 = if j < k { j } else { j + 1 };
                        assert(self.bucket(b)[i] == old_self.bucket(b)[i2]);
                        assert(self.bucket(b)[j] == old_self.bucket(b)[j2]);
                    } else {
                        assert(self.bucket(b) == old_self.bucket(b));
                        assert(old_self.bucket(b)[i].id@ != old_self.bucket(b)[j].id@);
                    }
                }
            }
        }
    }

    /// Records that `node` was seen. Where its bucket has room, `node` goes to
    /// the tail of the bucket (replacing an entry with its identifier) and a
    /// success is recorded; `None` is returned. Where the bucket is full,
    /// nothing moves and the head of the bucket, which should be pinged, is
    /// returned (see `complete_update`). Counts of a first success are recorded
    /// for an identifier seen for the first time, in either case.
    pub fn update(&mut self, node: Node) -> (ping: Option<Node>)
        requires
            old(self).wf(),
        ensures
            final(self).wf(),
            final(self).updated_from(old(self), node, ping),
            old(self).ids_unique() ==> final(self).ids_unique(),
    {
        let ghost old_self = *self;
        let id = node.id;
        if !self.reputation.contains_key(&id) {
            self.reputation.insert(id, ThrustAndReputation::new().update_interaction(true));
        }
        let ghost seen_self = *self;
        let index = self.node_find_bucket_index(&id);
        if self.buckets[index].nodes.len() < self.buckets[index].size {
            let mut nodes = self.copy_bucket(index);
            let ghost pushed = node;
            match Self::position_of(&nodes, &id) {
                Some(i) => {
                    proof {
                        lemma_first_index(nodes@, id@, i as int);
                    }
                    nodes.remove(i);
                    nodes.push(node);
                },
                None => {
                    nodes.push(node);
                },
            }
            self.set_bucket(index, nodes);
            let nr = match self.reputation.get(&id) {
                Some(r) => r,
                None => ThrustAndReputation::new(),
            };
            self.reputation.insert(id, nr.update_interaction(true));
            proof {
                let b = index as int;
                let nb = self.bucket(b);
                assert(nb == without_first(old_self.bucket(b), id@).push(pushed));
                assert forall|i: int| 0 <= i < nb.len() implies bucket_of(
                    self.node.id@,
                    (#[trigger] nb[i]).id@,
                ) == b && self.reputation@.contains_key(nb[i].id@) by {
                    if i < nb.len() - 1 {
                        let o = old_self.bucket(b);
                        if has_id(o, id@) {
                            let k = first_index(o, id@);
                            let i2 = if i < k { i } else { i + 1 };
                            assert(nb[i] == o[i2]);
                        } else {
                            assert(nb[i] == o[i]);
                        }
                    }
                }
                lemma_wf_after_bucket_change(self, &old_self, b);
                if old_self.ids_unique() {
                    lemma_refresh_unique(old_self.bucket(b), id@, pushed);
                    lemma_unique_after_bucket_change(self, &old_self, b);
                }
            }
            None
        } else {
            proof {
                assert forall|c: int| 0 <= c < N_BUCKETS implies #[trigger] self.bucket(c)
                    == old_self.bucket(c) by {}
            }
            Some(self.buckets[index].nodes[0].clone())
        }
    }

    /// Completes `update` of `node` once the head of its full bucket was
    /// pinged. When the head answered, it moves to the tail and a success is
    /// recorded for it; when it timed out, nothing changes; when it was
    /// unreachable, it is dropped, `node` goes to the tail and a success is
    /// recorded for `node`.
    pub fn complete_update(&mut self, node: Node, reply: PingReply)
        requires
            old(self).wf(),
            old(self).bucket(bucket_of(old(self).node.id@, node.id@)).len() > 0,
            old(self).reputation@.contains_key(node.id@),
        ensures
            final(self).wf(),
            final(self).completed_from(old(self), node, reply),
            old(self).ids_unique() && (reply != PingReply::Unreachable || !has_id(
                old(self).bucket(bucket_of(old(self).node.id@, node.id@)).drop_first(),
                node.id@,
            )) ==> final(self).ids_unique(),
    {
        let ghost old_self = *self;
        let id = node.id;
        let index = self.node_find_bucket_index(&id);
        let ghost b = index as int;
        match reply {
            PingReply::Answered => {
                let mut nodes = self.copy_bucket(index);
                let head = nodes.remove(0);
                let hid = head.id;
                nodes.push(head);
                self.set_bucket(index, nodes);
                let nr = match self.reputation.get(&hid) {
                    Some(r) => r,
                    None => ThrustAndReputation::new(),
                };
                self.reputation.insert(hid, nr.update_interaction(true));
                proof {
                    let o = old_self.bucket(b);
                    let nb = self.bucket(b);
                    assert(nb =~= o.drop_first().push(o[0]));
                    assert(old_self.reputation@.contains_key(o[0].id@));
                    assert forall|i: int| 0 <= i < nb.len() implies bucket_of(
                        self.node.id@,
                        (#[trigger] nb[i]).id@,
                    ) == b && self.reputation@.contains_key(nb[i].id@) by {
                        if i < nb.len() - 1 {
                            assert(nb[i] == o[i + 1]);
                        }
                    }
                    lemma_wf_after_bucket_change(self, &old_self, b);
                    if old_self.ids_unique() {
                        lemma_rotate_unique(o);
                        lemma_unique_after_bucket_change(self, &old_self, b);
                    }
                }
            },
            PingReply::TimedOut => {
                proof {
                    assert forall|c: int| 0 <= c < N_BUCKETS implies #[trigger] self.bucket(c)
                        == old_self.bucket(c) by {}
                }
            },
            PingReply::Unreachable => {
                let mut nodes = self.copy_bucket(index);
                nodes.remove(0);
                let ghost pushed = node;
                nodes.push(node);
                self.set_bucket(index, nodes);
                let nr = match self.reputation.get(&id) {
                    Some(r) => r,
                    None => ThrustAndReputation::new(),
                };
                self.reputation.insert(id, nr.update_interaction(true));
                proof {
                    let o = old_self.bucket(b);
                    let nb = self.bucket(b);
                    assert(nb =~= o.drop_first().push(pushed));
                    assert forall|i: int| 0 <= i < nb.len() implies bucket_of(
                        self.node.id@,
                        (#[trigger] nb[i]).id@,
                    ) == b && self.reputation@.contains_key(nb[i].id@) by {
                        if i < nb.len() - 1 {
                            assert(nb[i] == o[i + 1]);
                        }
                    }
                    lemma_wf_after_bucket_change(self, &old_self, b);
                    if old_self.ids_unique() && !has_id(o.drop_first(), id@) {
                        assert forall|i: int, j: int| 0 <= i < j < nb.len() implies (
                        #[trigger] nb[i]).id@ != (#[trigger] nb[j]).id@ by {
                            if j == nb.len() - 1 {
                                assert(nb[i] == o.drop_first()[i]);
                            } else {
                                assert(nb[i] == o[i + 1]);
                                assert(nb[j] == o[j + 1]);
                            }
                        }
                        lemma_unique_after_bucket_change(self, &old_self, b);
                    }
                }
            },
        }
    }

    /// Like `update`, but where the bucket has room and already holds an
    /// entry with the identifier of `node`, that entry itself (with its
    /// address) moves to the tail. A success is recorded in either case.
    pub fn update_reputation(&mut self, node: Node) -> (ping: Option<Node>)
        requires
            old(self).wf(),
        ensures
            final(self).wf(),
            final(self).same_except(old(self), bucket_of(old(self).node.id@, node.id@)),
            old(self).bucket(bucket_of(old(self).node.id@, node.id@)).len() < K_BUCKET_SIZE ==> {
                let o = old(self).bucket(bucket_of(old(self).node.id@, node.id@));
                &&& ping is None
                &&& final(self).bucket(bucket_of(old(self).node.id@, node.id@)) == if has_id(
                    o,
                    node.id@,
                ) {
                    o.remove(first_index(o, node.id@)).push(o[first_index(o, node.id@)])
                } else {
                    o.push(node)
                }
                &&& final(self).reputation@ == interacted(
                    seen(old(self).reputation@, node.id@),
                    node.id@,
                    true,
                )
            },
            old(self).bucket(bucket_of(old(self).node.id@, node.id@)).len() >= K_BUCKET_SIZE ==> {
                &&& ping == Some(old(self).bucket(bucket_of(old(self).node.id@, node.id@))[0])
                &&& final(self).bucket(bucket_of(old(self).node.id@, node.id@)) == old(self).bucket(
                    bucket_of(old(self).node.id@, node.id@),
                )
                &&& final(self).reputation@ == seen(old(self).reputation@, node.id@)
            },
            old(self).ids_unique() ==> final(self).ids_unique(),
    {
        let ghost old_self = *self;
        let id = node.id;
        if !self.reputation.contains_key(&id) {
            self.reputation.insert(id, ThrustAndReputation::new().update_interaction(true));
        }
        let index = self.node_find_bucket_index(&id);
        if self.buckets[index].nodes.len() < self.buckets[index].size {
            let mut nodes = self.copy_bucket(index);
            let ghost o = nodes@;
            proof {
                assert(o == old_self.bucket(index as int));
            }
            match Self::position_of(&nodes, &id) {
                Some(i) => {
                    proof {
                        lemma_first_index(nodes@, id@, i as int);
                    }
                    let no = nodes.remove(i);
                    nodes.push(no);
                    proof {
                        let k = i as int;
                        let nb = nodes@;
                        assert forall|a: int| 0 <= a < nb.len() implies o.contains(#[trigger] nb[a]) by {
                            if a < nb.len() - 1 {
                                let a2 = if a < k { a } else { a + 1 };
                                assert(nb[a] == o[a2]);
                            } else {
                                assert(nb[a] == o[k]);
                            }
                        }
                        if old_self.ids_unique() {
                            assert(o[k].id@ == id@);
                            assert forall|x: int, y: int| 0 <= x < y < o.len() implies (#[trigger] o[x]).id@ != (#[trigger] o[y]).id@ by {
                                assert(old_self.bucket(index as int)[x].id@ != old_self.bucket(index as int)[y].id@);
                            }
                            lemma_refresh_unique(o, id@, o[k]);
                            assert(nb == without_first(o, id@).push(o[k]));
                        }
                    }
                },
                None => {
                    nodes.push(node);
                    proof {
                        let nb = nodes@;
                        assert forall|a: int| 0 <= a < nb.len() - 1 implies o.contains(#[trigger] nb[a]) by {
                            assert(nb[a] == o[a]);
                        }
                        if old_self.ids_unique() {
                            assert forall|x: int, y: int| 0 <= x < y < o.len() implies (#[trigger] o[x]).id@ != (#[trigger] o[y]).id@ by {
                                assert(old_self.bucket(index as int)[x].id@ != old_self.bucket(index as int)[y].id@);
                            }
                            lemma_refresh_unique(o, id@, nb[nb.len() - 1]);
                            assert(nb == without_first(o, id@).push(nb[nb.len() - 1]));
                        }
                    }
                },
            }
            self.set_bucket(index, nodes);
            let nr = match self.reputation.get(&id) {
                Some(r) => r,
                None => ThrustAndReputation::new(),
            };
            self.reputation.insert(id, nr.update_interaction(true));
            proof {
                let b = index as int;
                let nb = self.bucket(b);
                assert forall|a: int| 0 <= a < nb.len() implies bucket_of(
                    self.node.id@,
                    (#[trigger] nb[a]).id@,
                ) == b && self.reputation@.contains_key(nb[a].id@) by {
                    if nb[a].id@ != id@ {
                        assert(o.contains(nb[a]));
                        let j = choose|j: int| 0 <= j < o.len() && o[j] == nb[a];
                        assert(old_self.bucket(b)[j] == nb[a]);
                    }
                }
                lemma_wf_after_bucket_change(self, &old_self, b);
                if old_self.ids_unique() {
                    lemma_unique_after_bucket_change(self, &old_self, b);
                }
            }
            None
        } else {
            proof {
                assert forall|c: int| 0 <= c < N_BUCKETS implies #[trigger] self.bucket(c)
                    == old_self.bucket(c) by {}
            }
            Some(self.buckets[index].nodes[0].clone())
        }
    }

    /// Completes `update_reputation` of `node` once the head of its full
    /// bucket was pinged. When the head answered, it moves to the tail and a
    /// success is recorded for it; otherwise it is dropped, `node` goes to the
    /// tail and its counts restart from one success.
    pub fn complete_update_reputation(&mut self, node: Node, answered: bool)
        requires
            old(self).wf(),
            old(self).bucket(bucket_of(old(self).node.id@, node.id@)).len() > 0,
        ensures
            final(self).wf(),
            final(self).same_except(old(self), bucket_of(old(self).node.id@, node.id@)),
            ({
                let b = bucket_of(old(self).node.id@, node.id@);
                let o = old(self).bucket(b);
                if answered {
                    final(self).bucket(b) == o.drop_first().push(o[0]) && final(self).reputation@
                        == interacted(old(self).reputation@, o[0].id@, true)
                } else {
                    final(self).bucket(b) == o.drop_first().push(node) && final(self).reputation@
                        == old(self).reputation@.insert(node.id@, first_seen())
                }
            }),
            old(self).ids_unique() && (answered || !has_id(
                old(self).bucket(bucket_of(old(self).node.id@, node.id@)).drop_first(),
                node.id@,
            )) ==> final(self).ids_unique(),
    {
        let ghost old_self = *self;
        let id = node.id;
        let index = self.node_find_bucket_index(&id);
        let ghost b = index as int;
        if answered {
            let mut nodes = self.copy_bucket(index);
            let head = nodes.remove(0);
            let hid = head.id;
            nodes.push(head);
            self.set_bucket(index, nodes);
            let nr = match self.reputation.get(&hid) {
                Some(r) => r,
                None => ThrustAndReputation::new(),
            };
            self.reputation.insert(hid, nr.update_interaction(true));
            proof {
                let o = old_self.bucket(b);
                let nb = self.bucket(b);
                assert(nb =~= o.drop_first().push(o[0]));
                assert(old_self.reputation@.contains_key(o[0].id@));
                assert forall|i: int| 0 <= i < nb.len() implies bucket_of(
                    self.node.id@,
                    (#[trigger] nb[i]).id@,
                ) == b && self.reputation@.contains_key(nb[i].id@) by {
                    if i < nb.len() - 1 {
                        assert(nb[i] == o[i + 1]);
                    }
                }
                lemma_wf_after_bucket_change(self, &old_self, b);
                if old_self.ids_unique() {
                    lemma_rotate_unique(o);
                    lemma_unique_after_bucket_change(self, &old_self, b);
                }
            }
        } else {
            let mut nodes = self.copy_bucket(index);
            nodes.remove(0);
            let ghost pushed = node;
            nodes.push(node);
            self.set_bucket(index, nodes);
            self.reputation.insert(id, ThrustAndReputation::new().update_interaction(true));
            proof {
                let o = old_self.bucket(b);
                let nb = self.bucket(b);
                assert(nb =~= o.drop_first().push(pushed));
                assert forall|i: int| 0 <= i < nb.len() implies bucket_of(
                    self.node.id@,
                    (#[trigger] nb[i]).id@,
                ) == b && self.reputation@.contains_key(nb[i].id@) by {
                    if i < nb.len() - 1 {
                        assert(nb[i] == o[i + 1]);
                    }
                }
                lemma_wf_after_bucket_change(self, &old_self, b);
                if old_self.ids_unique() && !has_id(o.drop_first(), id@) {
                    assert forall|i: int, j: int| 0 <= i < j < nb.len() implies (
                    #[trigger] nb[i]).id@ != (#[trigger] nb[j]).id@ by {
                        if j == nb.len() - 1 {
                            assert(nb[i] == o.drop_first()[i]);
                        } else {
                            assert(nb[i] == o[i + 1]);
                            assert(nb[j] == o[j + 1]);
                        }
                    }
                    lemma_unique_after_bucket_change(self, &old_self, b);
                }
            }
        }
    }

    /// A table of `N_BUCKETS` empty buckets for `node`, into which
    /// `bootstrap`, when given, is entered with `update`.
    pub fn new(node: Node, bootstrap: Option<Node>) -> (rt: RoutingTable)
        ensures
            rt.wf(),
            rt.ids_unique(),
            rt.node == node,
            match bootstrap {
                None => (forall|b: int| 0 <= b < N_BUCKETS ==> #[trigger] rt.bucket(b).len() == 0)
                    && rt.reputation@ == Map::<Seq<u8>, ThrustAndReputation>::empty(),
                Some(bn) => (forall|b: int|
                    0 <= b < N_BUCKETS ==> #[trigger] rt.bucket(b) == if b == bucket_of(
                        node.id@,
                        bn.id@,
                    ) {
                        seq![bn]
                    } else {
                        Seq::<Node>::empty()
                    }) && rt.reputation@ == Map::<Seq<u8>, ThrustAndReputation>::empty().insert(
                    bn.id@,
                    first_seen().recorded(true),
                ),
            },
    {
        let mut buckets: Vec<Bucket> = Vec::new();
        let mut i: usize = 0;
        while i < N_BUCKETS
            invariant
                i <= N_BUCKETS,
                buckets@.len() == i,
                forall|b: int|
                    0 <= b < i ==> (#[trigger] buckets@[b]).size == K_BUCKET_SIZE
                        && buckets@[b].nodes@.len() == 0,
            decreases N_BUCKETS - i,
        {
            buckets.push(Bucket::new());
            i = i + 1;
        }
        let reputation = ReputationTable::new();
        let mut rt = RoutingTable { buckets, node, reputation };
        if let Some(bootstrap) = bootstrap {
            let ghost bn = bootstrap;
            let ghost before = rt;
            let _ = rt.update(bootstrap);
            proof {
                let b0 = bucket_of(before.node.id@, bn.id@);
                lemma_bucket_index_bounds(before.node.id, bn.id);
                assert(!has_id(before.bucket(b0), bn.id@));
                assert(before.bucket(b0).push(bn) =~= seq![bn]);
                assert forall|b: int| 0 <= b < N_BUCKETS implies #[trigger] rt.bucket(b) == if b
                    == b0 {
                    seq![bn]
                } else {
                    Seq::<Node>::empty()
                } by {
                    if b != b0 {
                        assert(rt.bucket(b) == before.bucket(b));
                        assert(before.bucket(b) =~= Seq::<Node>::empty());
                    }
                }
            }
        }
        rt
    }

    /// The bucket index of `key`. The trust-weighted placement of S/Kademlia,
    /// a floating-point formula, is switched off (`ENABLE_SECURITY` is
    /// `false`), so this is the plain bucket index.
    pub fn node_find_bucket_index_thrust(&self, key: &Key) -> (index: usize)
        ensures
            index == bucket_of(self.node.id@, key@),
    {
        self.node_find_bucket_index(key)
    }
}

/// When the buckets other than the last hold fewer than `cap` contacts, the
/// candidates for any key are those contacts: every one of them is a
/// candidate, and there are no others.
pub proof fn lemma_candidates_are_all_contacts(rt: RoutingTable, key: Seq<u8>, cap: nat)
    requires
        rt.wf(),
        rt.contacts_outside_last() < cap,
    ensures
        rt.closest_candidates(key, cap).len() == rt.contacts_outside_last(),
        forall|b: int, i: int|
            0 <= b < N_BUCKETS - 1 && 0 <= i < rt.bucket(b).len() ==> rt.closest_candidates(
                key,
                cap,
            ).contains(#[trigger] rt.bucket(b)[i]),
{
    let bs = bucket_seqs(rt.buckets@);
    let b0 = bucket_of(rt.node.id@, key);
    lemma_last_set_bit_bounds(spec_xor(rt.node.id@, key), N_BUCKETS as int);
    assert(0 <= b0 < N_BUCKETS);
    lemma_bucket_total_split(bs, 0, b0, N_BUCKETS - 1);
    let f = gather_forward(bs, b0, cap, Seq::empty());
    lemma_gather_forward_all(bs, b0, cap, Seq::empty());
    lemma_gather_backward_all(bs, b0, cap, f);
    let g = gather_backward(bs, b0, cap, f);
    assert(g == rt.closest_candidates(key, cap));
    assert forall|b: int, i: int| 0 <= b < N_BUCKETS - 1 && 0 <= i < rt.bucket(b).len() implies g.contains(
        #[trigger] rt.bucket(b)[i],
    ) by {
        assert(bs[b] == rt.bucket(b));
        assert(bs[b][i] == rt.bucket(b)[i]);
        if b >= b0 {
            assert(f.contains(bs[b][i]));
            let j = choose|j: int| 0 <= j < f.len() && f[j] == bs[b][i];
            assert(g[j] == f[j]);
        } else {
            assert(g.contains(bs[b][i]));
        }
    }
}

/// When the buckets other than the last hold fewer than `capacity`
/// contacts, what `get_closest_nodes` gives (nearest first, at most
/// `capacity`, stable) is every one of those contacts, each with its
/// distance to `key`, and nothing else.
pub proof fn lemma_closest_nodes_give_every_contact(
    rt: RoutingTable,
    key: Seq<u8>,
    capacity: nat,
    res: Seq<(Node, Seq<u8>)>,
)
    requires
        rt.wf(),
        rt.contacts_outside_last() < capacity,
        res.len() == if capacity < rt.closest_candidates(key, capacity).len() {
            capacity as int
        } else {
            rt.closest_candidates(key, capacity).len() as int
        },
        res == stable_sorted(distance_pairs(rt.closest_candidates(key, capacity), key)).take(
            res.len() as int,
        ),
    ensures
        res.len() == rt.contacts_outside_last(),
        forall|b: int, i: int|
            0 <= b < N_BUCKETS - 1 && 0 <= i < rt.bucket(b).len() ==> res.contains(
                (#[trigger] rt.bucket(b)[i], spec_xor(rt.bucket(b)[i].id@, key)),
            ),
{
    lemma_candidates_are_all_contacts(rt, key, capacity);
    let cands = rt.closest_candidates(key, capacity);
    let dp = distance_pairs(cands, key);
    lemma_stable_sorted_keeps_entries(dp);
    assert(res =~= stable_sorted(dp));
    assert forall|b: int, i: int| 0 <= b < N_BUCKETS - 1 && 0 <= i < rt.bucket(b).len() implies res.contains(
        (#[trigger] rt.bucket(b)[i], spec_xor(rt.bucket(b)[i].id@, key)),
    ) by {
        let x = rt.bucket(b)[i];
        assert(cands.contains(x));
        let j = choose|j: int| 0 <= j < cands.len() && cands[j] == x;
        assert(dp[j] == (x, spec_xor(x.id@, key)));
        assert(dp.contains((x, spec_xor(x.id@, key))));
    }
}

/// A node's own identifier falls in the last bucket of its table, and every
/// identifier falls in some bucket.
pub proof fn lemma_bucket_index_bounds(own: Key, id: Key)
    ensures
        0 <= bucket_of(own@, id@) < N_BUCKETS,
        bucket_of(own@, own@) == N_BUCKETS - 1,
{
    lemma_last_set_bit_bounds(spec_xor(own@, id@), N_BUCKETS as int);
    let z = spec_xor(own@, own@);
    crate::network::key::lemma_distance_metric(own, own);
    assert forall|p: int| 0 <= p < N_BUCKETS implies !bit_set(z, p) by {
        let sh = ((p % 8) as u8);
        assert(z[31 - p / 8] == 0u8);
        assert(0u8 & (1u8 << sh) == 0u8) by (bit_vector);
    }
    lemma_no_set_bit(z, N_BUCKETS as int);
}

proof fn lemma_last_set_bit_bounds(d: Seq<u8>, n: int)
    ensures
        match last_set_bit(d, n) {
            Some(p) => 0 <= p < n,
            None => true,
        },
    decreases n,
{
    if n > 0 {
        lemma_last_set_bit_bounds(d, n - 1);
    }
}

proof fn lemma_no_set_bit(d: Seq<u8>, n: int)
    requires
        forall|p: int| 0 <= p < n ==> !bit_set(d, p),
    ensures
        last_set_bit(d, n) is None,
    decreases n,
{
    if n > 0 {
        lemma_no_set_bit(d, n - 1);
    }
}

} // verus!
