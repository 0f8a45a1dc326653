use vstd::prelude::*;
use crate::constants::fixed_sizes::KEY_SIZE;
use crate::network::node::Node;
use vstd::std_specs::cmp::PartialEqSpecImpl;
use vstd::std_specs::cmp::PartialOrdSpecImpl;
use core::cmp::Ordering;

verus! {

broadcast use vstd::seq_lib::group_to_multiset_ensures;

/// Lexicographic order on byte strings: the order of `[u8; N]::cmp`.
pub open spec fn lex_lt(a: Seq<u8>, b: Seq<u8>) -> bool
    decreases a.len(),
{
    if a.len() == 0 || b.len() == 0 {
        a.len() < b.len()
    } else if a[0] != b[0] {
        a[0] < b[0]
    } else {
        lex_lt(a.drop_first(), b.drop_first())
    }
}

/// On byte strings of one length, exactly one of `a < b`, `a == b`, `b < a` holds.
pub proof fn lemma_lex_trichotomy(a: Seq<u8>, b: Seq<u8>)
    requires
        a.len() == b.len(),
    ensures
        lex_lt(a, b) || a == b || lex_lt(b, a),
        !(lex_lt(a, b) && lex_lt(b, a)),
        !(lex_lt(a, b) && a == b),
    decreases a.len(),
{
    if a.len() == 0 {
        assert(a =~= b);
    } else if a[0] == b[0] {
        lemma_lex_trichotomy(a.drop_first(), b.drop_first());
        if a.drop_first() == b.drop_first() {
            assert forall|i: int| 0 <= i < a.len() implies a[i] == b[i] by {
                if i > 0 {
                    assert(a[i] == a.drop_first()[i - 1]);
                    assert(b[i] == b.drop_first()[i - 1]);
                }
            }
            assert(a =~= b);
        }
    }
}

/// The lexicographic order is transitive on byte strings of one length.
pub proof fn lemma_lex_transitive(a: Seq<u8>, b: Seq<u8>, c: Seq<u8>)
    requires
        a.len() == b.len(),
        b.len() == c.len(),
        lex_lt(a, b),
        lex_lt(b, c),
    ensures
        lex_lt(a, c),
    decreases a.len(),
{
    if a.len() > 0 && a[0] == b[0] && b[0] == c[0] {
        lemma_lex_transitive(a.drop_first(), b.drop_first(), c.drop_first());
    }
}

proof fn lemma_lex_skip(a: Seq<u8>, b: Seq<u8>, i: int)
    requires
        0 <= i <= a.len(),
        i <= b.len(),
        forall|j: int| 0 <= j < i ==> a[j] == b[j],
    ensures
        lex_lt(a, b) == lex_lt(a.skip(i), b.skip(i)),
    decreases i,
{
    if i > 0 {
        lemma_lex_skip(a.drop_first(), b.drop_first(), i - 1);
        assert(a.drop_first().skip(i - 1) =~= a.skip(i));
        assert(b.drop_first().skip(i - 1) =~= b.skip(i));
    } else {
        assert(a.skip(0) =~= a);
        assert(b.skip(0) =~= b);
    }
}

/// Whether distance `a` is strictly smaller than distance `b`.
pub fn distance_lt(a: &[u8; KEY_SIZE], b: &[u8; KEY_SIZE]) -> (res: bool)
    ensures
        res == lex_lt(a@, b@),
{
    let mut i: usize = 0;
    while i < KEY_SIZE
        invariant
            i <= KEY_SIZE,
            a@.len() == KEY_SIZE,
            b@.len() == KEY_SIZE,
            forall|j: int| 0 <= j < i ==> a@[j] == b@[j],
        decreases KEY_SIZE - i,
    {
        if a[i] != b[i] {
            proof {
                lemma_lex_skip(a@, b@, i as int);
            }
            return a[i] < b[i];
        }
        i = i + 1;
    }
    proof {
        lemma_lex_skip(a@, b@, i as int);
    }
    false
}

/// A contact together with its distance to some key.
#[derive(Debug, Eq, Hash)]
pub struct RoutingDistance(pub Node, pub [u8; KEY_SIZE]);

impl Clone for RoutingDistance {
    fn clone(&self) -> (res: Self)
        ensures
            res == *self,
    {
        RoutingDistance(self.0.clone(), self.1)
    }
}

/// Two entries are equal when their distances are; the contacts are not
/// compared.
impl PartialEq for RoutingDistance {
    fn eq(&self, other: &Self) -> (res: bool) {
        let mut equal = true;
        let mut i: usize = 0;
        while equal && i < KEY_SIZE
            invariant
                i <= KEY_SIZE,
                self.1@.len() == KEY_SIZE,
                other.1@.len() == KEY_SIZE,
                equal <==> forall|j: int| 0 <= j < i ==> self.1@[j] == other.1@[j],
            decreases KEY_SIZE - i,
        {
            if self.1[i] != other.1[i] {
                equal = false;
            }
            i = i + 1;
        }
        if equal {
            assert(self.1@ =~= other.1@);
        }
        equal
    }
}

impl PartialEqSpecImpl for RoutingDistance {
    open spec fn obeys_eq_spec() -> bool {
        true
    }

    open spec fn eq_spec(&self, other: &Self) -> bool {
        self.1@ == other.1@
    }
}

/// Entries are ordered by decreasing distance, so that a max-heap of entries
/// yields the nearest first.
impl PartialOrd for RoutingDistance {
    fn partial_cmp(&self, other: &Self) -> (res: Option<Ordering>) {
        if distance_lt(&other.1, &self.1) {
            Some(Ordering::Less)
        } else if *other == *self {
            Some(Ordering::Equal)
        } else {
            Some(Ordering::Greater)
        }
    }
}

impl PartialOrdSpecImpl for RoutingDistance {
    open spec fn obeys_partial_cmp_spec() -> bool {
        true
    }

    open spec fn partial_cmp_spec(&self, other: &Self) -> Option<Ordering> {
        if lex_lt(other.1@, self.1@) {
            Some(Ordering::Less)
        } else if other.1@ == self.1@ {
            Some(Ordering::Equal)
        } else {
            Some(Ordering::Greater)
        }
    }
}

/// A contact and its distance, with the distance as a byte string.
pub open spec fn rd_pair(r: RoutingDistance) -> (Node, Seq<u8>) {
    (r.0, r.1@)
}

/// The pairs of a sequence of contacts and distances.
pub open spec fn rd_pairs(s: Seq<RoutingDistance>) -> Seq<(Node, Seq<u8>)> {
    s.map_values(|r: RoutingDistance| rd_pair(r))
}

/// Contacts ordered by distance, nearest first.
pub open spec fn sorted_by_distance(s: Seq<(Node, Seq<u8>)>) -> bool {
    forall|i: int, j: int| 0 <= i < j < s.len() ==> !lex_lt(#[trigger] s[j].1, #[trigger] s[i].1)
}

/// Every distance in the sequence is key-sized.
pub open spec fn key_sized(s: Seq<(Node, Seq<u8>)>) -> bool {
    forall|i: int| 0 <= i < s.len() ==> (#[trigger] s[i]).1.len() == KEY_SIZE
}

/// Where an entry at distance `d` goes in `s`: before the first entry
/// farther than `d`, after all others.
pub open spec fn insert_pos(s: Seq<(Node, Seq<u8>)>, d: Seq<u8>) -> int
    decreases s.len(),
{
    if s.len() == 0 {
        0
    } else if lex_lt(d, s[0].1) {
        0
    } else {
        1 + insert_pos(s.drop_first(), d)
    }
}

/// `s` ordered by distance, nearest first, entries at one distance in their
/// order in `s`: the result of a stable sort.
pub open spec fn stable_sorted(s: Seq<(Node, Seq<u8>)>) -> Seq<(Node, Seq<u8>)>
    decreases s.len(),
{
    if s.len() == 0 {
        s
    } else {
        let t = stable_sorted(s.drop_last());
        t.insert(insert_pos(t, s.last().1), s.last())
    }
}

proof fn lemma_insert_pos(s: Seq<(Node, Seq<u8>)>, d: Seq<u8>, p: int)
    requires
        0 <= p <= s.len(),
        forall|k: int| 0 <= k < p ==> !lex_lt(d, #[trigger] s[k].1),
        p == s.len() || lex_lt(d, s[p].1),
    ensures
        insert_pos(s, d) == p,
    decreases p,
{
    if p > 0 {
        assert(!lex_lt(d, s[0].1));
        let t = s.drop_first();
        assert forall|k: int| 0 <= k < p - 1 implies !lex_lt(d, #[trigger] t[k].1) by {
            assert(t[k] == s[k + 1]);
        }
        if p < s.len() {
            assert(t[p - 1] == s[p]);
        }
        lemma_insert_pos(t, d, p - 1);
    }
}

proof fn lemma_insert_pos_bounds(s: Seq<(Node, Seq<u8>)>, d: Seq<u8>)
    ensures
        0 <= insert_pos(s, d) <= s.len(),
    decreases s.len(),
{
    if s.len() > 0 && !lex_lt(d, s[0].1) {
        lemma_insert_pos_bounds(s.drop_first(), d);
    }
}

/// A stable sort keeps every entry: it has as many entries as `s`, and each
/// entry of `s` is among them.
pub proof fn lemma_stable_sorted_keeps_entries(s: Seq<(Node, Seq<u8>)>)
    ensures
        stable_sorted(s).len() == s.len(),
        forall|x: (Node, Seq<u8>)| s.contains(x) ==> #[trigger] stable_sorted(s).contains(x),
    decreases s.len(),
{
    if s.len() > 0 {
        let r = s.drop_last();
        lemma_stable_sorted_keeps_entries(r);
        let t = stable_sorted(r);
        let p = insert_pos(t, s.last().1);
        lemma_insert_pos_bounds(t, s.last().1);
        let u = t.insert(p, s.last());
        assert forall|x: (Node, Seq<u8>)| s.contains(x) implies #[trigger] stable_sorted(s).contains(x) by {
            let i = choose|i: int| 0 <= i < s.len() && s[i] == x;
            if i == s.len() - 1 {
                assert(u[p] == x);
            } else {
                assert(r[i] == x);
                assert(r.contains(x));
                assert(t.contains(x));
                let j = choose|j: int| 0 <= j < t.len() && t[j] == x;
                if j < p {
                    assert(u[j] == x);
                } else {
                    assert(u[j + 1] == x);
                }
            }
        }
    }
}

/// The contacts of `v`, nearest first; contacts at one distance keep their order.
pub fn sort_by_distance(v: &Vec<RoutingDistance>) -> (res: Vec<RoutingDistance>)
    ensures
        res.len() == v.len(),
        rd_pairs(res@).to_multiset() == rd_pairs(v@).to_multiset(),
        sorted_by_distance(rd_pairs(res@)),
        rd_pairs(res@) == stable_sorted(rd_pairs(v@)),
{
    let mut out: Vec<RoutingDistance> = Vec::new();
    let mut i: usize = 0;
    while i < v.len()
        invariant
            i <= v.len(),
            out.len() == i,
            rd_pairs(out@).to_multiset() == rd_pairs(v@.take(i as int)).to_multiset(),
            sorted_by_distance(rd_pairs(out@)),
            rd_pairs(out@) == stable_sorted(rd_pairs(v@.take(i as int))),
        decreases v.len() - i,
    {
        let x = v[i].clone();
        let mut pos: usize = 0;
        while pos < out.len() && !distance_lt(&x.1, &out[pos].1)
            invariant
                pos <= out.len(),
                forall|k: int| 0 <= k < pos ==> !lex_lt(x.1@, #[trigger] out@[k].1@),
            decreases out.len() - pos,
        {
            pos = pos + 1;
        }
        let ghost old_out = out@;
        out.insert(pos, x);
        proof {
            assert(rd_pairs(out@) =~= rd_pairs(old_out).insert(pos as int, rd_pair(x)));
            assert(v@.take(i + 1) =~= v@.take(i as int).push(v@[i as int]));
            assert(rd_pairs(v@.take(i + 1)) =~= rd_pairs(v@.take(i as int)).push(rd_pair(x)));
            assert(rd_pairs(v@.take(i + 1)).drop_last() =~= rd_pairs(v@.take(i as int)));
            assert forall|k: int| 0 <= k < pos implies !lex_lt(x.1@, #[trigger] rd_pairs(old_out)[k].1) by {
                assert(rd_pairs(old_out)[k].1 == old_out[k].1@);
            }
            if pos < old_out.len() {
                assert(rd_pairs(old_out)[pos as int].1 == old_out[pos as int].1@);
            }
            lemma_insert_pos(rd_pairs(old_out), x.1@, pos as int);
            let p = rd_pairs(out@);
            assert forall|a: int, b: int| 0 <= a < b < p.len() implies !lex_lt(
                #[trigger] p[b].1,
                #[trigger] p[a].1,
            ) by {
                if a < pos && b == pos {
                } else if a == pos && b > pos {
                    let y = old_out[b - 1].1@;
                    let first = old_out[pos as int].1@;
                    assert(lex_lt(x.1@, first));
                    if b - 1 > pos {
                        let q = rd_pairs(old_out);
                        assert(q[b - 1].1 == y);
                        assert(q[pos as int].1 == first);
                        assert(!lex_lt(y, first));
                        lemma_lex_trichotomy(y, first);
                        if lex_lt(first, y) {
                            lemma_lex_transitive(x.1@, first, y);
                        }
                    }
                    lemma_lex_trichotomy(x.1@, y);
                } else if a < pos && b > pos {
                    assert(p[a] == rd_pair(old_out[a]));
                    assert(p[b] == rd_pair(old_out[b - 1]));
                } else if b < pos {
                } else {
                    assert(p[a] == rd_pair(old_out[a - 1]));
                    assert(p[b] == rd_pair(old_out[b - 1]));
                }
            }
        }
        i = i + 1;
    }
    assert(v@.take(v.len() as int) =~= v@);
    out
}

} // verus!
