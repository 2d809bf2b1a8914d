use std::collections::HashMap;
use vstd::prelude::*;
use crate::forest::NodeView;
use crate::matching::matching_entry::{Matching, MatchingEntry};

verus! {

broadcast use vstd::std_specs::hash::group_hash_axioms;

/// Two matched nodes, named by their indices in the arena, with what is
/// known of the match. The pair has no direction.
#[derive(Clone, Copy, Debug, PartialEq, Eq)]
pub struct MatchedPair {
    pub left: usize,
    pub right: usize,
    pub entry: MatchingEntry,
}

/// A set of matched pairs, kept in the order in which they were recorded. A
/// pair that is recorded again replaces what was known of it, and a node's
/// partner is the one of the last pair that holds the node. Two indices find
/// the last record of a pair and the last record that holds a node.
#[derive(Debug)]
pub struct Matchings {
    pairs: Vec<MatchedPair>,
    by_pair: HashMap<u128, usize>,
    by_node: HashMap<usize, usize>,
}

impl View for Matchings {
    type V = Seq<MatchedPair>;

    closed spec fn view(&self) -> Seq<MatchedPair> {
        self.pairs@
    }
}

/// The key under which the unordered pair of `a` and `b` is indexed: the
/// smaller index in the upper half, the larger in the lower half.
spec fn pair_key(a: usize, b: usize) -> u128 {
    if a <= b {
        (a * 0x1_0000_0000_0000_0000 + b) as u128
    } else {
        (b * 0x1_0000_0000_0000_0000 + a) as u128
    }
}

/// Two pairs have the same key exactly if they are the same unordered pair.
proof fn lemma_pair_key(a: usize, b: usize, c: usize, d: usize)
    ensures
        pair_key(a, b) == pair_key(c, d) <==> ((a == c && b == d) || (a == d && b == c)),
{
}

/// What `p` tells of the node `x`: its partner and the entry of the two.
pub open spec fn matching_in(p: MatchedPair, x: usize) -> Matching {
    Matching {
        matching_node: partner_in(p, x),
        score: p.entry.score,
        is_perfect_match: p.entry.is_perfect_match,
    }
}

/// The two indices agree with the records: each finds the last record of
/// what it is asked for, and finds nothing else.
spec fn index_ok(
    pairs: Seq<MatchedPair>,
    by_pair: Map<u128, usize>,
    by_node: Map<usize, usize>,
) -> bool {
    &&& forall|x: usize|
        #![trigger by_node.contains_key(x)]
        #![trigger matching_for(pairs, x)]
        {
            &&& by_node.contains_key(x) <==> matching_for(pairs, x).is_some()
            &&& by_node.contains_key(x) ==> by_node[x] < pairs.len() && matching_for(pairs, x)
                == Some(matching_in(pairs[by_node[x] as int], x))
        }
    &&& forall|a: usize, b: usize|
        #![trigger entry_of(pairs, a, b)]
        {
            &&& by_pair.contains_key(pair_key(a, b)) <==> entry_of(pairs, a, b).is_some()
            &&& by_pair.contains_key(pair_key(a, b)) ==> by_pair[pair_key(a, b)] < pairs.len()
                && entry_of(pairs, a, b) == Some(pairs[by_pair[pair_key(a, b)] as int].entry)
        }
}

/// Recording a pair under its key and under its two nodes keeps the indices
/// in agreement with the records.
proof fn lemma_index_push(
    pairs: Seq<MatchedPair>,
    by_pair: Map<u128, usize>,
    by_node: Map<usize, usize>,
    p: MatchedPair,
)
    requires
        index_ok(pairs, by_pair, by_node),
        pairs.len() <= usize::MAX,
    ensures
        index_ok(
            pairs.push(p),
            by_pair.insert(pair_key(p.left, p.right), pairs.len() as usize),
            by_node.insert(p.left, pairs.len() as usize).insert(p.right, pairs.len() as usize),
        ),
{
    let n = pairs.len() as usize;
    let pairs2 = pairs.push(p);
    let by_pair2 = by_pair.insert(pair_key(p.left, p.right), n);
    let by_node2 = by_node.insert(p.left, n).insert(p.right, n);
    assert(pairs2.drop_last() =~= pairs);
    assert(pairs2.last() == p);
    assert forall|x: usize|
        #![trigger by_node2.contains_key(x)]
        #![trigger matching_for(pairs2, x)]
        {
            &&& by_node2.contains_key(x) <==> matching_for(pairs2, x).is_some()
            &&& by_node2.contains_key(x) ==> by_node2[x] < pairs2.len() && matching_for(pairs2, x)
                == Some(matching_in(pairs2[by_node2[x] as int], x))
        } by {
        if touches(p, x) {
        } else {
            assert(matching_for(pairs2, x) == matching_for(pairs, x));
            if by_node.contains_key(x) {
                assert(pairs2[by_node[x] as int] == pairs[by_node[x] as int]);
            }
        }
    }
    assert forall|a: usize, b: usize|
        #![trigger entry_of(pairs2, a, b)]
        {
            &&& by_pair2.contains_key(pair_key(a, b)) <==> entry_of(pairs2, a, b).is_some()
            &&& by_pair2.contains_key(pair_key(a, b)) ==> by_pair2[pair_key(a, b)] < pairs2.len()
                && entry_of(pairs2, a, b) == Some(pairs2[by_pair2[pair_key(a, b)] as int].entry)
        } by {
        lemma_pair_key(a, b, p.left, p.right);
        if links(p, a, b) {
        } else {
            assert(entry_of(pairs2, a, b) == entry_of(pairs, a, b));
            if by_pair.contains_key(pair_key(a, b)) {
                assert(pairs2[by_pair[pair_key(a, b)] as int] == pairs[by_pair[pair_key(
                    a,
                    b,
                )] as int]);
            }
        }
    }
}

/// Calls `unordered_pair::UnorderedPair::into_ordered_tuple` on the pair of
/// `a` and `b`. The contract claims what that function documents: it hands
/// back the two with the smaller one first. This is not proved here.
#[verifier::external_body]
fn ordered_tuple(a: usize, b: usize) -> (ordered: (usize, usize))
    ensures
        ordered == (if a <= b {
            (a, b)
        } else {
            (b, a)
        }),
{
    unordered_pair::UnorderedPair(a, b).into_ordered_tuple()
}

/// The key under which the unordered pair of `a` and `b` is indexed.
fn key_of(a: usize, b: usize) -> (key: u128)
    ensures
        key == pair_key(a, b),
{
    let (low, high) = ordered_tuple(a, b);
    (low as u128) * 0x1_0000_0000_0000_0000u128 + (high as u128)
}

/// The pair `p` is the unordered pair of `a` and `b`.
pub open spec fn links(p: MatchedPair, a: usize, b: usize) -> bool {
    (p.left == a && p.right == b) || (p.left == b && p.right == a)
}

/// The node `x` is one of the two nodes of `p`.
pub open spec fn touches(p: MatchedPair, x: usize) -> bool {
    p.left == x || p.right == x
}

/// The node that `p` pairs with `x`.
pub open spec fn partner_in(p: MatchedPair, x: usize) -> usize {
    if p.left == x {
        p.right
    } else {
        p.left
    }
}

/// What the pair-keyed lookup holds for the unordered pair of `a` and `b`.
pub open spec fn entry_of(s: Seq<MatchedPair>, a: usize, b: usize) -> Option<MatchingEntry>
    decreases s.len(),
{
    if s.len() == 0 {
        None
    } else if links(s.last(), a, b) {
        Some(s.last().entry)
    } else {
        entry_of(s.drop_last(), a, b)
    }
}

/// What the individual lookup holds for the node `x`: its partner, with the
/// entry of the two.
pub open spec fn matching_for(s: Seq<MatchedPair>, x: usize) -> Option<Matching>
    decreases s.len(),
{
    if s.len() == 0 {
        None
    } else if touches(s.last(), x) {
        Some(
            Matching {
                matching_node: partner_in(s.last(), x),
                score: s.last().entry.score,
                is_perfect_match: s.last().entry.is_perfect_match,
            },
        )
    } else {
        matching_for(s.drop_last(), x)
    }
}

/// Every pair joins two nodes of the arena `f` that lie at the same depth.
pub open spec fn level(s: Seq<MatchedPair>, f: Seq<NodeView>) -> bool {
    forall|k: int|
        0 <= k < s.len() ==> {
            let p = #[trigger] s[k];
            &&& p.left < f.len()
            &&& p.right < f.len()
            &&& f[p.left as int].depth == f[p.right as int].depth
        }
}

/// The pair-keyed lookup of an extended set: what was added wins.
pub proof fn lemma_entry_of_extended(s: Seq<MatchedPair>, t: Seq<MatchedPair>, a: usize, b: usize)
    ensures
        entry_of(s + t, a, b) == (match entry_of(t, a, b) {
            Some(e) => Some(e),
            None => entry_of(s, a, b),
        }),
    decreases t.len(),
{
    if t.len() == 0 {
        assert(s + t =~= s);
    } else {
        assert((s + t).drop_last() =~= s + t.drop_last());
        assert((s + t).last() == t.last());
        lemma_entry_of_extended(s, t.drop_last(), a, b);
    }
}

/// The individual lookup of an extended set: what was added wins.
pub proof fn lemma_matching_for_extended(s: Seq<MatchedPair>, t: Seq<MatchedPair>, x: usize)
    ensures
        matching_for(s + t, x) == (match matching_for(t, x) {
            Some(m) => Some(m),
            None => matching_for(s, x),
        }),
    decreases t.len(),
{
    if t.len() == 0 {
        assert(s + t =~= s);
    } else {
        assert((s + t).drop_last() =~= s + t.drop_last());
        assert((s + t).last() == t.last());
        lemma_matching_for_extended(s, t.drop_last(), x);
    }
}

/// The pair-keyed lookup does not depend on the order of the two nodes.
pub proof fn lemma_entry_of_symmetric(s: Seq<MatchedPair>, a: usize, b: usize)
    ensures
        entry_of(s, a, b) == entry_of(s, b, a),
    decreases s.len(),
{
    if s.len() > 0 {
        lemma_entry_of_symmetric(s.drop_last(), a, b);
    }
}

/// The two lookups stay in sync: a node has a partner exactly if some pair
/// holds it, and the entry found with the partner is the entry of the two.
pub proof fn lemma_lookups_in_sync(s: Seq<MatchedPair>, x: usize)
    ensures
        match matching_for(s, x) {
            Some(m) => entry_of(s, x, m.matching_node) == Some(
                MatchingEntry { score: m.score, is_perfect_match: m.is_perfect_match },
            ),
            None => forall|y: usize| entry_of(s, x, y).is_none(),
        },
    decreases s.len(),
{
    if s.len() > 0 {
        if touches(s.last(), x) {
        } else {
            lemma_lookups_in_sync(s.drop_last(), x);
            match matching_for(s, x) {
                Some(m) => {},
                None => {
                    assert forall|y: usize| entry_of(s, x, y).is_none() by {
                        assert(entry_of(s.drop_last(), x, y).is_none());
                    }
                },
            }
        }
    } else {
        assert forall|y: usize| entry_of(s, x, y).is_none() by {}
    }
}

/// Levelled sets stay levelled when they are joined.
pub proof fn lemma_level_extended(s: Seq<MatchedPair>, t: Seq<MatchedPair>, f: Seq<NodeView>)
    requires
        level(s, f),
        level(t, f),
    ensures
        level(s + t, f),
{
    assert forall|k: int| 0 <= k < (s + t).len() implies {
        let p = #[trigger] (s + t)[k];
        &&& p.left < f.len()
        &&& p.right < f.len()
        &&& f[p.left as int].depth == f[p.right as int].depth
    } by {
        if k < s.len() {
            assert((s + t)[k] == s[k]);
        } else {
            assert((s + t)[k] == t[k - s.len()]);
        }
    }
}

/// In a levelled set the partner of a node lies in the arena, at the depth
/// of the node.
pub proof fn lemma_level_partner(s: Seq<MatchedPair>, f: Seq<NodeView>, x: usize)
    requires
        level(s, f),
        matching_for(s, x).is_some(),
    ensures
        x < f.len(),
        matching_for(s, x).unwrap().matching_node < f.len(),
        f[matching_for(s, x).unwrap().matching_node as int].depth == f[x as int].depth,
    decreases s.len(),
{
    if s.len() > 0 {
        assert(s.last() == s[s.len() - 1]);
        if touches(s.last(), x) {
        } else {
            assert forall|k: int| 0 <= k < s.drop_last().len() implies {
                let p = #[trigger] s.drop_last()[k];
                &&& p.left < f.len()
                &&& p.right < f.len()
                &&& f[p.left as int].depth == f[p.right as int].depth
            } by {
                assert(s.drop_last()[k] == s[k]);
            }
            lemma_level_partner(s.drop_last(), f, x);
        }
    }
}

impl Matchings {
    #[verifier::type_invariant]
    closed spec fn indexed(&self) -> bool {
        index_ok(self.pairs@, self.by_pair@, self.by_node@)
    }

    /// The set without pairs.
    pub fn empty() -> (m: Matchings)
        ensures
            m@ == Seq::<MatchedPair>::empty(),
    {
        Matchings { pairs: Vec::new(), by_pair: HashMap::new(), by_node: HashMap::new() }
    }

    /// The set with the pair `pair` recorded behind the pairs that are
    /// there.
    pub fn with_pair(self, pair: MatchedPair) -> (m: Matchings)
        ensures
            m@ == self@.push(pair),
    {
        proof {
            use_type_invariant(&self);
        }
        let Matchings { mut pairs, mut by_pair, mut by_node } = self;
        let index = pairs.len();
        proof {
            lemma_index_push(pairs@, by_pair@, by_node@, pair);
        }
        pairs.push(pair);
        by_pair.insert(key_of(pair.left, pair.right), index);
        by_node.insert(pair.left, index);
        by_node.insert(pair.right, index);
        Matchings { pairs, by_pair, by_node }
    }

    /// The set that holds one pair.
    pub fn from_single(left: usize, right: usize, entry: MatchingEntry) -> (m: Matchings)
        ensures
            m@ == seq![MatchedPair { left, right, entry }],
    {
        let m = Matchings::empty().with_pair(MatchedPair { left, right, entry });
        assert(m@ =~= seq![MatchedPair { left, right, entry }]);
        m
    }

    /// The set that holds the given pairs, recorded in their order.
    pub fn new(matching_entries: Vec<MatchedPair>) -> (m: Matchings)
        ensures
            m@ == matching_entries@,
    {
        let mut m = Matchings::empty();
        let mut k: usize = 0;
        while k < matching_entries.len()
            invariant
                k <= matching_entries.len(),
                m@ == matching_entries@.take(k as int),
            decreases matching_entries.len() - k,
        {
            proof {
                assert(matching_entries@.take(k + 1) =~= matching_entries@.take(k as int).push(
                    matching_entries@[k as int],
                ));
            }
            m = m.with_pair(matching_entries[k]);
            k += 1;
        }
        proof {
            assert(matching_entries@.take(k as int) =~= matching_entries@);
        }
        m
    }

    /// The number of records.
    pub fn len(&self) -> (n: usize)
        ensures
            n == self@.len(),
    {
        self.pairs.len()
    }

    /// Whether the set holds no pair.
    pub fn is_empty(&self) -> (empty: bool)
        ensures
            empty == (self@.len() == 0),
    {
        self.pairs.len() == 0
    }

    /// The record at position `index`.
    pub fn pair(&self, index: usize) -> (pair: MatchedPair)
        requires
            index < self@.len(),
        ensures
            pair == self@[index as int],
    {
        self.pairs[index]
    }

    /// The partner of `a_node`, with the entry of the two, if the node is
    /// matched.
    pub fn find_matching_for(&self, a_node: usize) -> (found: Option<Matching>)
        ensures
            found == matching_for(self@, a_node),
    {
        proof {
            use_type_invariant(self);
        }
        match self.by_node.get(&a_node) {
            Some(index) => {
                let p = self.pairs[*index];
                Some(
                    Matching {
                        matching_node: if p.left == a_node {
                            p.right
                        } else {
                            p.left
                        },
                        score: p.entry.score,
                        is_perfect_match: p.entry.is_perfect_match,
                    },
                )
            },
            None => None,
        }
    }

    /// The entry of the unordered pair of `left` and `right`, if the two are
    /// matched with each other.
    pub fn get_matching_entry(&self, left: usize, right: usize) -> (found: Option<MatchingEntry>)
        ensures
            found == entry_of(self@, left, right),
    {
        proof {
            use_type_invariant(self);
        }
        let key = key_of(left, right);
        match self.by_pair.get(&key) {
            Some(index) => Some(self.pairs[*index].entry),
            None => None,
        }
    }

    /// Records every pair of `matchings` behind the pairs that are there.
    pub fn extend(&mut self, matchings: &Matchings)
        ensures
            final(self)@ == old(self)@ + matchings@,
    {
        let mut extended = Matchings::empty();
        std::mem::swap(self, &mut extended);
        let mut k: usize = 0;
        proof {
            assert(extended@ =~= old(self)@ + matchings@.take(0));
        }
        while k < matchings.pairs.len()
            invariant
                k <= matchings@.len(),
                extended@ == old(self)@ + matchings@.take(k as int),
            decreases matchings@.len() - k,
        {
            proof {
                assert(old(self)@ + matchings@.take(k + 1) =~= (old(self)@ + matchings@.take(
                    k as int,
                )).push(matchings@[k as int]));
            }
            extended = extended.with_pair(matchings.pairs[k]);
            k += 1;
        }
        proof {
            assert(matchings@.take(k as int) =~= matchings@);
        }
        *self = extended;
    }
}

} // verus!
