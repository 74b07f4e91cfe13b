//! Majorities: the index that a majority has reached, and why two majorities
//! of one cluster always share a node.

use std::collections::HashMap;

use vstd::prelude::*;

use crate::protocol::{is_quorum_index, majority_with, nodes_reaching, peers_reaching, quorum_index};
use crate::rpc::{LogIndex, NodeId};

verus! {

/// How many of the values are at least `bound`.
pub open spec fn count_at_least(values: Seq<u64>, bound: int) -> nat
    decreases values.len(),
{
    if values.len() == 0 {
        0
    } else {
        count_at_least(values.drop_last(), bound) + (if values.last() >= bound {
            1nat
        } else {
            0nat
        })
    }
}

/// The values stand in descending order.
pub open spec fn descending(values: Seq<u64>) -> bool {
    forall|i: int, j: int| 0 <= i <= j < values.len() ==> values[i] >= values[j]
}

proof fn lemma_count_insert(values: Seq<u64>, at: int, value: u64, bound: int)
    requires
        0 <= at <= values.len(),
    ensures
        count_at_least(values.insert(at, value), bound) == count_at_least(values, bound) + (if value
            >= bound {
            1nat
        } else {
            0nat
        }),
    decreases values.len(),
{
    let longer = values.insert(at, value);
    if at == values.len() {
        assert(longer.drop_last() =~= values);
    } else {
        lemma_count_insert(values.drop_last(), at, value, bound);
        assert(longer.drop_last() =~= values.drop_last().insert(at, value));
        assert(longer.last() == values.last());
    }
}

/// In descending order the values at or above a bound come first.
proof fn lemma_count_descending(values: Seq<u64>, bound: int, first: int)
    requires
        descending(values),
        0 <= first <= values.len(),
        forall|i: int| 0 <= i < first ==> values[i] >= bound,
        forall|i: int| first <= i < values.len() ==> values[i] < bound,
    ensures
        count_at_least(values, bound) == first,
    decreases values.len(),
{
    if values.len() > 0 {
        let shorter = values.drop_last();
        assert(descending(shorter)) by {
            assert forall|i: int, j: int| 0 <= i <= j < shorter.len() implies shorter[i]
                >= shorter[j] by {
                assert(values[i] >= values[j]);
            }
        }
        lemma_count_descending(
            shorter,
            bound,
            if first == values.len() {
                first - 1
            } else {
                first
            },
        );
    }
}

/// Where the values at or above a bound end.
proof fn lemma_descending_split(values: Seq<u64>, bound: int) -> (first: int)
    requires
        descending(values),
    ensures
        0 <= first <= values.len(),
        forall|i: int| 0 <= i < first ==> values[i] >= bound,
        forall|i: int| first <= i < values.len() ==> values[i] < bound,
    decreases values.len(),
{
    if values.len() == 0 {
        0
    } else if values.last() >= bound {
        assert forall|i: int| 0 <= i < values.len() implies values[i] >= bound by {
            assert(values[i] >= values[values.len() - 1]);
        }
        values.len() as int
    } else {
        let shorter = values.drop_last();
        assert(descending(shorter)) by {
            assert forall|i: int, j: int| 0 <= i <= j < shorter.len() implies shorter[i]
                >= shorter[j] by {
                assert(values[i] >= values[j]);
            }
        }
        let first = lemma_descending_split(shorter, bound);
        assert forall|i: int| 0 <= i < first implies values[i] >= bound by {
            assert(values[i] == shorter[i]);
        }
        assert forall|i: int| first <= i < values.len() implies values[i] < bound by {
            if i < shorter.len() {
                assert(values[i] == shorter[i]);
            }
        }
        first
    }
}

/// In descending order, the value at position `rank - 1` is the highest that
/// `rank` values reach.
proof fn lemma_rank(values: Seq<u64>, rank: int)
    requires
        descending(values),
        1 <= rank <= values.len(),
    ensures
        count_at_least(values, values[rank - 1] as int) >= rank,
        forall|higher: int|
            values[rank - 1] < higher ==> #[trigger] count_at_least(values, higher) < rank,
{
    let value = values[rank - 1];
    let first = lemma_descending_split(values, value as int);
    lemma_count_descending(values, value as int, first);
    assert(first >= rank) by {
        if first < rank {
            assert(values[first] >= values[rank - 1]);
        }
    }
    assert forall|higher: int| value < higher implies #[trigger] count_at_least(values, higher)
        < rank by {
        let split = lemma_descending_split(values, higher);
        lemma_count_descending(values, higher, split);
        if split >= rank {
            assert(values[rank - 1] >= higher);
        }
    }
}

/// The quorum index is unique.
pub proof fn lemma_quorum_index_unique(
    match_index: Map<NodeId, LogIndex>,
    own_last: nat,
    majority: nat,
    a: LogIndex,
    b: LogIndex,
)
    requires
        is_quorum_index(match_index, own_last, majority, a),
        is_quorum_index(match_index, own_last, majority, b),
    ensures
        a == b,
{
    if a < b {
        assert(nodes_reaching(match_index, own_last, b as int) < majority);
    }
    if b < a {
        assert(nodes_reaching(match_index, own_last, a as int) < majority);
    }
}

/// What is found to be the quorum index is the one that the model names.
pub proof fn lemma_quorum_index_is(
    match_index: Map<NodeId, LogIndex>,
    own_last: nat,
    majority: nat,
    index: LogIndex,
)
    requires
        is_quorum_index(match_index, own_last, majority, index),
    ensures
        quorum_index(match_index, own_last, majority) == Some(index),
{
    let named = choose|other: LogIndex| is_quorum_index(match_index, own_last, majority, other);
    lemma_quorum_index_unique(match_index, own_last, majority, index, named);
}

/// The peers among the first `n` keys that reach `bound`.
spec fn reaching_among(
    match_index: Map<NodeId, LogIndex>,
    keys: Seq<NodeId>,
    bound: int,
) -> Set<NodeId> {
    keys.to_set().filter(|peer: NodeId| match_index[peer] >= bound)
}

proof fn lemma_reaching_push(
    match_index: Map<NodeId, LogIndex>,
    keys: Seq<NodeId>,
    key: NodeId,
    bound: int,
)
    requires
        !keys.contains(key),
    ensures
        reaching_among(match_index, keys.push(key), bound).len() == reaching_among(
            match_index,
            keys,
            bound,
        ).len() + (if match_index[key] >= bound {
            1nat
        } else {
            0nat
        }),
{
    broadcast use vstd::seq_lib::group_seq_properties;

    let before = reaching_among(match_index, keys, bound);
    let after = reaching_among(match_index, keys.push(key), bound);
    assert(keys.push(key).to_set() =~= keys.to_set().insert(key));
    assert(keys.to_set().finite());
    keys.to_set().lemma_len_filter(|peer: NodeId| match_index[peer] >= bound);
    if match_index[key] >= bound {
        assert(after =~= before.insert(key));
        assert(!before.contains(key));
    } else {
        assert(after =~= before);
    }
}

/// Inserts a value into values in descending order, keeping the order.
fn insert_descending(values: &mut Vec<u64>, value: u64)
    requires
        descending(old(values)@),
    ensures
        descending(final(values)@),
        final(values)@.len() == old(values)@.len() + 1,
        forall|bound: int| #[trigger]
            count_at_least(final(values)@, bound) == count_at_least(old(values)@, bound) + (if value
                >= bound {
                1nat
            } else {
                0nat
            }),
{
    let mut at: usize = 0;
    while at < values.len() && values[at] >= value
        invariant
            at <= values@.len(),
            values@ == old(values)@,
            forall|i: int| 0 <= i < at ==> values@[i] >= value,
        decreases values@.len() - at,
    {
        at += 1;
    }
    let ghost before = values@;
    values.insert(at, value);
    proof {
        assert(values@ =~= before.insert(at as int, value));
        assert forall|bound: int| #[trigger]
            count_at_least(values@, bound) == count_at_least(before, bound) + (if value >= bound {
                1nat
            } else {
                0nat
            }) by {
            lemma_count_insert(before, at as int, value, bound);
        }
        assert forall|i: int, j: int| 0 <= i <= j < values@.len() implies values@[i]
            >= values@[j] by {
            if i < at && j > at {
                assert(before[i] >= before[j - 1]);
            } else if i == at && j > at {
                assert(before[at as int] >= before[j - 1]);
            } else if i > at {
                assert(before[i - 1] >= before[j - 1]);
            } else if j < at {
                assert(before[i] >= before[j]);
            }
        }
    }
}

/// The highest index that `majority` nodes have reached: every peer with the
/// index it is known to match, the leader with its own last index.
pub fn highest_reached(
    match_index: &HashMap<NodeId, LogIndex>,
    own_last: LogIndex,
    majority: usize,
) -> (reached: Option<LogIndex>)
    requires
        majority >= 1,
    ensures
        reached == quorum_index(match_index@, own_last as nat, majority as nat),
{
    let mut indices: Vec<LogIndex> = Vec::new();
    indices.push(own_last);  // leader always matches its own log
    proof {
        reveal_with_fuel(count_at_least, 2);
        assert(indices@.drop_last() =~= Seq::empty());
    }
    let ghost keys: Seq<NodeId> = Seq::empty();
    assert forall|bound: int| #[trigger]
        count_at_least(indices@, bound) == reaching_among(match_index@, keys, bound).len() + (
        if own_last >= bound {
            1nat
        } else {
            0nat
        }) by {
        assert(reaching_among(match_index@, keys, bound) =~= Set::empty());
    }
    for peer in peers: match_index.keys()
        invariant
            peers.seq().unref().to_set() == match_index@.dom(),
            peers.seq().no_duplicates(),
            peers.seq().len() == match_index@.dom().len(),
            descending(indices@),
            indices@.len() == peers.index() + 1,
            keys == peers.seq().unref().take(peers.index() as int),
            peers.index() == peers.seq().len() ==> keys.to_set() == match_index@.dom(),
            forall|bound: int| #[trigger]
                count_at_least(indices@, bound) == reaching_among(match_index@, keys, bound).len()
                    + (if own_last >= bound {
                    1nat
                } else {
                    0nat
                }),
    {
        let ghost all = peers.seq().unref();
        let ghost seen = keys;
        let ghost counted = indices@;
        proof {
            assert(all[peers.index() as int] == *peer);
            assert(all.contains(*peer));
            assert(match_index@.dom().contains(*peer));
            assert(!seen.contains(*peer)) by {
                if seen.contains(*peer) {
                    let k = choose|k: int| 0 <= k < seen.len() && seen[k] == *peer;
                    assert(peers.seq()[k] == peers.seq()[peers.index() as int]);
                }
            }
        }
        let index: LogIndex = match match_index.get(peer) {
            Some(index) => *index,
            None => 0,
        };
        insert_descending(&mut indices, index);
        proof {
            keys = seen.push(*peer);
            assert(keys =~= all.take(peers.index() as int + 1));
            assert(all.take(all.len() as int) =~= all);
            assert forall|bound: int| #[trigger]
                count_at_least(indices@, bound) == reaching_among(match_index@, keys, bound).len()
                    + (if own_last >= bound {
                    1nat
                } else {
                    0nat
                }) by {
                lemma_reaching_push(match_index@, seen, *peer, bound);
            }
        }
    }
    proof {
        assert(keys.to_set() == match_index@.dom());
        assert forall|bound: int| #[trigger]
            nodes_reaching(match_index@, own_last as nat, bound) == count_at_least(
                indices@,
                bound,
            ) by {
            assert(reaching_among(match_index@, keys, bound) =~= peers_reaching(
                match_index@,
                bound,
            ));
        }
    }
    if indices.len() < majority {
        proof {
            assert forall|index: LogIndex| !is_quorum_index(
                match_index@,
                own_last as nat,
                majority as nat,
                index,
            ) by {
                match_index@.dom().lemma_len_filter(|peer: NodeId| match_index@[peer] >= index);
            }
        }
        return None;
    }
    proof {
        lemma_rank(indices@, majority as int);
        lemma_quorum_index_is(
            match_index@,
            own_last as nat,
            majority as nat,
            indices@[majority - 1],
        );
    }
    Some(indices[majority - 1])
}

/// Two majorities of one cluster share a node.
pub proof fn lemma_majorities_intersect(
    everyone: Set<NodeId>,
    a: Set<NodeId>,
    b: Set<NodeId>,
) -> (shared: NodeId)
    requires
        everyone.finite(),
        everyone.len() >= 1,
        a.subset_of(everyone),
        b.subset_of(everyone),
        a.len() >= majority_with((everyone.len() - 1) as nat),
        b.len() >= majority_with((everyone.len() - 1) as nat),
    ensures
        a.contains(shared),
        b.contains(shared),
{
    vstd::set_lib::lemma_set_subset_finite(everyone, a);
    vstd::set_lib::lemma_set_subset_finite(everyone, b);
    let both = a.intersect(b);
    if both =~= Set::empty() {
        assert(a.disjoint(b)) by {
            assert forall|x: NodeId| !(a.contains(x) && b.contains(x)) by {
                assert(!both.contains(x));
            }
        }
        vstd::set_lib::lemma_set_disjoint_lens(a, b);
        vstd::set_lib::lemma_len_subset(a + b, everyone);
        0
    } else {
        let shared = choose|x: NodeId| both.contains(x);
        assert(both.contains(shared));
        shared
    }
}

} // verus!
