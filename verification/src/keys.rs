//! Keys kept in a vector in which no key stands twice.
use vstd::prelude::*;

use crate::MetricKey;

verus! {

/// The keys as the texts that they are.
pub open spec fn names(keys: Seq<MetricKey>) -> Seq<Seq<char>> {
    keys.map_values(|key: MetricKey| key@)
}

/// Whether no key stands twice.
pub open spec fn distinct(keys: Seq<MetricKey>) -> bool {
    forall|i: int, j: int| 0 <= i < j < keys.len() ==> keys[i]@ != keys[j]@
}

/// Whether `key` stands among the keys.
pub open spec fn listed(keys: Seq<MetricKey>, key: Seq<char>) -> bool {
    exists|i: int| 0 <= i < keys.len() && keys[i]@ == key
}

/// Where `key` stands among the keys, if it does.
pub open spec fn slot(keys: Seq<MetricKey>, key: Seq<char>) -> int {
    choose|i: int| 0 <= i < keys.len() && keys[i]@ == key
}

/// Among distinct keys a key stands in one place only.
pub proof fn lemma_slot(keys: Seq<MetricKey>, key: Seq<char>, i: int)
    requires
        distinct(keys),
        0 <= i < keys.len(),
        keys[i]@ == key,
    ensures
        listed(keys, key),
        slot(keys, key) == i,
{
    let j = slot(keys, key);
    if i < j {
        assert(keys[i]@ != keys[j]@);
    } else if j < i {
        assert(keys[j]@ != keys[i]@);
    }
}

/// Looks a key up.
pub fn position(keys: &Vec<MetricKey>, key: &MetricKey) -> (at: Option<usize>)
    requires
        distinct(keys@),
    ensures
        at is Some == listed(keys@, key@),
        at matches Some(i) ==> i < keys@.len() && i == slot(keys@, key@),
{
    let n = keys.len();
    let mut i: usize = 0;
    while i < n
        invariant
            distinct(keys@),
            n == keys@.len(),
            i <= n,
            forall|k: int| 0 <= k < i ==> keys@[k]@ != key@,
        decreases n - i,
    {
        if keys[i] == *key {
            proof {
                lemma_slot(keys@, key@, i as int);
            }
            return Some(i);
        }
        i = i + 1;
    }
    None
}

} // verus!
