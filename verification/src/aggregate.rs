//! Aggregation of a round's observations: grouping the readings by key, in
//! key order, and committing the aggregated values in a Merkle root.

use vstd::prelude::*;

use crate::crypto::{leaf_views, merkle_root, merkle_root_of, sha256, Sha256Hasher};
use crate::hexcode::{encode_hex, hex_encoding, lemma_hex_shape};
use crate::median::{
    calculate_median, lemma_median_order_independent, median_of, same_reading, side_of, Median,
    NEG_ZERO_KEY, POS_ZERO_KEY,
};
use crate::node::SignedObservation;
use crate::ordering::{
    bytes_lt, compare_bytes, is_nan_key, lemma_bytes_lt_irreflexive, lemma_bytes_lt_total,
    lemma_bytes_lt_transitive, KeyOrder,
};
use vstd::utf8::encode_utf8;

verus! {

/// The UTF-8 bytes of a text key; keys are ordered and told apart by them.
pub open spec fn key_bytes(s: String) -> Seq<u8> {
    encode_utf8(s@)
}

/// The readings observed for the key with bytes `key`, in observation order.
pub open spec fn values_for(obs: Seq<SignedObservation>, key: Seq<u8>) -> Seq<u64>
    decreases obs.len(),
{
    if obs.len() == 0 {
        Seq::empty()
    } else if key_bytes(obs.last().key) == key {
        values_for(obs.drop_last(), key).push(obs.last().value)
    } else {
        values_for(obs.drop_last(), key)
    }
}

/// Group keys in strictly increasing byte order.
pub open spec fn keys_increasing(groups: Seq<(String, Vec<u64>)>) -> bool {
    forall|i: int, j: int|
        0 <= i < j < groups.len() ==> bytes_lt(key_bytes(groups[i].0), key_bytes(groups[j].0))
}

/// `groups` holds, once per observed key and in key order, the readings
/// observed for that key in observation order.
pub open spec fn is_grouping(groups: Seq<(String, Vec<u64>)>, obs: Seq<SignedObservation>) -> bool {
    &&& keys_increasing(groups)
    &&& forall|i: int|
        0 <= i < groups.len() ==> (#[trigger] groups[i]).1@ == values_for(obs, key_bytes(groups[i].0))
            && groups[i].1@.len() > 0
    &&& forall|j: int|
        0 <= j < obs.len() ==> exists|i: int|
            0 <= i < groups.len() && key_bytes(#[trigger] groups[i].0) == key_bytes(
                #[trigger] obs[j].key,
            )
}

proof fn lemma_values_for_absent(obs: Seq<SignedObservation>, key: Seq<u8>)
    requires
        forall|j: int| 0 <= j < obs.len() ==> key_bytes(#[trigger] obs[j].key) != key,
    ensures
        values_for(obs, key).len() == 0,
    decreases obs.len(),
{
    if obs.len() > 0 {
        assert(key_bytes(obs[obs.len() - 1].key) != key);
        lemma_values_for_absent(obs.drop_last(), key);
    }
}

proof fn lemma_values_for_step(obs: Seq<SignedObservation>, i: int, key: Seq<u8>)
    requires
        0 <= i < obs.len(),
    ensures
        values_for(obs.take(i + 1), key) == if key_bytes(obs[i].key) == key {
            values_for(obs.take(i), key).push(obs[i].value)
        } else {
            values_for(obs.take(i), key)
        },
{
    assert(obs.take(i + 1).drop_last() =~= obs.take(i));
}

/// The number of readings held by all groups together.
pub open spec fn group_sizes(groups: Seq<(String, Vec<u64>)>) -> int
    decreases groups.len(),
{
    if groups.len() == 0 {
        0
    } else {
        group_sizes(groups.drop_last()) + groups.last().1@.len()
    }
}

proof fn lemma_group_sizes_update(groups: Seq<(String, Vec<u64>)>, i: int, g: (String, Vec<u64>))
    requires
        0 <= i < groups.len(),
    ensures
        group_sizes(groups.update(i, g)) == group_sizes(groups) - groups[i].1@.len() + g.1@.len(),
    decreases groups.len(),
{
    if i < groups.len() - 1 {
        lemma_group_sizes_update(groups.drop_last(), i, g);
        assert(groups.update(i, g).drop_last() =~= groups.drop_last().update(i, g));
    } else {
        assert(groups.update(i, g).drop_last() =~= groups.drop_last());
    }
}

proof fn lemma_group_sizes_insert(groups: Seq<(String, Vec<u64>)>, i: int, g: (String, Vec<u64>))
    requires
        0 <= i <= groups.len(),
    ensures
        group_sizes(groups.insert(i, g)) == group_sizes(groups) + g.1@.len(),
    decreases groups.len(),
{
    if i == groups.len() {
        assert(groups.insert(i, g).drop_last() =~= groups);
    } else {
        lemma_group_sizes_insert(groups.drop_last(), i, g);
        assert(groups.insert(i, g).drop_last() =~= groups.drop_last().insert(i, g));
    }
}

/// Where a key's group stands: the first group whose key is not below it.
fn locate(groups: &Vec<(String, Vec<u64>)>, key: &[u8]) -> (r: (usize, bool))
    requires
        keys_increasing(groups@),
    ensures
        r.0 <= groups@.len(),
        forall|q: int| 0 <= q < r.0 ==> bytes_lt(key_bytes(#[trigger] groups@[q].0), key@),
        r.1 ==> r.0 < groups@.len() && key_bytes(groups@[r.0 as int].0) == key@,
        !r.1 ==> forall|q: int|
            r.0 <= q < groups@.len() ==> bytes_lt(key@, key_bytes(#[trigger] groups@[q].0)),
{
    let mut p: usize = 0;
    while p < groups.len()
        invariant
            p <= groups@.len(),
            keys_increasing(groups@),
            forall|q: int| 0 <= q < p ==> bytes_lt(key_bytes(#[trigger] groups@[q].0), key@),
        decreases groups@.len() - p,
    {
        let k = groups[p].0.as_str().as_bytes();
        match compare_bytes(k, key) {
            KeyOrder::Less => {
                p += 1;
            },
            KeyOrder::Equal => {
                return (p, true);
            },
            KeyOrder::Greater => {
                proof {
                    assert forall|q: int| p <= q < groups@.len() implies bytes_lt(
                        key@,
                        key_bytes(#[trigger] groups@[q].0),
                    ) by {
                        if q > p {
                            lemma_bytes_lt_transitive(
                                key@,
                                key_bytes(groups@[p as int].0),
                                key_bytes(groups@[q].0),
                            );
                        }
                    }
                }
                return (p, false);
            },
        }
    }
    (p, false)
}

/// Groups the readings of `obs` by key: one entry per key, keys in increasing
/// byte order (the order of a `BTreeMap<String, _>`), each with the readings
/// of that key in observation order.
pub fn group_by_key(obs: &Vec<SignedObservation>) -> (groups: Vec<(String, Vec<u64>)>)
    ensures
        is_grouping(groups@, obs@),
        group_sizes(groups@) == obs@.len(),
{
    let mut groups: Vec<(String, Vec<u64>)> = Vec::new();
    let mut i: usize = 0;
    while i < obs.len()
        invariant
            i <= obs@.len(),
            is_grouping(groups@, obs@.take(i as int)),
            group_sizes(groups@) == i,
        decreases obs@.len() - i,
    {
        let o = &obs[i];
        let kb = o.key.as_str().as_bytes();
        let (p, found) = locate(&groups, kb);
        let ghost before = groups@;
        let ghost prefix = obs@.take(i as int);
        let ghost k = key_bytes(o.key);
        proof {
            assert(kb@ == k);
            assert(obs@.take(i as int + 1).drop_last() =~= prefix);
        }
        if found {
            let mut vals = groups[p].1.clone();
            vals.push(o.value);
            let name = groups[p].0.clone();
            groups.set(p, (name, vals));
            proof {
                lemma_group_sizes_update(before, p as int, groups@[p as int]);
                let next = obs@.take(i as int + 1);
                assert forall|q: int| 0 <= q < groups@.len() implies (#[trigger] groups@[q]).1@
                    == values_for(next, key_bytes(groups@[q].0)) && groups@[q].1@.len() > 0 by {
                    lemma_values_for_step(obs@, i as int, key_bytes(groups@[q].0));
                    if q != p {
                        assert(groups@[q] == before[q]);
                        if q < p {
                            assert(bytes_lt(key_bytes(before[q].0), key_bytes(before[p as int].0)));
                        } else {
                            assert(bytes_lt(key_bytes(before[p as int].0), key_bytes(before[q].0)));
                        }
                        lemma_bytes_lt_irreflexive(k);
                    }
                }
                assert forall|j: int| 0 <= j < next.len() implies exists|q: int|
                    0 <= q < groups@.len() && key_bytes(#[trigger] groups@[q].0) == key_bytes(
                        #[trigger] next[j].key,
                    ) by {
                    if j < i {
                        assert(next[j] == prefix[j]);
                        let q = choose|q: int|
                            0 <= q < before.len() && key_bytes(#[trigger] before[q].0) == key_bytes(
                                prefix[j].key,
                            );
                        assert(groups@[q].0 == before[q].0);
                    } else {
                        assert(next[j] == obs@[i as int]);
                        assert(groups@[p as int].0 == before[p as int].0);
                    }
                }
            }
        } else {
            let mut vals: Vec<u64> = Vec::new();
            vals.push(o.value);
            groups.insert(p, (o.key.clone(), vals));
            proof {
                lemma_group_sizes_insert(before, p as int, groups@[p as int]);
                let next = obs@.take(i as int + 1);
                assert(groups@ =~= before.insert(p as int, groups@[p as int]));
                assert forall|a: int, b: int| 0 <= a < b < groups@.len() implies bytes_lt(
                    key_bytes(groups@[a].0),
                    key_bytes(groups@[b].0),
                ) by {
                    if b < p {
                        assert(groups@[a] == before[a] && groups@[b] == before[b]);
                    } else if b == p {
                        assert(groups@[a] == before[a]);
                    } else if a < p {
                        assert(groups@[a] == before[a] && groups@[b] == before[b - 1]);
                        lemma_bytes_lt_transitive(
                            key_bytes(before[a].0),
                            k,
                            key_bytes(before[b - 1].0),
                        );
                    } else if a == p {
                        assert(groups@[b] == before[b - 1]);
                    } else {
                        assert(groups@[a] == before[a - 1] && groups@[b] == before[b - 1]);
                    }
                }
                assert forall|j: int| 0 <= j < prefix.len() implies key_bytes(
                    #[trigger] prefix[j].key,
                ) != k by {
                    let q = choose|q: int|
                        0 <= q < before.len() && key_bytes(#[trigger] before[q].0) == key_bytes(
                            prefix[j].key,
                        );
                    lemma_bytes_lt_irreflexive(k);
                    if q < p {
                        assert(bytes_lt(key_bytes(before[q].0), k));
                    } else {
                        assert(bytes_lt(k, key_bytes(before[q].0)));
                    }
                }
                lemma_values_for_absent(prefix, k);
                assert forall|q: int| 0 <= q < groups@.len() implies (#[trigger] groups@[q]).1@
                    == values_for(next, key_bytes(groups@[q].0)) && groups@[q].1@.len() > 0 by {
                    lemma_values_for_step(obs@, i as int, key_bytes(groups@[q].0));
                    lemma_bytes_lt_irreflexive(k);
                    if q < p {
                        assert(groups@[q] == before[q]);
                        assert(bytes_lt(key_bytes(before[q].0), k));
                    } else if q > p {
                        assert(groups@[q] == before[q - 1]);
                        assert(bytes_lt(k, key_bytes(before[q - 1].0)));
                    } else {
                        assert(groups@[q].1@ =~= seq![o.value]);
                        assert(values_for(prefix, k) =~= Seq::<u64>::empty());
                    }
                }
                assert forall|j: int| 0 <= j < next.len() implies exists|q: int|
                    0 <= q < groups@.len() && key_bytes(#[trigger] groups@[q].0) == key_bytes(
                        #[trigger] next[j].key,
                    ) by {
                    if j < i {
                        assert(next[j] == prefix[j]);
                        let q = choose|q: int|
                            0 <= q < before.len() && key_bytes(#[trigger] before[q].0) == key_bytes(
                                prefix[j].key,
                            );
                        if q < p {
                            assert(groups@[q] == before[q]);
                        } else {
                            assert(groups@[q + 1] == before[q]);
                        }
                    } else {
                        assert(next[j] == obs@[i as int]);
                        assert(groups@[p as int].0 == o.key);
                    }
                }
            }
        }
        i += 1;
    }
    proof {
        assert(obs@.take(i as int) =~= obs@);
    }
    groups
}

/// The text committed for one aggregated value: `key:value`.
pub open spec fn leaf_text(key: Seq<char>, value_text: Seq<char>) -> Seq<char> {
    key + seq![':'] + value_text
}

/// The leaf hashes for aggregated values, in the given order.
pub open spec fn value_leaves(values: Seq<(String, String)>) -> Seq<Seq<u8>> {
    values.map_values(|e: (String, String)| sha256(encode_utf8(leaf_text(e.0@, e.1@))))
}

/// Thirty-two zero bytes: the root committed when there is nothing to commit.
pub open spec fn zero_root() -> Seq<u8> {
    Seq::new(32, |i: int| 0u8)
}

/// The hexadecimal text of the Merkle root over `values`, or of the zero
/// root when there are none.
pub open spec fn merkle_root_text(values: Seq<(String, String)>) -> Seq<char> {
    hex_encoding(
        match merkle_root_of(value_leaves(values)) {
            Some(r) => r,
            None => zero_root(),
        },
    )
}

/// The text committed for one aggregated value: `key:value`.
pub fn leaf_text_of(key: &String, value_text: &String) -> (text: String)
    ensures
        text@ == leaf_text(key@, value_text@),
{
    let mut text = key.clone();
    text.append(":");
    text.append(value_text.as_str());
    proof {
        reveal_strlit(":");
        assert(text@ =~= leaf_text(key@, value_text@));
    }
    text
}

/// The hexadecimal text of a Merkle root, or of the zero root when there is
/// no root.
pub fn root_hex(root: Option<[u8; 32]>) -> (text: String)
    ensures
        text@ == hex_encoding(
            match root {
                Some(r) => r@,
                None => zero_root(),
            },
        ),
{
    let bytes = match root {
        Some(r) => r,
        None => [0u8; 32],
    };
    proof {
        assert(bytes@ =~= match root {
            Some(r) => r@,
            None => zero_root(),
        });
    }
    encode_hex(&bytes)
}

/// The Merkle root, in lower-case hexadecimal, over the aggregated values
/// (each given as its key and the text of its value, in key order). Each
/// leaf is the SHA-256 hash of `key:value`.
pub fn build_merkle_root(values: &Vec<(String, String)>) -> (root: String)
    ensures
        root@ == merkle_root_text(values@),
        root@.len() == 64,
        values@.len() == 0 ==> root@ == hex_encoding(zero_root()),
        values@.len() == 1 ==> root@ == hex_encoding(
            sha256(encode_utf8(leaf_text(values@[0].0@, values@[0].1@))),
        ),
{
    let mut leaves: Vec<[u8; 32]> = Vec::new();
    let mut i: usize = 0;
    while i < values.len()
        invariant
            i <= values@.len(),
            leaf_views(leaves@) == value_leaves(values@.take(i as int)),
        decreases values@.len() - i,
    {
        let text = leaf_text_of(&values[i].0, &values[i].1);
        let leaf = Sha256Hasher::hash(text.as_str().as_bytes());
        let ghost before = leaves@;
        leaves.push(leaf);
        proof {
            assert(leaf_views(leaves@) =~= leaf_views(before).push(leaf@));
            assert(value_leaves(values@.take(i as int + 1)) =~= value_leaves(
                values@.take(i as int),
            ).push(leaf@));
        }
        i += 1;
    }
    proof {
        assert(values@.take(i as int) =~= values@);
    }
    let root = merkle_root(&leaves);
    proof {
        match root {
            Some(r) => lemma_hex_shape(r@),
            None => lemma_hex_shape(zero_root()),
        }
        if values@.len() == 1 {
            assert(leaf_views(leaves@)[0] == leaves@[0]@);
            assert(value_leaves(values@)[0] == sha256(
                encode_utf8(leaf_text(values@[0].0@, values@[0].1@)),
            ));
        }
    }
    root_hex(root)
}

/// The signatures of `obs`, in order.
pub fn collect_signatures(obs: &Vec<SignedObservation>) -> (sigs: Vec<String>)
    ensures
        sigs@.len() == obs@.len(),
        forall|i: int| 0 <= i < obs@.len() ==> (#[trigger] sigs@[i])@ == obs@[i].signature@,
{
    let mut sigs: Vec<String> = Vec::new();
    let mut i: usize = 0;
    while i < obs.len()
        invariant
            i <= obs@.len(),
            sigs@.len() == i,
            forall|j: int| 0 <= j < i ==> (#[trigger] sigs@[j])@ == obs@[j].signature@,
        decreases obs@.len() - i,
    {
        sigs.push(obs[i].signature.clone());
        i += 1;
    }
    sigs
}

/// `table` holds, once per observed key and in key order, the median of the
/// readings observed for that key.
pub open spec fn is_median_table(table: Seq<(String, Median)>, obs: Seq<SignedObservation>) -> bool {
    &&& forall|i: int, j: int|
        0 <= i < j < table.len() ==> bytes_lt(key_bytes(table[i].0), key_bytes(table[j].0))
    &&& forall|i: int|
        0 <= i < table.len() ==> values_for(obs, key_bytes((#[trigger] table[i]).0)).len() > 0
            && table[i].1 == median_of(values_for(obs, key_bytes(table[i].0)))
    &&& forall|j: int|
        0 <= j < obs.len() ==> exists|i: int|
            0 <= i < table.len() && key_bytes(#[trigger] table[i].0) == key_bytes(
                #[trigger] obs[j].key,
            )
}

/// Every key observed more than once has only readings that are numbers.
pub open spec fn comparable_readings(obs: Seq<SignedObservation>) -> bool {
    forall|key: Seq<u8>, m: int|
        values_for(obs, key).len() >= 2 && 0 <= m < values_for(obs, key).len() ==> !is_nan_key(
            #[trigger] values_for(obs, key)[m],
        )
}

/// The aggregated state of a round: for each observed key, in key order, the
/// median of its readings.
pub fn aggregate_medians(obs: &Vec<SignedObservation>) -> (table: Vec<(String, Median)>)
    requires
        comparable_readings(obs@),
    ensures
        is_median_table(table@, obs@),
{
    let groups = group_by_key(obs);
    let mut table: Vec<(String, Median)> = Vec::new();
    let mut i: usize = 0;
    while i < groups.len()
        invariant
            i <= groups@.len(),
            is_grouping(groups@, obs@),
            comparable_readings(obs@),
            table@.len() == i,
            forall|k: int|
                0 <= k < i ==> (#[trigger] table@[k]).0 == groups@[k].0 && table@[k].1 == median_of(
                    groups@[k].1@,
                ),
        decreases groups@.len() - i,
    {
        let mut vals = groups[i].1.clone();
        assert(vals@ =~= groups@[i as int].1@);
        let m = calculate_median(&mut vals);
        table.push((groups[i].0.clone(), m));
        i += 1;
    }
    proof {
        assert forall|j: int| 0 <= j < obs@.len() implies exists|k: int|
            0 <= k < table@.len() && key_bytes(#[trigger] table@[k].0) == key_bytes(
                #[trigger] obs@[j].key,
            ) by {
            let k = choose|k: int|
                0 <= k < groups@.len() && key_bytes(#[trigger] groups@[k].0) == key_bytes(
                    obs@[j].key,
                );
            assert(table@[k].0 == groups@[k].0);
        }
        assert forall|a: int, b: int| 0 <= a < b < table@.len() implies bytes_lt(
            key_bytes(table@[a].0),
            key_bytes(table@[b].0),
        ) by {
            assert(table@[a].0 == groups@[a].0);
            assert(table@[b].0 == groups@[b].0);
        }
    }
    table
}

/// Byte strings in strictly increasing order.
pub open spec fn strictly_increasing(s: Seq<Seq<u8>>) -> bool {
    forall|i: int, j: int| 0 <= i < j < s.len() ==> bytes_lt(s[i], s[j])
}

/// The keys of a median table, as bytes.
pub open spec fn table_keys(table: Seq<(String, Median)>) -> Seq<Seq<u8>> {
    table.map_values(|e: (String, Median)| key_bytes(e.0))
}

/// Two strictly increasing lists of the same keys are the same list.
proof fn lemma_increasing_unique(a: Seq<Seq<u8>>, b: Seq<Seq<u8>>)
    requires
        strictly_increasing(a),
        strictly_increasing(b),
        forall|x: Seq<u8>| a.contains(x) <==> b.contains(x),
    ensures
        a == b,
    decreases a.len(),
{
    if a.len() == 0 {
        if b.len() > 0 {
            assert(b.contains(b[0]));
        }
        assert(a =~= b);
    } else {
        assert(a.contains(a[0]));
        assert(b.contains(a[0]));
        assert(b.contains(b[0]));
        assert(a.contains(b[0]));
        let j = choose|j: int| 0 <= j < b.len() && b[j] == a[0];
        let k = choose|k: int| 0 <= k < a.len() && a[k] == b[0];
        lemma_bytes_lt_total(a[0], b[0]);
        lemma_bytes_lt_irreflexive(a[0]);
        if j > 0 {
            assert(bytes_lt(b[0], a[0]));
            if k > 0 {
                assert(bytes_lt(a[0], b[0]));
            }
        }
        assert(a[0] == b[0]);
        let a2 = a.drop_first();
        let b2 = b.drop_first();
        assert forall|x: Seq<u8>| a2.contains(x) <==> b2.contains(x) by {
            if a2.contains(x) {
                let m = choose|m: int| 0 <= m < a2.len() && a2[m] == x;
                assert(a[m + 1] == x);
                assert(bytes_lt(a[0], x));
                lemma_bytes_lt_irreflexive(x);
                assert(b.contains(x));
                let n = choose|n: int| 0 <= n < b.len() && b[n] == x;
                assert(n != 0);
                assert(b2[n - 1] == x);
            }
            if b2.contains(x) {
                let m = choose|m: int| 0 <= m < b2.len() && b2[m] == x;
                assert(b[m + 1] == x);
                assert(bytes_lt(b[0], x));
                lemma_bytes_lt_irreflexive(x);
                assert(a.contains(x));
                let n = choose|n: int| 0 <= n < a.len() && a[n] == x;
                assert(n != 0);
                assert(a2[n - 1] == x);
            }
        }
        lemma_increasing_unique(a2, b2);
        assert(a =~= seq![a[0]] + a2);
        assert(b =~= seq![b[0]] + b2);
    }
}

proof fn lemma_values_for_present(obs: Seq<SignedObservation>, key: Seq<u8>)
    requires
        values_for(obs, key).len() > 0,
    ensures
        exists|j: int| 0 <= j < obs.len() && key_bytes(#[trigger] obs[j].key) == key,
{
    if !(exists|j: int| 0 <= j < obs.len() && key_bytes(#[trigger] obs[j].key) == key) {
        lemma_values_for_absent(obs, key);
    }
}

/// A median table lists exactly the keys that have readings.
proof fn lemma_table_keys_observed(table: Seq<(String, Median)>, obs: Seq<SignedObservation>, x: Seq<u8>)
    requires
        is_median_table(table, obs),
    ensures
        table_keys(table).contains(x) <==> values_for(obs, x).len() > 0,
        strictly_increasing(table_keys(table)),
{
    let keys = table_keys(table);
    if keys.contains(x) {
        let i = choose|i: int| 0 <= i < keys.len() && keys[i] == x;
        assert(key_bytes(table[i].0) == x);
    }
    if values_for(obs, x).len() > 0 {
        lemma_values_for_present(obs, x);
        let j = choose|j: int| 0 <= j < obs.len() && key_bytes(#[trigger] obs[j].key) == x;
        let i = choose|i: int|
            0 <= i < table.len() && key_bytes(#[trigger] table[i].0) == key_bytes(obs[j].key);
        assert(keys[i] == x);
    }
}

/// Law: nodes agree on the aggregated state. Two rounds in which every key
/// has the same readings (in any order, from any nodes, with any signatures)
/// produce median tables with the same keys in the same order and medians of
/// the same numeric value. The medians are the very same where the zeros of
/// a key (-0.0 and +0.0, equal numbers) came in the same order, in
/// particular where a key has zeros of one sign only.
pub proof fn lemma_rounds_agree(
    table_a: Seq<(String, Median)>,
    table_b: Seq<(String, Median)>,
    obs_a: Seq<SignedObservation>,
    obs_b: Seq<SignedObservation>,
)
    requires
        is_median_table(table_a, obs_a),
        is_median_table(table_b, obs_b),
        forall|k: Seq<u8>| #[trigger]
            values_for(obs_a, k).to_multiset() == values_for(obs_b, k).to_multiset(),
    ensures
        table_a.len() == table_b.len(),
        forall|i: int|
            0 <= i < table_a.len() ==> {
                let k = key_bytes((#[trigger] table_a[i]).0);
                &&& k == key_bytes(table_b[i].0)
                &&& same_reading(table_a[i].1, table_b[i].1)
                &&& side_of(values_for(obs_a, k), 1) == side_of(values_for(obs_b, k), 1)
                    ==> table_a[i].1 == table_b[i].1
                &&& !(values_for(obs_a, k).contains(NEG_ZERO_KEY) && values_for(obs_a, k).contains(
                    POS_ZERO_KEY,
                )) ==> table_a[i].1 == table_b[i].1
            },
{
    let ka = table_keys(table_a);
    let kb = table_keys(table_b);
    assert forall|x: Seq<u8>| ka.contains(x) <==> kb.contains(x) by {
        lemma_table_keys_observed(table_a, obs_a, x);
        lemma_table_keys_observed(table_b, obs_b, x);
        assert(values_for(obs_a, x).to_multiset() == values_for(obs_b, x).to_multiset());
        vstd::seq_lib::to_multiset_len(values_for(obs_a, x));
        vstd::seq_lib::to_multiset_len(values_for(obs_b, x));
    }
    lemma_table_keys_observed(table_a, obs_a, Seq::empty());
    lemma_table_keys_observed(table_b, obs_b, Seq::empty());
    lemma_increasing_unique(ka, kb);
    assert forall|i: int| 0 <= i < table_a.len() implies {
        let k = key_bytes((#[trigger] table_a[i]).0);
        &&& k == key_bytes(table_b[i].0)
        &&& same_reading(table_a[i].1, table_b[i].1)
        &&& side_of(values_for(obs_a, k), 1) == side_of(values_for(obs_b, k), 1) ==> table_a[i].1
            == table_b[i].1
        &&& !(values_for(obs_a, k).contains(NEG_ZERO_KEY) && values_for(obs_a, k).contains(
            POS_ZERO_KEY,
        )) ==> table_a[i].1 == table_b[i].1
    } by {
        assert(ka[i] == kb[i]);
        let k = key_bytes(table_a[i].0);
        assert(values_for(obs_a, k).to_multiset() == values_for(obs_b, k).to_multiset());
        lemma_median_order_independent(values_for(obs_a, k), values_for(obs_b, k));
    }
}

/// The values committed by a snapshot: each median's key with the text of
/// its reading.
pub open spec fn committed_values(medians: Seq<(String, Median)>, value_texts: Seq<String>) -> Seq<
    (String, String),
> {
    Seq::new(medians.len(), |i: int| (medians[i].0, value_texts[i]))
}

/// The evidence of one consensus round.
#[derive(Debug)]
pub struct QuorumSnapshot {
    pub epoch: u64,
    pub merkle_root: String,
    /// The aggregated values, in key order.
    pub values: Vec<(String, Median)>,
    /// Evidence of node agreement.
    pub signatures: Vec<String>,
}

impl QuorumSnapshot {
    /// The snapshot of round `epoch`: the medians, the Merkle root over the
    /// medians' keys and reading texts (`value_texts[i]` is the text of
    /// `medians[i]`), and the signatures of the observations.
    pub fn assemble(
        epoch: u64,
        medians: Vec<(String, Median)>,
        value_texts: &Vec<String>,
        obs: &Vec<SignedObservation>,
    ) -> (s: Self)
        requires
            value_texts@.len() == medians@.len(),
        ensures
            s.epoch == epoch,
            s.values@ == medians@,
            s.merkle_root@ == merkle_root_text(committed_values(medians@, value_texts@)),
            s.signatures@.len() == obs@.len(),
            forall|i: int|
                0 <= i < obs@.len() ==> (#[trigger] s.signatures@[i])@ == obs@[i].signature@,
    {
        let mut entries: Vec<(String, String)> = Vec::new();
        let mut i: usize = 0;
        while i < medians.len()
            invariant
                i <= medians@.len(),
                value_texts@.len() == medians@.len(),
                entries@ == committed_values(medians@, value_texts@).take(i as int),
            decreases medians@.len() - i,
        {
            entries.push((medians[i].0.clone(), value_texts[i].clone()));
            proof {
                assert(entries@ =~= committed_values(medians@, value_texts@).take(i as int + 1));
            }
            i += 1;
        }
        proof {
            assert(committed_values(medians@, value_texts@).take(i as int) =~= committed_values(
                medians@,
                value_texts@,
            ));
        }
        let merkle_root = build_merkle_root(&entries);
        QuorumSnapshot { epoch, merkle_root, values: medians, signatures: collect_signatures(obs) }
    }
}

} // verus!
