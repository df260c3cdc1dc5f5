use vstd::prelude::*;
use crate::record::NameData;

verus! {

/// Two records belong to the same group when they agree on gender and
/// ethnicity, by exact string match.
pub open spec fn same_group(a: NameData, b: NameData) -> bool {
    a.gender@ == b.gender@ && a.ethnicity@ == b.ethnicity@
}

/// The grouping key of a record: its (gender, ethnicity) pair.
pub open spec fn group_key(r: NameData) -> (Seq<char>, Seq<char>) {
    (r.gender@, r.ethnicity@)
}

/// Whether a record carries the given grouping key.
pub open spec fn in_group(r: NameData, key: (Seq<char>, Seq<char>)) -> bool {
    r.gender@ == key.0 && r.ethnicity@ == key.1
}

/// The distinct grouping keys of a node sequence, in order of first
/// occurrence.
pub open spec fn group_keys(nodes: Seq<NameData>) -> Seq<(Seq<char>, Seq<char>)>
    decreases nodes.len(),
{
    if nodes.len() == 0 {
        Seq::empty()
    } else {
        let p = group_keys(nodes.drop_last());
        if p.contains(group_key(nodes.last())) {
            p
        } else {
            p.push(group_key(nodes.last()))
        }
    }
}

/// How many records of the sequence carry the given key.
pub open spec fn group_size(nodes: Seq<NameData>, key: (Seq<char>, Seq<char>)) -> int
    decreases nodes.len(),
{
    if nodes.len() == 0 {
        0
    } else {
        group_size(nodes.drop_last(), key) + if in_group(nodes.last(), key) {
            1int
        } else {
            0int
        }
    }
}

/// The sum of the `count` fields of the records carrying the given key.
pub open spec fn group_total(nodes: Seq<NameData>, key: (Seq<char>, Seq<char>)) -> int
    decreases nodes.len(),
{
    if nodes.len() == 0 {
        0
    } else {
        group_total(nodes.drop_last(), key) + if in_group(nodes.last(), key) {
            nodes.last().count as int
        } else {
            0int
        }
    }
}

/// The names of the records carrying the given key, in insertion order.
pub open spec fn group_names(nodes: Seq<NameData>, key: (Seq<char>, Seq<char>)) -> Seq<Seq<char>>
    decreases nodes.len(),
{
    if nodes.len() == 0 {
        Seq::empty()
    } else {
        let p = group_names(nodes.drop_last(), key);
        if in_group(nodes.last(), key) {
            p.push(nodes.last().name@)
        } else {
            p
        }
    }
}

/// How many records of the group have a name that starts with `c`.
/// A record with an empty name contributes to no letter.
pub open spec fn letter_count(nodes: Seq<NameData>, key: (Seq<char>, Seq<char>), c: char) -> int
    decreases nodes.len(),
{
    if nodes.len() == 0 {
        0
    } else {
        letter_count(nodes.drop_last(), key, c) + if in_group(nodes.last(), key)
            && nodes.last().name@.len() > 0 && nodes.last().name@[0] == c {
            1int
        } else {
            0int
        }
    }
}

/// The sum over the given keys of g*(g-1), where g is the size of the
/// key's group in the node sequence.
pub open spec fn ordered_pair_sum(nodes: Seq<NameData>, keys: Seq<(Seq<char>, Seq<char>)>) -> int
    decreases keys.len(),
{
    if keys.len() == 0 {
        0
    } else {
        ordered_pair_sum(nodes, keys.drop_last()) + group_size(nodes, keys.last()) * (group_size(
            nodes,
            keys.last(),
        ) - 1)
    }
}

pub proof fn lemma_group_size_bounds(nodes: Seq<NameData>, key: (Seq<char>, Seq<char>))
    ensures
        0 <= group_size(nodes, key) <= nodes.len(),
    decreases nodes.len(),
{
    if nodes.len() > 0 {
        lemma_group_size_bounds(nodes.drop_last(), key);
    }
}

pub proof fn lemma_group_total_bounds(nodes: Seq<NameData>, key: (Seq<char>, Seq<char>))
    ensures
        0 <= group_total(nodes, key) <= nodes.len() * (u32::MAX as int),
    decreases nodes.len(),
{
    if nodes.len() > 0 {
        lemma_group_total_bounds(nodes.drop_last(), key);
        assert((nodes.len() - 1) * (u32::MAX as int) + (u32::MAX as int) == nodes.len() * (
        u32::MAX as int)) by (nonlinear_arith);
    }
}

pub proof fn lemma_letter_count_bounds(nodes: Seq<NameData>, key: (Seq<char>, Seq<char>), c: char)
    ensures
        0 <= letter_count(nodes, key, c) <= nodes.len(),
    decreases nodes.len(),
{
    if nodes.len() > 0 {
        lemma_letter_count_bounds(nodes.drop_last(), key, c);
    }
}

/// Membership in a sequence extended by one element.
pub proof fn lemma_contains_push<A>(s: Seq<A>, x: A, y: A)
    ensures
        s.push(x).contains(y) <==> (s.contains(y) || x == y),
{
    if s.contains(y) {
        let j = choose|j: int| 0 <= j < s.len() && s[j] == y;
        assert(s.push(x)[j] == y);
    }
    if x == y {
        assert(s.push(x)[s.len() as int] == y);
    }
    if s.push(x).contains(y) && x != y {
        let j = choose|j: int| 0 <= j < s.push(x).len() && s.push(x)[j] == y;
        assert(0 <= j < s.len());
        assert(s[j] == y);
    }
}

/// The distinct keys contain no repetitions.
pub proof fn lemma_group_keys_no_dup(nodes: Seq<NameData>)
    ensures
        group_keys(nodes).no_duplicates(),
    decreases nodes.len(),
{
    if nodes.len() > 0 {
        lemma_group_keys_no_dup(nodes.drop_last());
    }
}

/// A key is listed among the group keys exactly when its group is
/// inhabited.
pub proof fn lemma_group_keys_size(nodes: Seq<NameData>, key: (Seq<char>, Seq<char>))
    ensures
        group_keys(nodes).contains(key) <==> group_size(nodes, key) > 0,
    decreases nodes.len(),
{
    if nodes.len() > 0 {
        let d = nodes.drop_last();
        let last_key = group_key(nodes.last());
        lemma_group_keys_size(d, key);
        lemma_group_size_bounds(d, key);
        assert(in_group(nodes.last(), key) <==> key == last_key);
        if in_group(nodes.last(), key) {
            assert(key =~= last_key);
        }
        if group_keys(d).contains(last_key) {
            assert(group_keys(nodes) == group_keys(d));
        } else {
            assert(group_keys(nodes) == group_keys(d).push(last_key));
            lemma_contains_push(group_keys(d), last_key, key);
        }
    }
}

/// Appending one record to the node sequence raises the ordered-pair
/// sum over distinct keys by twice the prior size of the record's group.
pub proof fn lemma_pair_sum_append(nodes: Seq<NameData>, r: NameData, keys: Seq<(Seq<char>, Seq<char>)>)
    requires
        keys.no_duplicates(),
    ensures
        ordered_pair_sum(nodes.push(r), keys) == ordered_pair_sum(nodes, keys) + if keys.contains(
            group_key(r),
        ) {
            2 * group_size(nodes, group_key(r))
        } else {
            0int
        },
    decreases keys.len(),
{
    if keys.len() > 0 {
        let kd = keys.drop_last();
        let k = keys.last();
        let ghost kk = group_key(r);
        assert(kd.no_duplicates()) by {
            assert(forall|i: int, j: int|
                0 <= i < j < kd.len() ==> kd[i] == keys[i] && kd[j] == keys[j]);
        }
        lemma_pair_sum_append(nodes, r, kd);
        assert(nodes.push(r).drop_last() =~= nodes);
        assert(nodes.push(r).last() == r);
        assert(keys =~= kd.push(k));
        lemma_contains_push(kd, k, kk);
        let c = group_size(nodes, k);
        if in_group(r, k) {
            assert(k =~= kk);
            assert(group_size(nodes.push(r), k) == c + 1);
            assert((c + 1) * c == c * (c - 1) + 2 * c) by (nonlinear_arith);
            assert(!kd.contains(k)) by {
                if kd.contains(k) {
                    let j = choose|j: int| 0 <= j < kd.len() && kd[j] == k;
                    assert(keys[j] == k);
                    assert(keys[keys.len() - 1] == k);
                }
            }
            assert(keys.contains(kk)) by {
                assert(keys[keys.len() - 1] == kk);
            }
        } else {
            assert(k != kk) by {
                if k == kk {
                    assert(in_group(r, kk));
                }
            }
            assert(group_size(nodes.push(r), k) == c);
        }
    }
}

} // verus!
