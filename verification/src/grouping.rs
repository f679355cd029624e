//! Exact-duplicate discovery: files are bucketed by length, then by content
//! digest, and the buckets of two or more become groups.

use crate::digest::Digest;
use crate::session::{group_views, Group, GroupView};
use crate::text::texts;
use std::collections::HashMap;
use vstd::prelude::*;

verus! {

/// What makes two files duplicates of each other: equal length and equal
/// content digest.
#[derive(Clone, Copy, Debug)]
pub struct DedupeKey {
    pub length: u64,
    pub digest: Digest,
}

/// Files that share a key. `members` are positions in the list of candidates.
#[derive(Debug)]
pub struct DuplicateGroup {
    pub key: DedupeKey,
    pub members: Vec<usize>,
}

/// The candidates at `i` and `j` both have a key, and the same one.
pub open spec fn same_key(keys: Seq<Option<DedupeKey>>, i: int, j: int) -> bool {
    &&& keys[i] is Some
    &&& keys[j] is Some
    &&& keys[i]->0.length == keys[j]->0.length
    &&& keys[i]->0.digest@ == keys[j]->0.digest@
}

/// The candidate at `i` has a duplicate among the others.
pub open spec fn has_duplicate(keys: Seq<Option<DedupeKey>>, i: int) -> bool {
    exists|j: int| 0 <= j < keys.len() && j != i && same_key(keys, i, j)
}

/// `g` is one whole class of duplicates: at least two members, listed in
/// rising order, all with the group's key, and no candidate with that key
/// left out.
#[verifier::opaque]
pub open spec fn is_class(keys: Seq<Option<DedupeKey>>, g: DuplicateGroup) -> bool {
    let m = g.members@;
    &&& m.len() >= 2
    &&& forall|a: int| 0 <= a < m.len() ==> 0 <= #[trigger] m[a] < keys.len()
    &&& forall|a: int, b: int| 0 <= a < b < m.len() ==> m[a] < m[b]
    &&& keys[m[0] as int] is Some
    &&& g.key.length == keys[m[0] as int]->0.length
    &&& g.key.digest@ == keys[m[0] as int]->0.digest@
    &&& forall|a: int| 0 <= a < m.len() ==> same_key(keys, m[0] as int, #[trigger] m[a] as int)
    &&& forall|i: int|
        0 <= i < keys.len() && same_key(keys, m[0] as int, i) ==> exists|a: int|
            0 <= a < m.len() && #[trigger] m[a] == i
}

/// `a` is listed before `b`: the longer files first, and of two groups with
/// files of one length the one whose first member comes first.
pub open spec fn listed_before(a: DuplicateGroup, b: DuplicateGroup) -> bool {
    a.key.length > b.key.length || (a.key.length == b.key.length && a.members@[0]
        < b.members@[0])
}

/// Every group is a whole class of duplicates.
pub open spec fn all_classes(keys: Seq<Option<DedupeKey>>, groups: Seq<DuplicateGroup>) -> bool {
    forall|g: int| 0 <= g < groups.len() ==> is_class(keys, #[trigger] groups[g])
}

/// The groups stand in their fixed order.
pub open spec fn in_order(groups: Seq<DuplicateGroup>) -> bool {
    forall|g: int, h: int|
        0 <= g < h < groups.len() ==> listed_before(#[trigger] groups[g], #[trigger] groups[h])
}

/// The candidate at `k` is in one of the groups.
pub open spec fn is_grouped(
    keys: Seq<Option<DedupeKey>>,
    groups: Seq<DuplicateGroup>,
    k: int,
) -> bool {
    exists|g: int|
        0 <= g < groups.len() && same_key(keys, (#[trigger] groups[g]).members@[0] as int, k)
}

/// Every candidate before `upto` that has a duplicate is in a group.
pub open spec fn covers(
    keys: Seq<Option<DedupeKey>>,
    groups: Seq<DuplicateGroup>,
    upto: int,
) -> bool {
    forall|k: int| 0 <= k < upto && has_duplicate(keys, k) ==> #[trigger] is_grouped(keys, groups, k)
}

/// `groups` are the duplicate groups of `keys`: every group is a whole class,
/// every candidate with a duplicate is in one, and the order is fixed.
pub open spec fn are_groups_of(keys: Seq<Option<DedupeKey>>, groups: Seq<DuplicateGroup>) -> bool {
    &&& all_classes(keys, groups)
    &&& in_order(groups)
    &&& covers(keys, groups, keys.len() as int)
}

/// Every group's first member lies before `i`.
spec fn firsts_below(groups: Seq<DuplicateGroup>, i: int) -> bool {
    forall|g: int| 0 <= g < groups.len() ==> (#[trigger] groups[g]).members@.len() > 0 && groups[g].members@[0] < i
}

/// Whether two keys are equal.
pub fn keys_match(a: &Option<DedupeKey>, b: &Option<DedupeKey>) -> (r: bool)
    ensures
        r == (a is Some && b is Some && a->0.length == b->0.length && a->0.digest@
            == b->0.digest@),
{
    match (a, b) {
        (Some(x), Some(y)) => x.length == y.length && x.digest.same(&y.digest),
        _ => false,
    }
}

/// The candidate at `j` has a key, for a file of length `l`.
spec fn has_length(keys: Seq<Option<DedupeKey>>, j: int, l: u64) -> bool {
    keys[j] is Some && keys[j]->0.length == l
}

/// `b` holds `j`.
spec fn holds(b: Seq<usize>, j: int) -> bool {
    exists|a: int| 0 <= a < b.len() && #[trigger] b[a] == j
}

/// `b` is the bucket of length `l`: it lists, in rising order, the
/// candidates among the first `upto` that have a key for a file of that
/// length.
spec fn is_bucket(keys: Seq<Option<DedupeKey>>, upto: int, l: u64, b: Seq<usize>) -> bool {
    &&& forall|a: int, c: int| 0 <= a < c < b.len() ==> b[a] < b[c]
    &&& forall|a: int| 0 <= a < b.len() ==> (#[trigger] b[a]) < upto && has_length(keys, b[a] as int, l)
    &&& forall|j: int| 0 <= j < upto && #[trigger] has_length(keys, j, l) ==> holds(b, j)
}

/// `m` buckets the first `upto` candidates by the length in their keys.
spec fn are_buckets(keys: Seq<Option<DedupeKey>>, upto: int, m: Map<u64, Vec<usize>>) -> bool {
    &&& forall|l: u64| #[trigger] m.contains_key(l) ==> is_bucket(keys, upto, l, m[l]@)
    &&& forall|j: int, l: u64|
        0 <= j < upto && #[trigger] has_length(keys, j, l) ==> m.contains_key(l)
}

/// A bucket stays one when the next candidate is of another length, and
/// takes the next candidate when it is of the bucket's length.
proof fn lemma_bucket_step(keys: Seq<Option<DedupeKey>>, upto: int, l: u64, b: Seq<usize>)
    requires
        0 <= upto < keys.len(),
        upto <= usize::MAX,
        is_bucket(keys, upto, l, b),
    ensures
        !has_length(keys, upto, l) ==> is_bucket(keys, upto + 1, l, b),
        has_length(keys, upto, l) ==> is_bucket(keys, upto + 1, l, b.push(upto as usize)),
{
    if has_length(keys, upto, l) {
        let c = b.push(upto as usize);
        assert forall|j: int| 0 <= j < upto + 1 && #[trigger] has_length(keys, j, l) implies holds(
            c,
            j,
        ) by {
            if j < upto {
                assert(holds(b, j));
                let a = choose|a: int| 0 <= a < b.len() && #[trigger] b[a] == j;
                assert(c[a] == j);
            } else {
                assert(c[c.len() - 1] == j);
            }
        }
        assert forall|a: int| 0 <= a < c.len() implies (#[trigger] c[a]) < upto + 1 && has_length(
            keys,
            c[a] as int,
            l,
        ) by {
            if a < b.len() {
                assert(c[a] == b[a]);
            }
        }
        assert forall|a: int, d: int| 0 <= a < d < c.len() implies c[a] < c[d] by {
            assert(c[a] == b[a]);
            if d < b.len() {
                assert(c[d] == b[d]);
            }
        }
    } else {
        assert forall|j: int| 0 <= j < upto + 1 && #[trigger] has_length(keys, j, l) implies holds(
            b,
            j,
        ) by {
        }
    }
}

/// The candidates with a key, bucketed by the length in the key.
fn key_buckets(keys: &Vec<Option<DedupeKey>>) -> (buckets: HashMap<u64, Vec<usize>>)
    ensures
        are_buckets(keys@, keys@.len() as int, buckets@),
{
    broadcast use vstd::std_specs::hash::group_hash_axioms;

    let mut buckets: HashMap<u64, Vec<usize>> = HashMap::new();
    let mut i: usize = 0;
    while i < keys.len()
        invariant
            i <= keys.len(),
            are_buckets(keys@, i as int, buckets@),
        decreases keys.len() - i,
    {
        let ghost before = buckets@;
        match &keys[i] {
            Some(key) => {
                let len = key.length;
                let mut bucket: Vec<usize> = match buckets.remove(&len) {
                    Some(b) => b,
                    None => Vec::new(),
                };
                let ghost old_bucket = bucket@;
                proof {
                    if !before.contains_key(len) {
                        assert forall|j: int| 0 <= j < i implies !#[trigger] has_length(
                            keys@,
                            j,
                            len,
                        ) by {
                        }
                        assert(is_bucket(keys@, i as int, len, old_bucket));
                    }
                    assert(has_length(keys@, i as int, len));
                    lemma_bucket_step(keys@, i as int, len, old_bucket);
                }
                bucket.push(i);
                buckets.insert(len, bucket);
                proof {
                    assert forall|l: u64| #[trigger] buckets@.contains_key(l) implies is_bucket(
                        keys@,
                        i + 1,
                        l,
                        buckets@[l]@,
                    ) by {
                        if l != len {
                            assert(before.contains_key(l));
                            assert(buckets@[l] == before[l]);
                            lemma_bucket_step(keys@, i as int, l, before[l]@);
                        }
                    }
                    assert forall|j: int, l: u64|
                        0 <= j < i + 1 && #[trigger] has_length(
                            keys@,
                            j,
                            l,
                        ) implies buckets@.contains_key(l) by {
                        if j < i {
                            assert(before.contains_key(l));
                        }
                    }
                }
            },
            None => {
                proof {
                    assert forall|l: u64| #[trigger] buckets@.contains_key(l) implies is_bucket(
                        keys@,
                        i + 1,
                        l,
                        buckets@[l]@,
                    ) by {
                        lemma_bucket_step(keys@, i as int, l, before[l]@);
                    }
                }
            },
        }
        i += 1;
    }
    buckets
}

/// Whether an earlier candidate has the key of the one at `i`. Only the
/// candidates of the same length are looked at.
fn seen_before(keys: &Vec<Option<DedupeKey>>, bucket: &Vec<usize>, i: usize) -> (r: bool)
    requires
        i < keys.len(),
        keys@[i as int] is Some,
        is_bucket(keys@, keys@.len() as int, keys@[i as int]->0.length, bucket@),
    ensures
        r == exists|j: int| 0 <= j < i && same_key(keys@, j, i as int),
{
    let ghost len = keys@[i as int]->0.length;
    let mut a: usize = 0;
    while a < bucket.len() && bucket[a] < i
        invariant
            a <= bucket.len(),
            i < keys.len(),
            keys@[i as int] is Some,
            len == keys@[i as int]->0.length,
            is_bucket(keys@, keys@.len() as int, len, bucket@),
            forall|c: int| 0 <= c < a ==> !same_key(keys@, (#[trigger] bucket@[c]) as int, i as int),
        decreases bucket.len() - a,
    {
        if keys_match(&keys[bucket[a]], &keys[i]) {
            assert(same_key(keys@, bucket@[a as int] as int, i as int));
            return true;
        }
        a += 1;
    }
    proof {
        assert forall|j: int| 0 <= j < i implies !same_key(keys@, j, i as int) by {
            if same_key(keys@, j, i as int) {
                assert(has_length(keys@, j, len));
                assert(holds(bucket@, j));
                let c = choose|c: int| 0 <= c < bucket@.len() && #[trigger] bucket@[c] == j;
                if c >= a {
                    if c > a {
                        assert(bucket@[a as int] < bucket@[c]);
                    }
                }
            }
        }
    }
    false
}

/// The candidates from `i` on that have the key of the one at `i`. Only the
/// candidates of the same length are looked at.
fn class_from(keys: &Vec<Option<DedupeKey>>, bucket: &Vec<usize>, i: usize) -> (m: Vec<usize>)
    requires
        i < keys.len(),
        keys@[i as int] is Some,
        is_bucket(keys@, keys@.len() as int, keys@[i as int]->0.length, bucket@),
    ensures
        m@.len() >= 1,
        m@[0] == i,
        forall|a: int| 0 <= a < m@.len() ==> i <= #[trigger] m@[a] < keys.len(),
        forall|a: int, b: int| 0 <= a < b < m@.len() ==> m@[a] < m@[b],
        forall|a: int| 0 <= a < m@.len() ==> same_key(keys@, i as int, #[trigger] m@[a] as int),
        forall|k: int|
            i <= k < keys.len() && same_key(keys@, i as int, k) ==> exists|a: int|
                0 <= a < m@.len() && #[trigger] m@[a] == k,
{
    let ghost len = keys@[i as int]->0.length;
    let mut m: Vec<usize> = Vec::new();
    let mut a: usize = 0;
    proof {
        assert(has_length(keys@, i as int, len));
        assert(holds(bucket@, i as int));
    }
    while a < bucket.len()
        invariant
            a <= bucket.len(),
            i < keys.len(),
            keys@[i as int] is Some,
            len == keys@[i as int]->0.length,
            is_bucket(keys@, keys@.len() as int, len, bucket@),
            holds(bucket@, i as int),
            m@.len() > 0 ==> m@[0] == i,
            forall|x: int|
                0 <= x < m@.len() ==> i <= #[trigger] m@[x] < keys.len() && same_key(
                    keys@,
                    i as int,
                    m@[x] as int,
                ),
            forall|x: int, y: int| 0 <= x < y < m@.len() ==> m@[x] < m@[y],
            a < bucket.len() ==> forall|x: int|
                0 <= x < m@.len() ==> (#[trigger] m@[x]) < bucket@[a as int],
            forall|c: int|
                0 <= c < a && (#[trigger] bucket@[c]) >= i && same_key(
                    keys@,
                    i as int,
                    bucket@[c] as int,
                ) ==> holds(m@, bucket@[c] as int),
        decreases bucket.len() - a,
    {
        let j = bucket[a];
        let ghost before = m@;
        let mut pushed: bool = false;
        if j >= i && keys_match(&keys[i], &keys[j]) {
            proof {
                if before.len() == 0 {
                    // the first candidate taken is `i` itself
                    let c0 = choose|c: int| 0 <= c < bucket@.len() && #[trigger] bucket@[c] == i;
                    if c0 < a {
                        assert(same_key(keys@, i as int, bucket@[c0] as int));
                        assert(holds(before, bucket@[c0] as int));
                    } else if c0 > a {
                        assert(bucket@[a as int] < bucket@[c0]);
                    }
                }
            }
            m.push(j);
            pushed = true;
        }
        proof {
            assert forall|c: int|
                0 <= c < a + 1 && (#[trigger] bucket@[c]) >= i && same_key(
                    keys@,
                    i as int,
                    bucket@[c] as int,
                ) implies holds(m@, bucket@[c] as int) by {
                if c < a {
                    assert(holds(before, bucket@[c] as int));
                    let x = choose|x: int| 0 <= x < before.len() && #[trigger] before[x] == bucket@[c];
                    assert(m@[x] == bucket@[c]);
                } else {
                    assert(pushed);
                    assert(m@[m@.len() - 1] == bucket@[c]);
                }
            }
            if a + 1 < bucket.len() {
                assert(bucket@[a as int] < bucket@[a + 1]);
                assert forall|x: int| 0 <= x < m@.len() implies (#[trigger] m@[x]) < bucket@[a + 1] by {
                    if x < before.len() {
                        assert(m@[x] == before[x]);
                    }
                }
            }
        }
        a += 1;
    }
    proof {
        let c0 = choose|c: int| 0 <= c < bucket@.len() && #[trigger] bucket@[c] == i;
        assert(same_key(keys@, i as int, bucket@[c0] as int));
        assert(holds(m@, bucket@[c0] as int));
        assert forall|k: int| i <= k < keys.len() && same_key(keys@, i as int, k) implies exists|
            x: int,
        | 0 <= x < m@.len() && #[trigger] m@[x] == k by {
            assert(has_length(keys@, k, len));
            assert(holds(bucket@, k));
            let c = choose|c: int| 0 <= c < bucket@.len() && #[trigger] bucket@[c] == k;
            assert(holds(m@, bucket@[c] as int));
        }
    }
    m
}

/// The class of the candidate at `i`, which is the first with its key; none
/// if no other candidate has that key.
fn class_of_first(keys: &Vec<Option<DedupeKey>>, bucket: &Vec<usize>, i: usize) -> (r: Option<
    DuplicateGroup,
>)
    requires
        i < keys.len(),
        keys@[i as int] is Some,
        is_bucket(keys@, keys@.len() as int, keys@[i as int]->0.length, bucket@),
        forall|e: int| 0 <= e < i ==> !same_key(keys@, e, i as int),
    ensures
        match r {
            Some(g) => is_class(keys@, g) && g.members@.len() > 0 && g.members@[0] == i
                && g.key.length == keys@[i as int]->0.length,
            None => !has_duplicate(keys@, i as int),
        },
{
    let members = class_from(keys, bucket, i);
    let ghost cls = members@;
    if members.len() >= 2 {
        let key = keys[i].unwrap();
        let group = DuplicateGroup { key, members };
        proof {
            reveal(is_class);
            assert forall|k: int|
                0 <= k < keys@.len() && same_key(keys@, cls[0] as int, k) implies exists|a: int|
                0 <= a < cls.len() && #[trigger] cls[a] == k by {
                if k < i {
                    assert(same_key(keys@, k, i as int));
                }
            }
        }
        Some(group)
    } else {
        proof {
            assert forall|j: int| 0 <= j < keys@.len() && j != i implies !same_key(
                keys@,
                i as int,
                j,
            ) by {
                if same_key(keys@, i as int, j) {
                    if j < i {
                        assert(same_key(keys@, j, i as int));
                    } else {
                        let a = choose|a: int| 0 <= a < cls.len() && #[trigger] cls[a] == j;
                        assert(a != 0);
                    }
                }
            }
        }
        None
    }
}

/// Where a group of files of `length` goes in `groups`: behind every group
/// whose files are at least as long.
fn slot_for(groups: &Vec<DuplicateGroup>, length: u64) -> (p: usize)
    ensures
        p <= groups.len(),
        forall|g: int| 0 <= g < p ==> (#[trigger] groups@[g]).key.length >= length,
        p < groups.len() ==> groups@[p as int].key.length < length,
{
    let mut p: usize = 0;
    while p < groups.len() && groups[p].key.length >= length
        invariant
            p <= groups.len(),
            forall|g: int| 0 <= g < p ==> (#[trigger] groups@[g]).key.length >= length,
        decreases groups.len() - p,
    {
        p += 1;
    }
    p
}

/// A candidate whose key an earlier candidate has is in that one's group.
proof fn lemma_covered_by_earlier(
    keys: Seq<Option<DedupeKey>>,
    groups: Seq<DuplicateGroup>,
    i: int,
    e: int,
)
    requires
        0 <= e < i < keys.len(),
        covers(keys, groups, i),
        same_key(keys, e, i),
    ensures
        is_grouped(keys, groups, i),
{
    assert(has_duplicate(keys, e));
    assert(is_grouped(keys, groups, e));
    let g = choose|g: int|
        0 <= g < groups.len() && same_key(keys, (#[trigger] groups[g]).members@[0] as int, e);
    assert(same_key(keys, groups[g].members@[0] as int, i));
}

/// Putting the class of candidate `i` into its slot keeps the groups what
/// they are meant to be.
proof fn lemma_insert(
    keys: Seq<Option<DedupeKey>>,
    groups: Seq<DuplicateGroup>,
    p: int,
    group: DuplicateGroup,
    i: int,
)
    requires
        0 <= i < keys.len(),
        0 <= p <= groups.len(),
        all_classes(keys, groups),
        in_order(groups),
        firsts_below(groups, i),
        covers(keys, groups, i),
        is_class(keys, group),
        group.members@.len() > 0,
        group.members@[0] == i,
        keys[i] is Some,
        forall|g: int| 0 <= g < p ==> (#[trigger] groups[g]).key.length >= group.key.length,
        p < groups.len() ==> groups[p].key.length < group.key.length,
    ensures
        all_classes(keys, groups.insert(p, group)),
        in_order(groups.insert(p, group)),
        firsts_below(groups.insert(p, group), i + 1),
        covers(keys, groups.insert(p, group), i + 1),
{
    let after = groups.insert(p, group);
    assert forall|g: int| 0 <= g < after.len() implies is_class(keys, #[trigger] after[g])
        && after[g].members@.len() > 0 && after[g].members@[0] < i + 1 by {
        if g < p {
            assert(after[g] == groups[g]);
        } else if g > p {
            assert(after[g] == groups[g - 1]);
        }
    }
    assert forall|g: int, h: int| 0 <= g < h < after.len() implies listed_before(
        #[trigger] after[g],
        #[trigger] after[h],
    ) by {
        let gg = if g < p { g } else { g - 1 };
        let hh = if h < p { h } else { h - 1 };
        if g != p {
            assert(after[g] == groups[gg]);
        }
        if h != p {
            assert(after[h] == groups[hh]);
        }
        if g == p && p < hh {
            assert(listed_before(groups[p], groups[hh]));
        }
    }
    assert forall|k: int| 0 <= k < i + 1 && has_duplicate(keys, k) implies #[trigger] is_grouped(
        keys,
        after,
        k,
    ) by {
        if k < i {
            assert(is_grouped(keys, groups, k));
            let g0 = choose|g: int|
                0 <= g < groups.len() && same_key(
                    keys,
                    (#[trigger] groups[g]).members@[0] as int,
                    k,
                );
            let g1 = if g0 < p { g0 } else { g0 + 1 };
            assert(after[g1] == groups[g0]);
        } else {
            assert(after[p] == group);
            assert(same_key(keys, after[p].members@[0] as int, k));
        }
    }
}

/// Groups the candidates by key. A candidate without a key (its content could
/// not be read) is in no group. The candidates are bucketed by length in a
/// hash map first, and a digest is only held against those of its bucket.
pub fn group_duplicates(keys: &Vec<Option<DedupeKey>>) -> (groups: Vec<DuplicateGroup>)
    ensures
        are_groups_of(keys@, groups@),
{
    broadcast use vstd::std_specs::hash::group_hash_axioms;

    let buckets = key_buckets(keys);
    let mut groups: Vec<DuplicateGroup> = Vec::new();
    let mut i: usize = 0;
    while i < keys.len()
        invariant
            i <= keys.len(),
            are_buckets(keys@, keys@.len() as int, buckets@),
            all_classes(keys@, groups@),
            in_order(groups@),
            firsts_below(groups@, i as int),
            covers(keys@, groups@, i as int),
        decreases keys.len() - i,
    {
        match &keys[i] {
            Some(key) => {
                proof {
                    assert(has_length(keys@, i as int, key.length));
                }
                match buckets.get(&key.length) {
                    Some(bucket) => {
                        if seen_before(keys, bucket, i) {
                            proof {
                                let e = choose|e: int| 0 <= e < i && same_key(keys@, e, i as int);
                                lemma_covered_by_earlier(keys@, groups@, i as int, e);
                            }
                        } else {
                            match class_of_first(keys, bucket, i) {
                                Some(group) => {
                                    let p = slot_for(&groups, group.key.length);
                                    proof {
                                        lemma_insert(keys@, groups@, p as int, group, i as int);
                                    }
                                    groups.insert(p, group);
                                },
                                None => {},
                            }
                        }
                    },
                    None => {
                        assert(false);
                    },
                }
            },
            None => {
                assert(!has_duplicate(keys@, i as int));
            },
        }
        i += 1;
    }
    groups
}

/// The candidate at `i` has a known length that another candidate has too.
pub open spec fn shares_length(lengths: Seq<Option<u64>>, i: int) -> bool {
    lengths[i] is Some && exists|j: int|
        0 <= j < lengths.len() && j != i && #[trigger] lengths[j] == lengths[i]
}

/// The length `l` occurs among the first `upto` candidates.
spec fn occurs(lengths: Seq<Option<u64>>, upto: int, l: u64) -> bool {
    exists|j: int| 0 <= j < upto && #[trigger] lengths[j] == Some(l)
}

/// The length `l` occurs more than once among the first `upto` candidates.
spec fn occurs_twice(lengths: Seq<Option<u64>>, upto: int, l: u64) -> bool {
    exists|j: int, k: int|
        0 <= j < k < upto && #[trigger] lengths[j] == Some(l) && #[trigger] lengths[k] == Some(l)
}

/// The lengths that occur, each with whether it occurs more than once.
fn length_buckets(lengths: &Vec<Option<u64>>) -> (buckets: HashMap<u64, bool>)
    ensures
        forall|l: u64|
            #[trigger] buckets@.contains_key(l) == occurs(lengths@, lengths@.len() as int, l),
        forall|l: u64|
            buckets@.contains_key(l) ==> #[trigger] buckets@[l] == occurs_twice(
                lengths@,
                lengths@.len() as int,
                l,
            ),
{
    broadcast use vstd::std_specs::hash::group_hash_axioms;

    let mut buckets: HashMap<u64, bool> = HashMap::new();
    let mut i: usize = 0;
    while i < lengths.len()
        invariant
            i <= lengths.len(),
            forall|l: u64| #[trigger] buckets@.contains_key(l) == occurs(lengths@, i as int, l),
            forall|l: u64|
                buckets@.contains_key(l) ==> #[trigger] buckets@[l] == occurs_twice(
                    lengths@,
                    i as int,
                    l,
                ),
        decreases lengths.len() - i,
    {
        let ghost before = buckets@;
        match lengths[i] {
            Some(len) => {
                let seen = buckets.contains_key(&len);
                buckets.insert(len, seen);
                proof {
                    assert forall|l: u64| #[trigger]
                        buckets@.contains_key(l) == occurs(lengths@, i + 1, l) by {
                        if occurs(lengths@, i + 1, l) {
                            let j = choose|j: int| 0 <= j < i + 1 && #[trigger] lengths@[j] == Some(l);
                            if j < i {
                                assert(occurs(lengths@, i as int, l));
                            }
                        }
                        if before.contains_key(l) {
                            let j = choose|j: int| 0 <= j < i && #[trigger] lengths@[j] == Some(l);
                            assert(lengths@[j] == Some(l));
                        }
                        if l == len {
                            assert(lengths@[i as int] == Some(l));
                        }
                    }
                    assert forall|l: u64| buckets@.contains_key(l) implies #[trigger] buckets@[l]
                        == occurs_twice(lengths@, i + 1, l) by {
                        if occurs_twice(lengths@, i + 1, l) {
                            let (j, k) = choose|j: int, k: int|
                                0 <= j < k < i + 1 && #[trigger] lengths@[j] == Some(l)
                                    && #[trigger] lengths@[k] == Some(l);
                            if k < i {
                                assert(occurs_twice(lengths@, i as int, l));
                            } else {
                                assert(occurs(lengths@, i as int, l));
                            }
                        }
                        if l == len {
                            if seen {
                                let j = choose|j: int|
                                    0 <= j < i && #[trigger] lengths@[j] == Some(l);
                                assert(lengths@[j] == Some(l) && lengths@[i as int] == Some(l));
                            }
                        } else if before[l] {
                            let (j, k) = choose|j: int, k: int|
                                0 <= j < k < i && #[trigger] lengths@[j] == Some(l)
                                    && #[trigger] lengths@[k] == Some(l);
                            assert(lengths@[j] == Some(l) && lengths@[k] == Some(l));
                        }
                    }
                }
            },
            None => {
                proof {
                    assert forall|l: u64| #[trigger]
                        buckets@.contains_key(l) == occurs(lengths@, i + 1, l) by {
                        if occurs(lengths@, i + 1, l) {
                            let j = choose|j: int| 0 <= j < i + 1 && #[trigger] lengths@[j] == Some(l);
                            assert(occurs(lengths@, i as int, l));
                        }
                        if before.contains_key(l) {
                            let j = choose|j: int| 0 <= j < i && #[trigger] lengths@[j] == Some(l);
                            assert(lengths@[j] == Some(l));
                        }
                    }
                    assert forall|l: u64| buckets@.contains_key(l) implies #[trigger] buckets@[l]
                        == occurs_twice(lengths@, i + 1, l) by {
                        if occurs_twice(lengths@, i + 1, l) {
                            let (j, k) = choose|j: int, k: int|
                                0 <= j < k < i + 1 && #[trigger] lengths@[j] == Some(l)
                                    && #[trigger] lengths@[k] == Some(l);
                            assert(occurs_twice(lengths@, i as int, l));
                        }
                        if before[l] {
                            let (j, k) = choose|j: int, k: int|
                                0 <= j < k < i && #[trigger] lengths@[j] == Some(l)
                                    && #[trigger] lengths@[k] == Some(l);
                            assert(lengths@[j] == Some(l) && lengths@[k] == Some(l));
                        }
                    }
                }
            },
        }
        i += 1;
    }
    buckets
}

/// A length that occurs twice is shared by every candidate that has it, and
/// a shared length occurs twice.
proof fn lemma_shared_is_twice(lengths: Seq<Option<u64>>, i: int)
    requires
        0 <= i < lengths.len(),
        lengths[i] is Some,
    ensures
        shares_length(lengths, i) == occurs_twice(lengths, lengths.len() as int, lengths[i]->0),
{
    let l = lengths[i]->0;
    if shares_length(lengths, i) {
        let j = choose|j: int| 0 <= j < lengths.len() && j != i && #[trigger] lengths[j] == lengths[i];
        if j < i {
            assert(lengths[j] == Some(l) && lengths[i] == Some(l));
        } else {
            assert(lengths[i] == Some(l) && lengths[j] == Some(l));
        }
    }
    if occurs_twice(lengths, lengths.len() as int, l) {
        let (j, k) = choose|j: int, k: int|
            0 <= j < k < lengths.len() && #[trigger] lengths[j] == Some(l) && #[trigger] lengths[k]
                == Some(l);
        if j != i {
            assert(lengths[j] == lengths[i]);
        } else {
            assert(lengths[k] == lengths[i]);
        }
    }
}

/// The first pass over the candidates: the positions of those whose content
/// is worth hashing, in rising order. A candidate is worth hashing when its
/// length is known and another candidate has the same length. The lengths
/// are bucketed in a hash map, in one pass.
pub fn worth_hashing(lengths: &Vec<Option<u64>>) -> (picked: Vec<usize>)
    ensures
        forall|a: int, b: int| 0 <= a < b < picked@.len() ==> picked@[a] < picked@[b],
        forall|a: int|
            0 <= a < picked@.len() ==> (#[trigger] picked@[a]) < lengths@.len() && shares_length(
                lengths@,
                picked@[a] as int,
            ),
        forall|i: int|
            0 <= i < lengths@.len() && shares_length(lengths@, i) ==> exists|a: int|
                0 <= a < picked@.len() && #[trigger] picked@[a] == i,
{
    broadcast use vstd::std_specs::hash::group_hash_axioms;

    let buckets = length_buckets(lengths);
    let mut picked: Vec<usize> = Vec::new();
    let mut i: usize = 0;
    while i < lengths.len()
        invariant
            i <= lengths.len(),
            forall|l: u64|
                #[trigger] buckets@.contains_key(l) == occurs(lengths@, lengths@.len() as int, l),
            forall|l: u64|
                buckets@.contains_key(l) ==> #[trigger] buckets@[l] == occurs_twice(
                    lengths@,
                    lengths@.len() as int,
                    l,
                ),
            forall|a: int, b: int| 0 <= a < b < picked@.len() ==> picked@[a] < picked@[b],
            forall|a: int|
                0 <= a < picked@.len() ==> (#[trigger] picked@[a]) < i && shares_length(
                    lengths@,
                    picked@[a] as int,
                ),
            forall|k: int|
                0 <= k < i && shares_length(lengths@, k) ==> exists|a: int|
                    0 <= a < picked@.len() && #[trigger] picked@[a] == k,
        decreases lengths.len() - i,
    {
        let shared = match lengths[i] {
            Some(len) => {
                proof {
                    lemma_shared_is_twice(lengths@, i as int);
                    assert(lengths@[i as int] == Some(len));
                    assert(occurs(lengths@, lengths@.len() as int, len));
                }
                match buckets.get(&len) {
                    Some(twice) => *twice,
                    None => false,
                }
            },
            None => false,
        };
        assert(shared == shares_length(lengths@, i as int));
        if shared {
            let ghost before = picked@;
            picked.push(i);
            assert forall|k: int| 0 <= k < i + 1 && shares_length(lengths@, k) implies exists|
                a: int,
            | 0 <= a < picked@.len() && #[trigger] picked@[a] == k by {
                if k < i {
                    let a = choose|a: int| 0 <= a < before.len() && #[trigger] before[a] == k;
                    assert(picked@[a] == k);
                } else {
                    assert(picked@[picked@.len() - 1] == k);
                }
            }
        }
        i += 1;
    }
    picked
}

/// The first pass loses nothing: where every key carries its candidate's
/// length, a candidate with a duplicate shares its length with another one,
/// so it is among those worth hashing.
pub proof fn lemma_first_pass_keeps_duplicates(
    lengths: Seq<Option<u64>>,
    keys: Seq<Option<DedupeKey>>,
    i: int,
)
    requires
        lengths.len() == keys.len(),
        forall|k: int|
            0 <= k < keys.len() && (#[trigger] keys[k]) is Some ==> lengths[k] == Some(
                keys[k]->0.length,
            ),
        0 <= i < keys.len(),
        has_duplicate(keys, i),
    ensures
        shares_length(lengths, i),
{
    let j = choose|j: int| 0 <= j < keys.len() && j != i && same_key(keys, i, j);
    assert(keys[i] is Some);
    assert(keys[j] is Some);
    assert(lengths[j] == lengths[i]);
}

/// A candidate is in at most one group, and two groups never have the same
/// key.
pub proof fn lemma_groups_are_disjoint(
    keys: Seq<Option<DedupeKey>>,
    groups: Seq<DuplicateGroup>,
    g: int,
    h: int,
    a: int,
    b: int,
)
    requires
        are_groups_of(keys, groups),
        0 <= g < groups.len(),
        0 <= h < groups.len(),
        g != h,
        0 <= a < groups[g].members@.len(),
        0 <= b < groups[h].members@.len(),
    ensures
        groups[g].members@[a] != groups[h].members@[b],
        !same_key(keys, groups[g].members@[0] as int, groups[h].members@[0] as int),
{
    reveal(is_class);
    let mg = groups[g].members@;
    let mh = groups[h].members@;
    assert(is_class(keys, groups[g]));
    assert(is_class(keys, groups[h]));
    if g < h {
        assert(listed_before(groups[g], groups[h]));
    } else {
        assert(listed_before(groups[h], groups[g]));
    }
    if same_key(keys, mg[0] as int, mh[0] as int) {
        // each class holds the other's first member, so the two firsts agree
        assert(same_key(keys, mh[0] as int, mg[0] as int));
        let x = choose|x: int| 0 <= x < mg.len() && #[trigger] mg[x] == mh[0];
        let y = choose|y: int| 0 <= y < mh.len() && #[trigger] mh[y] == mg[0];
        assert(mg[0] <= mg[x]);
        assert(mh[0] <= mh[y]);
        assert(false);
    }
    if mg[a] == mh[b] {
        assert(same_key(keys, mg[0] as int, mg[a] as int));
        assert(same_key(keys, mh[0] as int, mh[b] as int));
        assert(false);
    }
}

/// Two lists that stand in one strict order and hold the same things are
/// equal.
proof fn lemma_sorted_same_set(a: Seq<int>, b: Seq<int>, before: spec_fn(int, int) -> bool)
    requires
        forall|i: int, j: int| 0 <= i < j < a.len() ==> before(#[trigger] a[i], #[trigger] a[j]),
        forall|i: int, j: int| 0 <= i < j < b.len() ==> before(#[trigger] b[i], #[trigger] b[j]),
        forall|x: int, y: int| !(#[trigger] before(x, y) && before(y, x)),
        forall|i: int| 0 <= i < a.len() ==> b.contains(#[trigger] a[i]),
        forall|j: int| 0 <= j < b.len() ==> a.contains(#[trigger] b[j]),
    ensures
        a == b,
    decreases a.len(),
{
    if a.len() == 0 {
        if b.len() > 0 {
            assert(a.contains(b[0]));
        }
        assert(a =~= b);
    } else {
        assert(b.contains(a[0]));
        let la = a.last();
        let lb = b.last();
        assert(b.contains(a[a.len() - 1]));
        assert(a.contains(b[b.len() - 1]));
        let j = choose|j: int| 0 <= j < b.len() && b[j] == la;
        let i = choose|i: int| 0 <= i < a.len() && a[i] == lb;
        if j < b.len() - 1 {
            assert(before(b[j], b[b.len() - 1]));
        }
        if i < a.len() - 1 {
            assert(before(a[i], a[a.len() - 1]));
        }
        assert(la == lb);
        let fa = a.drop_last();
        let fb = b.drop_last();
        assert forall|x: int| 0 <= x < fa.len() implies fb.contains(#[trigger] fa[x]) by {
            assert(before(a[x], a[a.len() - 1]));
            assert(b.contains(a[x]));
            let y = choose|y: int| 0 <= y < b.len() && b[y] == a[x];
            assert(y < b.len() - 1);
            assert(fb[y] == fa[x]);
        }
        assert forall|y: int| 0 <= y < fb.len() implies fa.contains(#[trigger] fb[y]) by {
            assert(before(b[y], b[b.len() - 1]));
            assert(a.contains(b[y]));
            let x = choose|x: int| 0 <= x < a.len() && a[x] == b[y];
            assert(x < a.len() - 1);
            assert(fa[x] == fb[y]);
        }
        assert forall|x: int, y: int| 0 <= x < y < fa.len() implies before(
            #[trigger] fa[x],
            #[trigger] fa[y],
        ) by {
            assert(before(a[x], a[y]));
        }
        assert forall|x: int, y: int| 0 <= x < y < fb.len() implies before(
            #[trigger] fb[x],
            #[trigger] fb[y],
        ) by {
            assert(before(b[x], b[y]));
        }
        lemma_sorted_same_set(fa, fb, before);
        assert(a =~= fa.push(la));
        assert(b =~= fb.push(lb));
    }
}

/// The candidate at `x` comes before the one at `y` in the order of groups.
spec fn first_before(keys: Seq<Option<DedupeKey>>, x: int, y: int) -> bool {
    keys[x]->0.length > keys[y]->0.length || (keys[x]->0.length == keys[y]->0.length && x < y)
}

/// The first members of the groups, in the order of the groups.
spec fn firsts_of(groups: Seq<DuplicateGroup>) -> Seq<int> {
    Seq::new(groups.len(), |g: int| groups[g].members@[0] as int)
}

/// The first member of a group of one list is the first member of a group of
/// every other list of groups of the same candidates.
proof fn lemma_first_is_shared(
    keys: Seq<Option<DedupeKey>>,
    g1: Seq<DuplicateGroup>,
    g2: Seq<DuplicateGroup>,
    g: int,
)
    requires
        are_groups_of(keys, g1),
        are_groups_of(keys, g2),
        0 <= g < g1.len(),
    ensures
        firsts_of(g2).contains(firsts_of(g1)[g]),
{
    reveal(is_class);
    assert(is_class(keys, g1[g]));
    let m = g1[g].members@;
    let x = m[0] as int;
    assert(same_key(keys, x, m[1] as int));
    assert(m[0] < m[1]);
    assert(has_duplicate(keys, x));
    assert(is_grouped(keys, g2, x));
    let h = choose|h: int|
        0 <= h < g2.len() && same_key(keys, (#[trigger] g2[h]).members@[0] as int, x);
    assert(is_class(keys, g2[h]));
    let n = g2[h].members@;
    let y = n[0] as int;
    // x is in the class of y, and y in the class of x; each is the least of its class
    let b = choose|b: int| 0 <= b < n.len() && #[trigger] n[b] == x;
    assert(n[0] <= n[b]);
    assert(same_key(keys, x, y));
    let a = choose|a: int| 0 <= a < m.len() && #[trigger] m[a] == y;
    assert(m[0] <= m[a]);
    assert(x == y);
    assert(firsts_of(g2)[h] == x);
}

/// The groups of a list of candidates are theirs alone: two lists that both
/// are the groups of the candidates have the same groups in the same order,
/// each with the same key and the same members.
pub proof fn lemma_groups_are_unique(
    keys: Seq<Option<DedupeKey>>,
    g1: Seq<DuplicateGroup>,
    g2: Seq<DuplicateGroup>,
)
    requires
        are_groups_of(keys, g1),
        are_groups_of(keys, g2),
    ensures
        g1.len() == g2.len(),
        forall|g: int|
            0 <= g < g1.len() ==> {
                &&& (#[trigger] g1[g]).members@ == g2[g].members@
                &&& g1[g].key.length == g2[g].key.length
                &&& g1[g].key.digest@ == g2[g].key.digest@
            },
{
    let f1 = firsts_of(g1);
    let f2 = firsts_of(g2);
    let before = |x: int, y: int| first_before(keys, x, y);
    assert forall|i: int, j: int| 0 <= i < j < f1.len() implies before(
        #[trigger] f1[i],
        #[trigger] f1[j],
    ) by {
        reveal(is_class);
        assert(is_class(keys, g1[i]) && is_class(keys, g1[j]));
        assert(listed_before(g1[i], g1[j]));
    }
    assert forall|i: int, j: int| 0 <= i < j < f2.len() implies before(
        #[trigger] f2[i],
        #[trigger] f2[j],
    ) by {
        reveal(is_class);
        assert(is_class(keys, g2[i]) && is_class(keys, g2[j]));
        assert(listed_before(g2[i], g2[j]));
    }
    assert forall|i: int| 0 <= i < f1.len() implies f2.contains(#[trigger] f1[i]) by {
        lemma_first_is_shared(keys, g1, g2, i);
    }
    assert forall|j: int| 0 <= j < f2.len() implies f1.contains(#[trigger] f2[j]) by {
        lemma_first_is_shared(keys, g2, g1, j);
    }
    lemma_sorted_same_set(f1, f2, before);
    assert(f1.len() == g1.len() && f2.len() == g2.len());
    assert forall|g: int| 0 <= g < g1.len() implies {
        &&& (#[trigger] g1[g]).members@ == g2[g].members@
        &&& g1[g].key.length == g2[g].key.length
        &&& g1[g].key.digest@ == g2[g].key.digest@
    } by {
        reveal(is_class);
        assert(is_class(keys, g1[g]));
        assert(is_class(keys, g2[g]));
        assert(f1[g] == f2[g]);
        let m = g1[g].members@;
        let n = g2[g].members@;
        assert(m[0] == n[0]);
        let a = Seq::new(m.len(), |k: int| m[k] as int);
        let b = Seq::new(n.len(), |k: int| n[k] as int);
        let less = |x: int, y: int| x < y;
        assert forall|k: int| 0 <= k < a.len() implies b.contains(#[trigger] a[k]) by {
            assert(same_key(keys, m[0] as int, m[k] as int));
            let c = choose|c: int| 0 <= c < n.len() && #[trigger] n[c] == m[k];
            assert(b[c] == a[k]);
        }
        assert forall|k: int| 0 <= k < b.len() implies a.contains(#[trigger] b[k]) by {
            assert(same_key(keys, n[0] as int, n[k] as int));
            let c = choose|c: int| 0 <= c < m.len() && #[trigger] m[c] == n[k];
            assert(a[c] == b[k]);
        }
        assert forall|i: int, j: int| 0 <= i < j < a.len() implies less(
            #[trigger] a[i],
            #[trigger] a[j],
        ) by {
            assert(m[i] < m[j]);
        }
        assert forall|i: int, j: int| 0 <= i < j < b.len() implies less(
            #[trigger] b[i],
            #[trigger] b[j],
        ) by {
            assert(n[i] < n[j]);
        }
        lemma_sorted_same_set(a, b, less);
        assert(m.len() == n.len());
        assert forall|k: int| 0 <= k < m.len() implies m[k] == n[k] by {
            assert(a[k] == b[k]);
        }
        assert(m =~= n);
    }
}

/// The paths at the given positions.
pub open spec fn paths_at(paths: Seq<Seq<char>>, members: Seq<usize>) -> Seq<Seq<char>> {
    Seq::new(members.len(), |a: int| paths[members[a] as int])
}

/// A duplicate group as a resolution session takes it: the shared length
/// and the members' paths.
pub open spec fn session_group_of(paths: Seq<Seq<char>>, g: DuplicateGroup) -> GroupView {
    GroupView { size: g.key.length, members: paths_at(paths, g.members@) }
}

/// The groups as a resolution session takes them.
pub open spec fn session_groups_of(paths: Seq<Seq<char>>, groups: Seq<DuplicateGroup>) -> Seq<
    GroupView,
> {
    Seq::new(groups.len(), |g: int| session_group_of(paths, groups[g]))
}

/// Every member of every group is a position in a list of `n` candidates.
pub open spec fn members_within(groups: Seq<DuplicateGroup>, n: nat) -> bool {
    forall|g: int, a: int|
        0 <= g < groups.len() && 0 <= a < groups[g].members@.len() ==> (
        #[trigger] groups[g].members@[a]) < n
}

/// The groups of a list of candidates name positions in that list only.
pub proof fn lemma_groups_within(keys: Seq<Option<DedupeKey>>, groups: Seq<DuplicateGroup>)
    requires
        are_groups_of(keys, groups),
    ensures
        members_within(groups, keys.len()),
{
    reveal(is_class);
    assert forall|g: int, a: int|
        0 <= g < groups.len() && 0 <= a < groups[g].members@.len() implies (
    #[trigger] groups[g].members@[a]) < keys.len() by {
        assert(is_class(keys, groups[g]));
    }
}

/// Turns groups of positions into groups of paths, for a resolution session.
/// `paths` are the candidates' paths, in the order of their keys.
pub fn session_groups(paths: &Vec<String>, groups: &Vec<DuplicateGroup>) -> (r: Vec<Group>)
    requires
        members_within(groups@, paths@.len()),
    ensures
        group_views(r@) == session_groups_of(texts(paths@), groups@),
{
    let mut r: Vec<Group> = Vec::new();
    let mut g: usize = 0;
    while g < groups.len()
        invariant
            g <= groups.len(),
            members_within(groups@, paths@.len()),
            r@.len() == g,
            forall|h: int|
                0 <= h < g ==> (#[trigger] r@[h])@ == session_group_of(texts(paths@), groups@[h]),
        decreases groups.len() - g,
    {
        let group = &groups[g];
        let mut members: Vec<String> = Vec::new();
        let mut a: usize = 0;
        while a < group.members.len()
            invariant
                a <= group.members.len(),
                g < groups.len(),
                group == groups@[g as int],
                members_within(groups@, paths@.len()),
                members@.len() == a,
                forall|b: int|
                    0 <= b < a ==> (#[trigger] members@[b])@ == paths@[group.members@[b] as int]@,
            decreases group.members.len() - a,
        {
            assert(groups@[g as int].members@[a as int] < paths@.len());
            members.push(paths[group.members[a]].clone());
            a += 1;
        }
        assert(texts(members@) =~= paths_at(texts(paths@), group.members@));
        r.push(Group { size: group.key.length, members });
        g += 1;
    }
    assert(group_views(r@) =~= session_groups_of(texts(paths@), groups@));
    r
}

/// Groups the candidates and hands the groups over as a session takes them.
/// `paths` and `keys` speak of the same candidates, in one order.
pub fn duplicate_groups(paths: &Vec<String>, keys: &Vec<Option<DedupeKey>>) -> (r: Option<
    Vec<Group>,
>)
    ensures
        paths@.len() != keys@.len() ==> r is None,
        paths@.len() == keys@.len() ==> r is Some && exists|groups: Seq<DuplicateGroup>|
            #![auto]
            are_groups_of(keys@, groups) && group_views(r->0@) == session_groups_of(
                texts(paths@),
                groups,
            ),
{
    if paths.len() != keys.len() {
        return None;
    }
    let groups = group_duplicates(keys);
    proof {
        lemma_groups_within(keys@, groups@);
    }
    Some(session_groups(paths, &groups))
}

} // verus!
