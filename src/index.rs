//! The duplicate index: fingerprinted paths grouped by digest.

use std::collections::HashMap;

use vstd::prelude::*;
use vstd::std_specs::hash::group_hash_axioms;
use crate::digest::{digest_of, fingerprint, lemma_hex_injective, sha1_of};

verus! {

/// What the hashing pool made of one file: its digest, or the reason it was
/// left out.
pub enum HashOutcome {
    Hashed { digest: String, path: String },
    Skipped { path: String, reason: String },
}

/// A (digest, path) pair as plain sequences of characters.
pub type PairView = (Seq<char>, Seq<char>);

/// A group of the index: a digest and the paths that produced it.
pub type GroupView = (Seq<char>, Seq<Seq<char>>);

/// The pairs held by a vector of (digest, path) strings.
pub open spec fn pairs_view(v: Seq<(String, String)>) -> Seq<PairView> {
    v.map_values(|p: (String, String)| (p.0@, p.1@))
}

/// The (digest, path) pairs of the hashed outcomes, in their order; skipped
/// files leave no pair.
pub open spec fn hashed_pairs(outcomes: Seq<HashOutcome>) -> Seq<PairView>
    decreases outcomes.len(),
{
    if outcomes.len() == 0 {
        seq![]
    } else {
        let rest = hashed_pairs(outcomes.drop_last());
        match outcomes.last() {
            HashOutcome::Hashed { digest, path } => rest.push((digest@, path@)),
            HashOutcome::Skipped { .. } => rest,
        }
    }
}

/// Fingerprints one file from the outcome of reading it: a file that was
/// read is hashed, one that could not be read is skipped with the reason.
pub fn hash_entry(path: String, content: Result<Vec<u8>, String>) -> (r: HashOutcome)
    ensures
        match content {
            Ok(c) => match r {
                HashOutcome::Hashed { digest, path: p } => digest@ == digest_of(c@) && digest@.len()
                    == 40 && p == path,
                HashOutcome::Skipped { .. } => false,
            },
            Err(e) => r == (HashOutcome::Skipped { path, reason: e }),
        },
{
    match content {
        Ok(c) => {
            let digest = fingerprint(c.as_slice());
            HashOutcome::Hashed { digest, path }
        },
        Err(e) => HashOutcome::Skipped { path, reason: e },
    }
}

/// Keeps the (digest, path) pair of every hashed file, in order, and drops
/// the skipped ones.
pub fn successful_pairs(outcomes: &Vec<HashOutcome>) -> (r: Vec<(String, String)>)
    ensures
        pairs_view(r@) == hashed_pairs(outcomes@),
{
    let mut r: Vec<(String, String)> = Vec::new();
    let mut i: usize = 0;
    while i < outcomes.len()
        invariant
            i <= outcomes@.len(),
            pairs_view(r@) == hashed_pairs(outcomes@.subrange(0, i as int)),
        decreases outcomes@.len() - i,
    {
        proof {
            assert(outcomes@.subrange(0, i + 1).drop_last() =~= outcomes@.subrange(0, i as int));
        }
        match &outcomes[i] {
            HashOutcome::Hashed { digest, path } => {
                r.push((digest.clone(), path.clone()));
                assert(pairs_view(r@) =~= hashed_pairs(outcomes@.subrange(0, i + 1)));
            },
            HashOutcome::Skipped { .. } => {},
        }
        i = i + 1;
    }
    assert(outcomes@.subrange(0, outcomes@.len() as int) =~= outcomes@);
    r
}

/// The paths paired with digest `d`, in the order of the pairs.
pub open spec fn paths_with(pairs: Seq<PairView>, d: Seq<char>) -> Seq<Seq<char>>
    decreases pairs.len(),
{
    if pairs.len() == 0 {
        seq![]
    } else {
        let rest = paths_with(pairs.drop_last(), d);
        if pairs.last().0 == d {
            rest.push(pairs.last().1)
        } else {
            rest
        }
    }
}

/// The distinct digests of the pairs, in the order of their first pair.
pub open spec fn first_seen(pairs: Seq<PairView>) -> Seq<Seq<char>>
    decreases pairs.len(),
{
    if pairs.len() == 0 {
        seq![]
    } else {
        let rest = first_seen(pairs.drop_last());
        if rest.contains(pairs.last().0) {
            rest
        } else {
            rest.push(pairs.last().0)
        }
    }
}

/// The groups that the pairs make: one per distinct digest, in the order
/// of first appearance, each holding every path of that digest in the
/// order of the pairs.
pub open spec fn index_of(pairs: Seq<PairView>) -> Seq<GroupView> {
    first_seen(pairs).map_values(|d: Seq<char>| (d, paths_with(pairs, d)))
}

/// The paths held by a vector of strings.
pub open spec fn paths_view(ps: Seq<String>) -> Seq<Seq<char>> {
    ps.map_values(|p: String| p@)
}

/// A group of the duplicate index: a digest and the paths whose content
/// produced it. The first path is the one a deduplication keeps.
pub struct DuplicateGroup {
    pub digest: String,
    pub paths: Vec<String>,
}

impl View for DuplicateGroup {
    type V = GroupView;

    open spec fn view(&self) -> GroupView {
        (self.digest@, paths_view(self.paths@))
    }
}

/// The views of a sequence of groups.
pub open spec fn groups_view(gs: Seq<DuplicateGroup>) -> Seq<GroupView> {
    gs.map_values(|g: DuplicateGroup| g@)
}

/// The duplicate index: for each digest met, the paths that produced it.
/// It is only built by grouping (digest, path) pairs.
///
/// The groups are held in a vector, in the order in which their digest was
/// first met, rather than in a map keyed by the digest string: a hash map
/// with string keys has no specification that proofs can use (only integer
/// keys are modelled), and its walk order changes from process to process.
/// Keeping the groups in order makes which path a group retains a stated
/// fact. Grouping finds a digest's group through a hash map keyed by a
/// 64-bit integer computed from the digest's first characters, which holds
/// group positions only.
pub struct DuplicateIndex {
    groups: Vec<DuplicateGroup>,
}

impl View for DuplicateIndex {
    type V = Seq<GroupView>;

    closed spec fn view(&self) -> Seq<GroupView> {
        groups_view(self.groups@)
    }
}

/// Where digest `d` stands among the groups, if it does.
fn find_group(groups: &Vec<DuplicateGroup>, d: &String) -> (r: Option<usize>)
    ensures
        match r {
            Some(j) => j < groups@.len() && groups@[j as int].digest@ == d@,
            None => forall|j: int| 0 <= j < groups@.len() ==> groups@[j].digest@ != d@,
        },
{
    let mut j: usize = 0;
    while j < groups.len()
        invariant
            j <= groups@.len(),
            forall|k: int| 0 <= k < j ==> groups@[k].digest@ != d@,
        decreases groups@.len() - j,
    {
        if groups[j].digest == *d {
            return Some(j);
        }
        j = j + 1;
    }
    None
}

/// A bucket key over a sequence of characters.
spec fn key_chars(s: Seq<char>) -> u64
    decreases s.len(),
{
    if s.len() == 0 {
        0
    } else {
        key_chars(s.drop_last()).wrapping_mul(31).wrapping_add(s.last() as u64)
    }
}

/// The bucket of a digest: a key over its first sixteen characters.
spec fn key_of(s: Seq<char>) -> u64 {
    key_chars(s.take(if s.len() < 16 { s.len() as int } else { 16 }))
}

fn digest_key(d: &String) -> (r: u64)
    ensures
        r == key_of(d@),
{
    let s = d.as_str();
    let n = s.unicode_len();
    let m: usize = if n < 16 { n } else { 16 };
    let mut k: u64 = 0;
    let mut i: usize = 0;
    assert(s@.take(0) =~= Seq::<char>::empty());
    while i < m
        invariant
            s@ == d@,
            n == s@.len(),
            m == if n < 16 { n } else { 16 },
            i <= m,
            k == key_chars(s@.take(i as int)),
        decreases m - i,
    {
        let c = s.get_char(i);
        proof {
            assert(s@.take(i + 1).drop_last() =~= s@.take(i as int));
            assert(s@.take(i + 1).last() == c);
        }
        k = k.wrapping_mul(31).wrapping_add(c as u64);
        i = i + 1;
    }
    k
}

/// Each group stands in the bucket of its digest, and buckets hold only
/// positions of groups.
spec fn buckets_ok(buckets: Map<u64, Vec<usize>>, groups: Seq<DuplicateGroup>) -> bool {
    &&& forall|j: int|
        0 <= j < groups.len() ==> buckets.contains_key(key_of(#[trigger] groups[j].digest@))
            && buckets[key_of(groups[j].digest@)]@.contains(j as usize)
    &&& forall|k: u64, t: int|
        buckets.contains_key(k) && 0 <= t < buckets[k]@.len() ==> #[trigger] buckets[k]@[t]
            < groups.len()
}

/// Where digest `d`, whose key is `key`, stands among the groups, looking
/// only in its bucket.
fn find_in_buckets(
    groups: &Vec<DuplicateGroup>,
    buckets: &HashMap<u64, Vec<usize>>,
    d: &String,
    key: u64,
) -> (r: Option<usize>)
    requires
        buckets_ok(buckets@, groups@),
        key == key_of(d@),
    ensures
        match r {
            Some(j) => j < groups@.len() && groups@[j as int].digest@ == d@,
            None => forall|j: int| 0 <= j < groups@.len() ==> groups@[j].digest@ != d@,
        },
{
    broadcast use group_hash_axioms;

    let count = groups.len();
    match buckets.get(&key) {
        None => {
            assert forall|j: int| 0 <= j < groups@.len() implies groups@[j].digest@ != d@ by {
                if groups@[j].digest@ == d@ {
                    assert(buckets@.contains_key(key_of(groups@[j].digest@)));
                }
            }
            None
        },
        Some(bucket) => {
            let mut t: usize = 0;
            while t < bucket.len()
                invariant
                    buckets_ok(buckets@, groups@),
                    buckets@.contains_key(key),
                    buckets@[key] == *bucket,
                    t <= bucket@.len(),
                    forall|u: int| 0 <= u < t ==> groups@[bucket@[u] as int].digest@ != d@,
                decreases bucket@.len() - t,
            {
                let j = bucket[t];
                assert(buckets@[key]@[t as int] < groups@.len());
                if groups[j].digest == *d {
                    return Some(j);
                }
                t = t + 1;
            }
            assert forall|j: int| 0 <= j < groups@.len() implies groups@[j].digest@ != d@ by {
                if groups@[j].digest@ == d@ {
                    assert(key_of(groups@[j].digest@) == key);
                    assert(buckets@[key]@.contains(j as usize));
                    assert(bucket@.contains(j as usize));
                    assert(j < count && (j as usize) as int == j);
                    let u = choose|u: int| 0 <= u < bucket@.len() && bucket@[u] == j as usize;
                    assert(groups@[bucket@[u] as int].digest@ != d@);
                }
            }
            None
        },
    }
}

proof fn lemma_unseen_has_no_paths(pairs: Seq<PairView>, d: Seq<char>)
    requires
        !first_seen(pairs).contains(d),
    ensures
        paths_with(pairs, d) == Seq::<Seq<char>>::empty(),
    decreases pairs.len(),
{
    if pairs.len() > 0 {
        let rest = first_seen(pairs.drop_last());
        if rest.contains(pairs.last().0) {
            assert(pairs.last().0 != d);
        } else {
            assert(first_seen(pairs) == rest.push(pairs.last().0));
            assert(first_seen(pairs)[rest.len() as int] == pairs.last().0);
            assert forall|k: int| 0 <= k < rest.len() implies rest[k] != d by {
                assert(first_seen(pairs)[k] == rest[k]);
            }
        }
        lemma_unseen_has_no_paths(pairs.drop_last(), d);
    }
}

/// No digest is seen first twice.
pub proof fn lemma_first_seen_unique(pairs: Seq<PairView>)
    ensures
        first_seen(pairs).no_duplicates(),
    decreases pairs.len(),
{
    if pairs.len() > 0 {
        lemma_first_seen_unique(pairs.drop_last());
        let rest = first_seen(pairs.drop_last());
        if !rest.contains(pairs.last().0) {
            let fs = first_seen(pairs);
            assert forall|a: int, b: int| 0 <= a < b < fs.len() implies fs[a] != fs[b] by {
                if b == rest.len() {
                    assert(fs[a] == rest[a]);
                }
            }
        }
    }
}

/// Path `p` stands in the group of digest `d`.
pub open spec fn in_group(index: Seq<GroupView>, d: Seq<char>, p: Seq<char>) -> bool {
    exists|k: int| 0 <= k < index.len() && index[k].0 == d && #[trigger] index[k].1.contains(p)
}

/// Paths `p` and `q` stand in one group.
pub open spec fn same_group(index: Seq<GroupView>, p: Seq<char>, q: Seq<char>) -> bool {
    exists|k: int|
        0 <= k < index.len() && #[trigger] index[k].1.contains(p) && index[k].1.contains(q)
}

proof fn lemma_paths_with_members(pairs: Seq<PairView>, d: Seq<char>)
    ensures
        forall|p: Seq<char>| #[trigger] paths_with(pairs, d).contains(p) == pairs.contains((d, p)),
    decreases pairs.len(),
{
    if pairs.len() > 0 {
        let pre = pairs.drop_last();
        lemma_paths_with_members(pre, d);
        let rest = paths_with(pre, d);
        assert forall|p: Seq<char>| #[trigger] paths_with(pairs, d).contains(p) == pairs.contains((d, p)) by {
            if pairs.contains((d, p)) {
                let i = choose|i: int| 0 <= i < pairs.len() && pairs[i] == (d, p);
                if i < pre.len() {
                    assert(pre[i] == pairs[i]);
                    assert(pre.contains((d, p)));
                    assert(rest.contains(p));
                    let j = choose|j: int| 0 <= j < rest.len() && rest[j] == p;
                    if pairs.last().0 == d {
                        assert(paths_with(pairs, d) == rest.push(pairs.last().1));
                        assert(paths_with(pairs, d)[j] == p);
                    }
                } else {
                    assert(paths_with(pairs, d) == rest.push(p));
                    assert(paths_with(pairs, d)[rest.len() as int] == p);
                }
            }
            if paths_with(pairs, d).contains(p) {
                let j = choose|j: int| 0 <= j < paths_with(pairs, d).len() && paths_with(pairs, d)[j] == p;
                if j < rest.len() {
                    assert(rest[j] == p);
                    assert(rest.contains(p));
                    let i = choose|i: int| 0 <= i < pre.len() && pre[i] == (d, p);
                    assert(pairs[i] == (d, p));
                } else {
                    assert(pairs[pre.len() as int] == (d, p));
                }
            }
        }
    }
}

proof fn lemma_first_seen_members(pairs: Seq<PairView>)
    ensures
        forall|d: Seq<char>|
            #[trigger] first_seen(pairs).contains(d) == exists|i: int|
                0 <= i < pairs.len() && #[trigger] pairs[i].0 == d,
    decreases pairs.len(),
{
    if pairs.len() > 0 {
        let pre = pairs.drop_last();
        lemma_first_seen_members(pre);
        let rest = first_seen(pre);
        let last = pre.len() as int;
        assert forall|d: Seq<char>|
            #[trigger] first_seen(pairs).contains(d) == exists|i: int|
                0 <= i < pairs.len() && #[trigger] pairs[i].0 == d by {
            let fs = first_seen(pairs);
            if rest.contains(pairs.last().0) {
                assert(fs == rest);
            } else {
                assert(fs == rest.push(pairs.last().0));
            }
            if exists|i: int| 0 <= i < pairs.len() && #[trigger] pairs[i].0 == d {
                let i = choose|i: int| 0 <= i < pairs.len() && #[trigger] pairs[i].0 == d;
                if i < last {
                    assert(pre[i] == pairs[i]);
                    assert(rest.contains(d));
                    let j = choose|j: int| 0 <= j < rest.len() && rest[j] == d;
                    if !rest.contains(pairs.last().0) {
                        assert(fs[j] == d);
                    }
                } else if !rest.contains(d) {
                    assert(fs[rest.len() as int] == d);
                }
            }
            if fs.contains(d) {
                let j = choose|j: int| 0 <= j < fs.len() && fs[j] == d;
                if j < rest.len() {
                    assert(rest[j] == d);
                    assert(rest.contains(d));
                    let i = choose|i: int| 0 <= i < pre.len() && #[trigger] pre[i].0 == d;
                    assert(pairs[i] == pre[i]);
                } else {
                    assert(pairs[last].0 == d);
                }
            }
        }
    }
}

/// The index holds exactly the given pairs: path `p` stands in the group
/// of digest `d` if and only if (`d`, `p`) is one of the pairs.
pub proof fn lemma_index_holds_pairs(pairs: Seq<PairView>)
    ensures
        forall|d: Seq<char>, p: Seq<char>|
            #[trigger] in_group(index_of(pairs), d, p) == pairs.contains((d, p)),
{
    let index = index_of(pairs);
    lemma_first_seen_members(pairs);
    assert forall|d: Seq<char>, p: Seq<char>|
        #[trigger] in_group(index, d, p) == pairs.contains((d, p)) by {
        lemma_paths_with_members(pairs, d);
        if pairs.contains((d, p)) {
            let i = choose|i: int| 0 <= i < pairs.len() && pairs[i] == (d, p);
            assert(pairs[i].0 == d);
            assert(first_seen(pairs).contains(d));
            let k = choose|k: int| 0 <= k < first_seen(pairs).len() && first_seen(pairs)[k] == d;
            assert(index[k] == (d, paths_with(pairs, d)));
            assert(index[k].1.contains(p));
        }
        if in_group(index, d, p) {
            let k = choose|k: int| 0 <= k < index.len() && index[k].0 == d && #[trigger] index[k].1.contains(p);
            assert(index[k] == (d, paths_with(pairs, d)));
        }
    }
}

/// Grouping depends on which pairs there are, not on their order: two
/// runs that fingerprint the same files, in any order, give groups with
/// the same members.
pub proof fn lemma_membership_ignores_order(first: Seq<PairView>, second: Seq<PairView>)
    requires
        forall|x: PairView| first.contains(x) == second.contains(x),
    ensures
        forall|d: Seq<char>, p: Seq<char>|
            #[trigger] in_group(index_of(first), d, p) == in_group(index_of(second), d, p),
{
    lemma_index_holds_pairs(first);
    lemma_index_holds_pairs(second);
    assert forall|d: Seq<char>, p: Seq<char>|
        #[trigger] in_group(index_of(first), d, p) == in_group(index_of(second), d, p) by {
        assert(first.contains((d, p)) == second.contains((d, p)));
    }
}

/// Files are grouped by content. Where each pair holds the fingerprint of
/// its file's content and no path is fingerprinted twice, two files stand
/// in one group if and only if their contents have the same SHA-1 digest:
/// equal contents always share a group, and contents whose digests differ
/// never do.
pub proof fn lemma_grouped_by_content(pairs: Seq<PairView>, contents: Seq<Seq<u8>>)
    requires
        contents.len() == pairs.len(),
        forall|i: int| 0 <= i < pairs.len() ==> #[trigger] pairs[i].0 == digest_of(contents[i]),
        forall|i: int, j: int|
            0 <= i < j < pairs.len() ==> #[trigger] pairs[i].1 != #[trigger] pairs[j].1,
    ensures
        forall|i: int, j: int|
            0 <= i < pairs.len() && 0 <= j < pairs.len() ==> same_group(
                index_of(pairs),
                #[trigger] pairs[i].1,
                #[trigger] pairs[j].1,
            ) == (sha1_of(contents[i]) == sha1_of(contents[j])),
{
    let index = index_of(pairs);
    lemma_index_holds_pairs(pairs);
    lemma_first_seen_unique(pairs);
    assert forall|i: int, j: int| 0 <= i < pairs.len() && 0 <= j < pairs.len() implies same_group(
        index,
        #[trigger] pairs[i].1,
        #[trigger] pairs[j].1,
    ) == (sha1_of(contents[i]) == sha1_of(contents[j])) by {
        let (di, pi) = pairs[i];
        let (dj, pj) = pairs[j];
        assert(pairs.contains((di, pi)));
        assert(pairs.contains((dj, pj)));
        assert(in_group(index, di, pi));
        assert(in_group(index, dj, pj));
        if sha1_of(contents[i]) == sha1_of(contents[j]) {
            assert(di == dj);
            let k = choose|k: int| 0 <= k < index.len() && index[k].0 == di && #[trigger] index[k].1.contains(pi);
            let k2 = choose|k: int| 0 <= k < index.len() && index[k].0 == dj && #[trigger] index[k].1.contains(pj);
            assert(first_seen(pairs)[k] == first_seen(pairs)[k2]);
            assert(k == k2);
            assert(same_group(index, pi, pj));
        }
        if same_group(index, pi, pj) {
            let k = choose|k: int| 0 <= k < index.len() && #[trigger] index[k].1.contains(pi) && index[k].1.contains(pj);
            let d = index[k].0;
            assert(in_group(index, d, pi));
            assert(in_group(index, d, pj));
            let a = choose|a: int| 0 <= a < pairs.len() && pairs[a] == (d, pi);
            let b = choose|b: int| 0 <= b < pairs.len() && pairs[b] == (d, pj);
            if a < i {
                assert(pairs[a].1 != pairs[i].1);
            } else if i < a {
                assert(pairs[i].1 != pairs[a].1);
            }
            if b < j {
                assert(pairs[b].1 != pairs[j].1);
            } else if j < b {
                assert(pairs[j].1 != pairs[b].1);
            }
            lemma_hex_injective(sha1_of(contents[i]), sha1_of(contents[j]));
        }
    }
}

/// Every group holds at least one path, and no digest has two groups.
pub open spec fn well_formed(index: Seq<GroupView>) -> bool {
    &&& forall|k: int| 0 <= k < index.len() ==> #[trigger] index[k].1.len() > 0
    &&& forall|a: int, b: int| 0 <= a < b < index.len() ==> #[trigger] index[a].0 != #[trigger] index[b].0
}

/// Grouping pairs always gives a well-formed index.
pub proof fn lemma_index_well_formed(pairs: Seq<PairView>)
    ensures
        well_formed(index_of(pairs)),
{
    let index = index_of(pairs);
    let fs = first_seen(pairs);
    lemma_first_seen_unique(pairs);
    lemma_first_seen_members(pairs);
    assert forall|k: int| 0 <= k < index.len() implies #[trigger] index[k].1.len() > 0 by {
        let d = fs[k];
        assert(fs.contains(d));
        let i = choose|i: int| 0 <= i < pairs.len() && #[trigger] pairs[i].0 == d;
        assert(pairs.contains((d, pairs[i].1)));
        lemma_paths_with_members(pairs, d);
        assert(paths_with(pairs, d).contains(pairs[i].1));
    }
    assert forall|a: int, b: int| 0 <= a < b < index.len() implies #[trigger] index[a].0 != #[trigger] index[b].0 by {
        assert(index[a].0 == fs[a] && index[b].0 == fs[b]);
    }
}

impl DuplicateIndex {
    /// Groups (digest, path) pairs by digest. Groups come in the order in
    /// which their digest first appears; within a group, paths keep the
    /// order of the pairs.
    pub fn merge(pairs: Vec<(String, String)>) -> (r: DuplicateIndex)
        ensures
            r@ == index_of(pairs_view(pairs@)),
    {
        broadcast use group_hash_axioms;

        let ghost all = pairs_view(pairs@);
        let mut groups: Vec<DuplicateGroup> = Vec::new();
        let mut buckets: HashMap<u64, Vec<usize>> = HashMap::new();
        let mut i: usize = 0;
        while i < pairs.len()
            invariant
                i <= pairs@.len(),
                all == pairs_view(pairs@),
                groups_view(groups@) == index_of(all.subrange(0, i as int)),
                buckets_ok(buckets@, groups@),
            decreases pairs@.len() - i,
        {
            let ghost pre = all.subrange(0, i as int);
            let ghost cur = all.subrange(0, i + 1);
            let d = pairs[i].0.clone();
            let p = pairs[i].1.clone();
            proof {
                assert(cur.drop_last() =~= pre);
                assert(cur.last() == (d@, p@));
                assert(groups_view(groups@).len() == groups@.len());
                assert(index_of(pre).len() == first_seen(pre).len());
            }
            let key = digest_key(&d);
            match find_in_buckets(&groups, &buckets, &d, key) {
                Some(j) => {
                    let ghost old_groups = groups@;
                    groups[j].paths.push(p);
                    proof {
                        assert forall|k: int| 0 <= k < groups@.len() implies #[trigger] groups@[k].digest
                            == old_groups[k].digest by {}
                        assert(buckets_ok(buckets@, groups@));
                        assert(groups_view(old_groups)[j as int] == old_groups[j as int]@);
                        assert(index_of(pre)[j as int].0 == first_seen(pre)[j as int]);
                        assert(first_seen(pre)[j as int] == d@);
                        assert(first_seen(cur) == first_seen(pre));
                        lemma_first_seen_unique(pre);
                        assert forall|k: int| 0 <= k < groups@.len() implies
                            #[trigger] groups@[k]@ == index_of(cur)[k] by {
                            if k != j {
                                assert(groups@[k] == old_groups[k]);
                                assert(old_groups[k]@ == index_of(pre)[k]);
                                assert(first_seen(pre)[k] != d@);
                            } else {
                                assert(old_groups[k]@ == index_of(pre)[k]);
                                assert(groups@[k].paths@ == old_groups[k].paths@.push(p));
                                assert(paths_view(groups@[k].paths@) =~= paths_view(old_groups[k].paths@).push(p@));
                            }
                        }
                        assert(groups_view(groups@) =~= index_of(cur));
                    }
                },
                None => {
                    let ghost old_groups = groups@;
                    let ghost old_buckets = buckets@;
                    let mut bucket = match buckets.remove(&key) {
                        Some(b) => b,
                        None => Vec::new(),
                    };
                    let ghost old_bucket = bucket@;
                    bucket.push(groups.len());
                    buckets.insert(key, bucket);
                    let mut paths: Vec<String> = Vec::new();
                    paths.push(p);
                    let g = DuplicateGroup { digest: d, paths };
                    groups.push(g);
                    proof {
                        assert(buckets@ == old_buckets.insert(key, bucket));
                        assert forall|j: int| 0 <= j < groups@.len() implies buckets@.contains_key(
                            key_of(#[trigger] groups@[j].digest@),
                        ) && buckets@[key_of(groups@[j].digest@)]@.contains(j as usize) by {
                            if j < old_groups.len() {
                                assert(groups@[j] == old_groups[j]);
                                if key_of(groups@[j].digest@) == key {
                                    assert(old_buckets.contains_key(key));
                                    assert(old_bucket == old_buckets[key]@);
                                    let u = choose|u: int| 0 <= u < old_bucket.len() && old_bucket[u] == j as usize;
                                    assert(bucket@[u] == j as usize);
                                }
                            } else {
                                assert(bucket@[old_bucket.len() as int] == j as usize);
                            }
                        }
                        assert forall|k: u64, t: int|
                            buckets@.contains_key(k) && 0 <= t < buckets@[k]@.len() implies #[trigger] buckets@[k]@[t]
                                < groups@.len() by {
                            if k == key {
                                if t < old_bucket.len() {
                                    assert(old_buckets[key]@[t] < old_groups.len());
                                }
                            } else {
                                assert(old_buckets[k]@[t] < old_groups.len());
                            }
                        }
                        assert forall|k: int| 0 <= k < first_seen(pre).len() implies
                            first_seen(pre)[k] != d@ by {
                            assert(old_groups[k]@ == index_of(pre)[k]);
                        }
                        assert(!first_seen(pre).contains(d@));
                        assert(first_seen(cur) == first_seen(pre).push(d@));
                        lemma_unseen_has_no_paths(pre, d@);
                        assert(paths_with(cur, d@) =~= seq![p@]);
                        assert forall|k: int| 0 <= k < groups@.len() implies
                            #[trigger] groups@[k]@ == index_of(cur)[k] by {
                            if k < old_groups.len() {
                                assert(groups@[k] == old_groups[k]);
                                assert(old_groups[k]@ == index_of(pre)[k]);
                            } else {
                                assert(paths_view(g.paths@) =~= seq![p@]);
                            }
                        }
                        assert(groups_view(groups@) =~= index_of(cur));
                    }
                },
            }
            i = i + 1;
        }
        assert(all.subrange(0, pairs@.len() as int) =~= all);
        DuplicateIndex { groups }
    }

    /// The index with no group.
    pub fn new() -> (r: DuplicateIndex)
        ensures
            r@ == Seq::<GroupView>::empty(),
    {
        let r = DuplicateIndex { groups: Vec::new() };
        assert(r@ =~= Seq::<GroupView>::empty());
        r
    }

    /// The number of groups, one per distinct digest.
    pub fn len(&self) -> (r: usize)
        ensures
            r == self@.len(),
    {
        self.groups.len()
    }

    /// Whether the index holds no group.
    pub fn is_empty(&self) -> (r: bool)
        ensures
            r == (self@.len() == 0),
    {
        self.groups.len() == 0
    }

    /// The groups, in the order of the index.
    pub fn groups(&self) -> (r: &Vec<DuplicateGroup>)
        ensures
            groups_view(r@) == self@,
    {
        &self.groups
    }

    /// The paths of the group with digest `digest`, if there is one.
    pub fn paths_of(&self, digest: &String) -> (r: Option<&Vec<String>>)
        ensures
            match r {
                Some(ps) => exists|k: int|
                    0 <= k < self@.len() && #[trigger] self@[k].0 == digest@ && self@[k].1
                        == paths_view(ps@),
                None => forall|k: int| 0 <= k < self@.len() ==> #[trigger] self@[k].0 != digest@,
            },
    {
        match find_group(&self.groups, digest) {
            Some(j) => {
                let ps = &self.groups[j].paths;
                assert(self@[j as int] == self.groups@[j as int]@);
                assert(self@[j as int].0 == digest@ && self@[j as int].1 == paths_view(ps@));
                Some(ps)
            },
            None => {
                assert forall|k: int| 0 <= k < self@.len() implies #[trigger] self@[k].0 != digest@ by {
                    assert(self@[k] == self.groups@[k]@);
                }
                None
            },
        }
    }

    /// The index of a scan: the hashed files of the pool's outcomes grouped
    /// by digest; skipped files are left out.
    pub fn from_outcomes(outcomes: &Vec<HashOutcome>) -> (r: DuplicateIndex)
        ensures
            r@ == index_of(hashed_pairs(outcomes@)),
    {
        let pairs = successful_pairs(outcomes);
        DuplicateIndex::merge(pairs)
    }
}

} // verus!
