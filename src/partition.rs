use vstd::prelude::*;
use std::collections::HashMap;
use crate::config::CompareConfig;
use crate::record::{has_files_from_both_folders, indices_in, keeps, name_of, valid_records, FileRecord, PartKind, PathPart};

verus! {

/// The members of bucket `b` whose key (`ks`, position by position) is `Some(k)`,
/// in bucket order.
pub open spec fn select<K>(b: Seq<usize>, ks: Seq<Option<K>>, k: K) -> Seq<usize>
    decreases b.len(),
{
    if b.len() == 0 {
        Seq::empty()
    } else {
        let s = select(b.drop_last(), ks.drop_last(), k);
        if ks.last() == Some(k) {
            s.push(b.last())
        } else {
            s
        }
    }
}

/// The keys present in `ks`, each once, in order of first appearance.
pub open spec fn distinct_keys<K>(ks: Seq<Option<K>>) -> Seq<K>
    decreases ks.len(),
{
    if ks.len() == 0 {
        Seq::empty()
    } else {
        let s = distinct_keys(ks.drop_last());
        match ks.last() {
            Some(k) => if s.contains(k) {
                s
            } else {
                s.push(k)
            },
            None => s,
        }
    }
}

/// The bucket split by key: one class per key present, in order of the key's
/// first appearance. Members without a key belong to no class.
pub open spec fn classes<K>(b: Seq<usize>, ks: Seq<Option<K>>) -> Seq<Seq<usize>> {
    distinct_keys(ks).map_values(|k: K| select(b, ks, k))
}

/// The groups of `gs` that are reported, in order.
pub open spec fn kept(rs: Seq<FileRecord>, gs: Seq<Seq<usize>>, bidirectional: bool) -> Seq<Seq<usize>>
    decreases gs.len(),
{
    if gs.len() == 0 {
        Seq::empty()
    } else {
        let s = kept(rs, gs.drop_last(), bidirectional);
        if keeps(rs, gs.last(), bidirectional) {
            s.push(gs.last())
        } else {
            s
        }
    }
}

/// One refinement step: the bucket split by key, keeping the reportable classes.
pub open spec fn refine<K>(rs: Seq<FileRecord>, b: Seq<usize>, ks: Seq<Option<K>>, bidirectional: bool) -> Seq<Seq<usize>> {
    kept(rs, classes(b, ks), bidirectional)
}

/// The view of an optional digest or name.
pub open spec fn key_view(o: Option<String>) -> Option<Seq<char>> {
    match o {
        Some(s) => Some(s@),
        None => None,
    }
}

pub open spec fn keys_view(os: Seq<Option<String>>) -> Seq<Option<Seq<char>>> {
    Seq::new(os.len(), |i: int| key_view(os[i]))
}

/// The plain view of a list of groups of record indices.
pub open spec fn groups_view(gs: Seq<Vec<usize>>) -> Seq<Seq<usize>> {
    Seq::new(gs.len(), |i: int| gs[i]@)
}

pub proof fn lemma_distinct_keys_unique<K>(ks: Seq<Option<K>>)
    ensures
        distinct_keys(ks).no_duplicates(),
    decreases ks.len(),
{
    if ks.len() > 0 {
        lemma_distinct_keys_unique(ks.drop_last());
    }
}

pub proof fn lemma_select_absent<K>(b: Seq<usize>, ks: Seq<Option<K>>, k: K)
    requires
        b.len() == ks.len(),
        !distinct_keys(ks).contains(k),
    ensures
        select(b, ks, k) == Seq::<usize>::empty(),
    decreases b.len(),
{
    if b.len() > 0 {
        let s = distinct_keys(ks.drop_last());
        if s.contains(k) {
            let j = choose|j: int| 0 <= j < s.len() && s[j] == k;
            match ks.last() {
                Some(k2) => {
                    if !s.contains(k2) {
                        assert(s.push(k2)[j] == k);
                    }
                },
                None => {},
            }
        }
        match ks.last() {
            Some(k2) => {
                if !s.contains(k2) {
                    assert(k2 == k ==> s.push(k2)[s.len() as int] == k);
                }
            },
            None => {},
        }
        lemma_select_absent(b.drop_last(), ks.drop_last(), k);
    }
}

/// Position of `k` among `seen`, if it is there.
fn find_key(seen: &Vec<String>, k: &String) -> (r: Option<usize>)
    ensures
        match r {
            Some(j) => j < seen.len() && seen@[j as int]@ == k@,
            None => forall|j: int| 0 <= j < seen.len() ==> seen@[j]@ != k@,
        },
{
    let mut j: usize = 0;
    while j < seen.len()
        invariant
            j <= seen.len(),
            forall|i: int| 0 <= i < j ==> seen@[i]@ != k@,
        decreases seen.len() - j,
    {
        if seen[j] == *k {
            return Some(j);
        }
        j = j + 1;
    }
    None
}

/// Splits a bucket by string key; members whose key is `None` are left out.
pub fn split_by_key(bucket: &Vec<usize>, keys: &Vec<Option<String>>) -> (out: Vec<Vec<usize>>)
    requires
        bucket.len() == keys.len(),
    ensures
        groups_view(out@) == classes(bucket@, keys_view(keys@)),
{
    let ghost ks = keys_view(keys@);
    let mut seen: Vec<String> = Vec::new();
    let mut out: Vec<Vec<usize>> = Vec::new();
    let mut p: usize = 0;
    while p < bucket.len()
        invariant
            p <= bucket.len(),
            bucket.len() == keys.len(),
            ks == keys_view(keys@),
            seen.len() == out.len(),
            Seq::new(seen.len() as nat, |j: int| seen@[j]@) == distinct_keys(ks.subrange(0, p as int)),
            forall|j: int| 0 <= j < out.len() ==> #[trigger] out@[j]@ == select(bucket@.subrange(0, p as int), ks.subrange(0, p as int), seen@[j]@),
        decreases bucket.len() - p,
    {
        let ghost b0 = bucket@.subrange(0, p as int);
        let ghost k0 = ks.subrange(0, p as int);
        let ghost b1 = bucket@.subrange(0, p + 1);
        let ghost k1 = ks.subrange(0, p + 1);
        assert(b1.drop_last() =~= b0);
        assert(k1.drop_last() =~= k0);
        assert(k1.last() == key_view(keys@[p as int]));
        let ghost old_seen = Seq::new(seen.len() as nat, |j: int| seen@[j]@);
        let ghost old_out = out@;
        match &keys[p] {
            None => {
                assert forall|j: int| 0 <= j < out.len() implies #[trigger] out@[j]@ == select(b1, k1, seen@[j]@) by {
                    assert(old_out[j]@ == select(b0, k0, seen@[j]@));
                }
                assert(Seq::new(seen.len() as nat, |j: int| seen@[j]@) == distinct_keys(k1));
            },
            Some(k) => {
                match find_key(&seen, k) {
                    Some(j) => {
                        assert(old_seen.contains(k@)) by {
                            assert(old_seen[j as int] == k@);
                        }
                        proof {
                            lemma_distinct_keys_unique(k0);
                        }
                        out[j].push(bucket[p]);
                        assert forall|i: int| 0 <= i < out.len() implies #[trigger] out@[i]@ == select(b1, k1, seen@[i]@) by {
                            assert(old_out[i]@ == select(b0, k0, seen@[i]@));
                            assert(old_seen[i] == seen@[i]@);
                            assert(b1.last() == bucket@[p as int]);
                            if i != j {
                                assert(old_seen[i] != old_seen[j as int]);
                                assert(out@[i] == old_out[i]);
                            } else {
                                assert(out@[i]@ == old_out[i]@.push(bucket@[p as int]));
                            }
                        }
                        assert(distinct_keys(k1) == distinct_keys(k0));
                    },
                    None => {
                        assert(!old_seen.contains(k@)) by {
                            if old_seen.contains(k@) {
                                let j = choose|j: int| 0 <= j < old_seen.len() && old_seen[j] == k@;
                                assert(seen@[j]@ != k@);
                            }
                        }
                        proof {
                            lemma_select_absent(b0, k0, k@);
                        }
                        seen.push(k.clone());
                        let mut fresh: Vec<usize> = Vec::new();
                        fresh.push(bucket[p]);
                        out.push(fresh);
                        assert(Seq::new(seen.len() as nat, |j: int| seen@[j]@) =~= old_seen.push(k@));
                        assert forall|i: int| 0 <= i < out.len() implies #[trigger] out@[i]@ == select(b1, k1, seen@[i]@) by {
                            if i < old_out.len() {
                                assert(old_out[i]@ == select(b0, k0, seen@[i]@));
                                assert(old_seen[i] == seen@[i]@);
                                assert(seen@[i]@ != k@);
                            } else {
                                assert(select(b0, k0, k@) == Seq::<usize>::empty());
                                assert(out@[i]@ =~= Seq::<usize>::empty().push(bucket@[p as int]));
                            }
                        }
                    },
                }
            },
        }
        p = p + 1;
    }
    assert(bucket@.subrange(0, p as int) =~= bucket@);
    assert(ks.subrange(0, p as int) =~= ks);
    assert(groups_view(out@) =~= classes(bucket@, ks));
    out
}


/// Every member of a class is a member of the bucket.
pub proof fn lemma_select_within<K>(b: Seq<usize>, ks: Seq<Option<K>>, k: K)
    ensures
        forall|q: int| 0 <= q < select(b, ks, k).len() ==> b.contains(#[trigger] select(b, ks, k)[q]),
    decreases b.len(),
{
    if b.len() > 0 {
        lemma_select_within(b.drop_last(), ks.drop_last(), k);
        let s = select(b.drop_last(), ks.drop_last(), k);
        assert forall|q: int| 0 <= q < select(b, ks, k).len() implies b.contains(#[trigger] select(b, ks, k)[q]) by {
            if q < s.len() {
                assert(b.drop_last().contains(s[q]));
                let w = choose|w: int| 0 <= w < b.drop_last().len() && b.drop_last()[w] == s[q];
                assert(b[w] == s[q]);
            } else {
                assert(b[b.len() - 1] == b.last());
            }
        }
    }
}

/// Every class of a bucket whose members index `rs` indexes `rs` too.
pub proof fn lemma_classes_in<K>(rs: Seq<FileRecord>, b: Seq<usize>, ks: Seq<Option<K>>)
    requires
        indices_in(rs, b),
    ensures
        forall|j: int| 0 <= j < classes(b, ks).len() ==> indices_in(rs, #[trigger] classes(b, ks)[j]),
{
    assert forall|j: int| 0 <= j < classes(b, ks).len() implies indices_in(rs, #[trigger] classes(b, ks)[j]) by {
        let k = distinct_keys(ks)[j];
        lemma_select_within(b, ks, k);
        let g = select(b, ks, k);
        assert forall|q: int| 0 <= q < g.len() implies #[trigger] g[q] < rs.len() by {
            assert(b.contains(g[q]));
        }
    }
}

/// Keeps the groups that are reported: two members or more and, under
/// bidirectional mode, members from both trees.
pub fn keep_groups(records: &Vec<FileRecord>, groups: &Vec<Vec<usize>>, bidirectional: bool) -> (out: Vec<Vec<usize>>)
    requires
        valid_records(records@),
        forall|j: int| 0 <= j < groups.len() ==> indices_in(records@, #[trigger] groups@[j]@),
    ensures
        groups_view(out@) == kept(records@, groups_view(groups@), bidirectional),
{
    let ghost gs = groups_view(groups@);
    let mut out: Vec<Vec<usize>> = Vec::new();
    let mut j: usize = 0;
    while j < groups.len()
        invariant
            j <= groups.len(),
            gs == groups_view(groups@),
            valid_records(records@),
            forall|i: int| 0 <= i < groups.len() ==> indices_in(records@, #[trigger] groups@[i]@),
            groups_view(out@) == kept(records@, gs.subrange(0, j as int), bidirectional),
        decreases groups.len() - j,
    {
        assert(gs.subrange(0, j + 1).drop_last() =~= gs.subrange(0, j as int));
        assert(gs.subrange(0, j + 1).last() == groups@[j as int]@);
        let g = &groups[j];
        let keep = g.len() >= 2 && (!bidirectional || has_files_from_both_folders(records, g));
        if keep {
            let c = g.clone();
            assert(c@ =~= g@);
            out.push(c);
        }
        assert(groups_view(out@) =~= kept(records@, gs.subrange(0, j + 1), bidirectional));
        j = j + 1;
    }
    assert(gs.subrange(0, j as int) =~= gs);
    out
}

/// The name of the final component of a path, or the empty string where it
/// is not an ordinary name.
pub fn file_name(path: &Vec<PathPart>) -> (r: String)
    ensures
        r@ == name_of(path@),
{
    if path.len() > 0 && path[path.len() - 1].kind == PartKind::Normal {
        path[path.len() - 1].text.clone()
    } else {
        String::new()
    }
}

/// The name of each member of a bucket, as its grouping key.
pub open spec fn name_keys(rs: Seq<FileRecord>, b: Seq<usize>) -> Seq<Option<Seq<char>>> {
    Seq::new(b.len(), |p: int| Some(name_of(rs[b[p] as int].path@)))
}

/// Splits a bucket into classes of members whose file names are equal
/// (case-sensitive), in order of each name's first appearance.
pub fn group_by_name(records: &Vec<FileRecord>, bucket: &Vec<usize>) -> (out: Vec<Vec<usize>>)
    requires
        indices_in(records@, bucket@),
    ensures
        groups_view(out@) == classes(bucket@, name_keys(records@, bucket@)),
{
    let mut keys: Vec<Option<String>> = Vec::new();
    let mut p: usize = 0;
    while p < bucket.len()
        invariant
            p <= bucket.len(),
            indices_in(records@, bucket@),
            keys.len() == p,
            forall|q: int| 0 <= q < p ==> #[trigger] key_view(keys@[q]) == Some(name_of(records@[bucket@[q] as int].path@)),
        decreases bucket.len() - p,
    {
        let i = bucket[p];
        keys.push(Some(file_name(&records[i].path)));
        p = p + 1;
    }
    assert(keys_view(keys@) =~= name_keys(records@, bucket@));
    split_by_key(bucket, &keys)
}

/// The name stage over a list of buckets: each bucket split by file name,
/// keeping the reportable classes, bucket after bucket.
pub open spec fn name_stage(rs: Seq<FileRecord>, bs: Seq<Seq<usize>>, bidirectional: bool) -> Seq<Seq<usize>>
    decreases bs.len(),
{
    if bs.len() == 0 {
        Seq::empty()
    } else {
        name_stage(rs, bs.drop_last(), bidirectional) + refine(rs, bs.last(), name_keys(rs, bs.last()), bidirectional)
    }
}

/// Refines every bucket by file name.
pub fn name_buckets(records: &Vec<FileRecord>, buckets: &Vec<Vec<usize>>, bidirectional: bool) -> (out: Vec<Vec<usize>>)
    requires
        valid_records(records@),
        forall|j: int| 0 <= j < buckets.len() ==> indices_in(records@, #[trigger] buckets@[j]@),
    ensures
        groups_view(out@) == name_stage(records@, groups_view(buckets@), bidirectional),
{
    let ghost bs = groups_view(buckets@);
    let mut out: Vec<Vec<usize>> = Vec::new();
    let mut t: usize = 0;
    while t < buckets.len()
        invariant
            t <= buckets.len(),
            bs == groups_view(buckets@),
            valid_records(records@),
            forall|j: int| 0 <= j < buckets.len() ==> indices_in(records@, #[trigger] buckets@[j]@),
            groups_view(out@) == name_stage(records@, bs.subrange(0, t as int), bidirectional),
        decreases buckets.len() - t,
    {
        assert(bs.subrange(0, t + 1).drop_last() =~= bs.subrange(0, t as int));
        assert(bs.subrange(0, t + 1).last() == buckets@[t as int]@);
        let b = &buckets[t];
        let named = group_by_name(records, b);
        proof {
            lemma_classes_in(records@, b@, name_keys(records@, b@));
            assert forall|j: int| 0 <= j < named.len() implies indices_in(records@, #[trigger] named@[j]@) by {
                assert(groups_view(named@)[j] == named@[j]@);
            }
        }
        let mut part = keep_groups(records, &named, bidirectional);
        let ghost before = out@;
        out.append(&mut part);
        assert(groups_view(out@) =~= groups_view(before) + refine(records@, b@, name_keys(records@, b@), bidirectional));
        t = t + 1;
    }
    assert(bs.subrange(0, t as int) =~= bs);
    out
}


/// The indices `0..n` of a record list.
pub open spec fn all_indices(n: nat) -> Seq<usize> {
    Seq::new(n, |i: int| i as usize)
}

/// The byte length of each record, as its grouping key.
pub open spec fn size_keys(rs: Seq<FileRecord>) -> Seq<Option<u64>> {
    Seq::new(rs.len(), |i: int| Some(rs[i].size))
}

/// The size stage: all records split by byte length, keeping the reportable
/// classes, in order of each length's first appearance.
pub open spec fn size_stage(rs: Seq<FileRecord>, bidirectional: bool) -> Seq<Seq<usize>> {
    refine(rs, all_indices(rs.len()), size_keys(rs), bidirectional)
}

/// Splits the records (both scans, one after the other) into buckets of equal
/// byte length; a bucket is kept when it has two members or more and, under
/// bidirectional mode, members from both trees.
pub fn size_buckets(records: &Vec<FileRecord>, bidirectional: bool) -> (out: Vec<Vec<usize>>)
    requires
        valid_records(records@),
    ensures
        groups_view(out@) == size_stage(records@, bidirectional),
{
    broadcast use vstd::std_specs::hash::group_hash_axioms;

    let ghost b = all_indices(records@.len());
    let ghost ks = size_keys(records@);
    let mut index: HashMap<u64, usize> = HashMap::new();
    let mut seen: Vec<u64> = Vec::new();
    let mut classes_found: Vec<Vec<usize>> = Vec::new();
    let mut i: usize = 0;
    while i < records.len()
        invariant
            i <= records.len(),
            b == all_indices(records@.len()),
            ks == size_keys(records@),
            seen.len() == classes_found.len(),
            seen@ == distinct_keys(ks.subrange(0, i as int)),
            forall|j: int| 0 <= j < classes_found.len() ==> #[trigger] classes_found@[j]@ == select(b.subrange(0, i as int), ks.subrange(0, i as int), seen@[j]),
            forall|j: int| 0 <= j < seen.len() ==> index@.contains_key(#[trigger] seen@[j]) && index@[seen@[j]] == j,
            forall|k: u64| #[trigger] index@.contains_key(k) ==> seen@.contains(k),
        decreases records.len() - i,
    {
        let ghost b0 = b.subrange(0, i as int);
        let ghost k0 = ks.subrange(0, i as int);
        let ghost b1 = b.subrange(0, i + 1);
        let ghost k1 = ks.subrange(0, i + 1);
        assert(b1.drop_last() =~= b0);
        assert(k1.drop_last() =~= k0);
        assert(b1.last() == i);
        let size = records[i].size;
        assert(k1.last() == Some(size));
        let ghost old_out = classes_found@;
        let ghost old_seen = seen@;
        proof {
            lemma_distinct_keys_unique(k0);
        }
        match index.get(&size) {
            Some(j) => {
                let j = *j;
                assert(seen@.contains(size));
                let ghost w = choose|w: int| 0 <= w < seen.len() && seen@[w] == size;
                assert(index@[seen@[w]] == w);
                assert(j == w);
                classes_found[j].push(i);
                assert forall|q: int| 0 <= q < classes_found.len() implies #[trigger] classes_found@[q]@ == select(b1, k1, seen@[q]) by {
                    assert(old_out[q]@ == select(b0, k0, seen@[q]));
                    if q != j {
                        assert(seen@[q] != seen@[j as int]);
                        assert(classes_found@[q] == old_out[q]);
                    } else {
                        assert(classes_found@[q]@ == old_out[q]@.push(i));
                    }
                }
            },
            None => {
                assert(!seen@.contains(size));
                proof {
                    lemma_select_absent(b0, k0, size);
                }
                index.insert(size, seen.len());
                seen.push(size);
                let mut fresh: Vec<usize> = Vec::new();
                fresh.push(i);
                classes_found.push(fresh);
                assert forall|q: int| 0 <= q < classes_found.len() implies #[trigger] classes_found@[q]@ == select(b1, k1, seen@[q]) by {
                    if q < old_out.len() {
                        assert(old_out[q]@ == select(b0, k0, seen@[q]));
                        assert(seen@[q] == old_seen[q]);
                        assert(old_seen.contains(seen@[q]));
                    } else {
                        assert(classes_found@[q]@ =~= Seq::<usize>::empty().push(i));
                    }
                }
                assert forall|k: u64| #[trigger] index@.contains_key(k) implies seen@.contains(k) by {
                    if k != size {
                        let w = choose|w: int| 0 <= w < old_seen.len() && old_seen[w] == k;
                        assert(seen@[w] == k);
                    } else {
                        assert(seen@[old_seen.len() as int] == k);
                    }
                }
                assert forall|j: int| 0 <= j < seen.len() implies index@.contains_key(#[trigger] seen@[j]) && index@[seen@[j]] == j by {
                    if j < old_seen.len() {
                        assert(old_seen[j] != size) by {
                            assert(old_seen.contains(old_seen[j]));
                        }
                    }
                }
            },
        }
        i = i + 1;
    }
    assert(b.subrange(0, i as int) =~= b);
    assert(ks.subrange(0, i as int) =~= ks);
    assert(groups_view(classes_found@) =~= classes(b, ks));
    proof {
        assert(indices_in(records@, b));
        lemma_classes_in(records@, b, ks);
        assert forall|j: int| 0 <= j < classes_found.len() implies indices_in(records@, #[trigger] classes_found@[j]@) by {
            assert(groups_view(classes_found@)[j] == classes_found@[j]@);
        }
    }
    keep_groups(records, &classes_found, bidirectional)
}


/// Splits one bucket by content digest (`None`: the file could not be read
/// and is left out), keeping the reportable classes.
pub fn refine_by_digest(
    records: &Vec<FileRecord>,
    bucket: &Vec<usize>,
    outcomes: &Vec<Option<String>>,
    bidirectional: bool,
) -> (out: Vec<Vec<usize>>)
    requires
        valid_records(records@),
        indices_in(records@, bucket@),
        bucket.len() == outcomes.len(),
    ensures
        groups_view(out@) == refine(records@, bucket@, keys_view(outcomes@), bidirectional),
{
    let split = split_by_key(bucket, outcomes);
    proof {
        lemma_classes_in(records@, bucket@, keys_view(outcomes@));
        assert forall|j: int| 0 <= j < split.len() implies indices_in(records@, #[trigger] split@[j]@) by {
            assert(groups_view(split@)[j] == split@[j]@);
        }
    }
    keep_groups(records, &split, bidirectional)
}

/// The digest outcomes of each bucket, as plain values.
pub open spec fn outcomes_view(os: Seq<Vec<Option<String>>>) -> Seq<Seq<Option<Seq<char>>>> {
    Seq::new(os.len(), |t: int| keys_view(os[t]@))
}

/// The digest stage over a list of buckets: each bucket split by its
/// members' digests, keeping the reportable classes, bucket after bucket.
pub open spec fn digest_stage(
    rs: Seq<FileRecord>,
    bs: Seq<Seq<usize>>,
    os: Seq<Seq<Option<Seq<char>>>>,
    bidirectional: bool,
) -> Seq<Seq<usize>>
    decreases bs.len(),
{
    if bs.len() == 0 {
        Seq::empty()
    } else {
        digest_stage(rs, bs.drop_last(), os.drop_last(), bidirectional) + refine(rs, bs.last(), os.last(), bidirectional)
    }
}

/// Refines every bucket by the digests computed for its members
/// (`outcomes[t][p]` for member `p` of bucket `t`).
pub fn classify(
    records: &Vec<FileRecord>,
    buckets: &Vec<Vec<usize>>,
    outcomes: &Vec<Vec<Option<String>>>,
    bidirectional: bool,
) -> (out: Vec<Vec<usize>>)
    requires
        valid_records(records@),
        buckets.len() == outcomes.len(),
        forall|t: int| 0 <= t < buckets.len() ==> indices_in(records@, #[trigger] buckets@[t]@),
        forall|t: int| 0 <= t < buckets.len() ==> #[trigger] buckets@[t].len() == outcomes@[t].len(),
    ensures
        groups_view(out@) == digest_stage(records@, groups_view(buckets@), outcomes_view(outcomes@), bidirectional),
{
    let ghost bs = groups_view(buckets@);
    let ghost os = outcomes_view(outcomes@);
    let mut out: Vec<Vec<usize>> = Vec::new();
    let mut t: usize = 0;
    while t < buckets.len()
        invariant
            t <= buckets.len(),
            buckets.len() == outcomes.len(),
            bs == groups_view(buckets@),
            os == outcomes_view(outcomes@),
            valid_records(records@),
            forall|j: int| 0 <= j < buckets.len() ==> indices_in(records@, #[trigger] buckets@[j]@),
            forall|j: int| 0 <= j < buckets.len() ==> #[trigger] buckets@[j].len() == outcomes@[j].len(),
            groups_view(out@) == digest_stage(records@, bs.subrange(0, t as int), os.subrange(0, t as int), bidirectional),
        decreases buckets.len() - t,
    {
        assert(bs.subrange(0, t + 1).drop_last() =~= bs.subrange(0, t as int));
        assert(os.subrange(0, t + 1).drop_last() =~= os.subrange(0, t as int));
        assert(bs.subrange(0, t + 1).last() == buckets@[t as int]@);
        assert(os.subrange(0, t + 1).last() == keys_view(outcomes@[t as int]@));
        let mut part = refine_by_digest(records, &buckets[t], &outcomes[t], bidirectional);
        let ghost before = out@;
        out.append(&mut part);
        assert(groups_view(out@) =~= groups_view(before) + refine(records@, buckets@[t as int]@, keys_view(outcomes@[t as int]@), bidirectional));
        t = t + 1;
    }
    assert(bs.subrange(0, t as int) =~= bs);
    assert(os.subrange(0, t as int) =~= os);
    out
}


/// Every kept group is one of the groups, and is reportable.
pub proof fn lemma_kept_members(rs: Seq<FileRecord>, gs: Seq<Seq<usize>>, bidirectional: bool)
    ensures
        forall|j: int| 0 <= j < kept(rs, gs, bidirectional).len() ==> {
            &&& gs.contains(#[trigger] kept(rs, gs, bidirectional)[j])
            &&& keeps(rs, kept(rs, gs, bidirectional)[j], bidirectional)
        },
    decreases gs.len(),
{
    if gs.len() > 0 {
        lemma_kept_members(rs, gs.drop_last(), bidirectional);
        let s = kept(rs, gs.drop_last(), bidirectional);
        assert forall|j: int| 0 <= j < kept(rs, gs, bidirectional).len() implies {
            &&& gs.contains(#[trigger] kept(rs, gs, bidirectional)[j])
            &&& keeps(rs, kept(rs, gs, bidirectional)[j], bidirectional)
        } by {
            if j < s.len() {
                let w = choose|w: int| 0 <= w < gs.drop_last().len() && gs.drop_last()[w] == s[j];
                assert(gs[w] == s[j]);
            } else {
                assert(gs[gs.len() - 1] == gs.last());
            }
        }
    }
}

/// Every group of a refinement of a bucket that indexes `rs` indexes `rs`,
/// has two members or more, and is reportable.
pub proof fn lemma_refine_groups<K>(rs: Seq<FileRecord>, b: Seq<usize>, ks: Seq<Option<K>>, bidirectional: bool)
    requires
        indices_in(rs, b),
    ensures
        forall|j: int| 0 <= j < refine(rs, b, ks, bidirectional).len() ==> {
            &&& indices_in(rs, #[trigger] refine(rs, b, ks, bidirectional)[j])
            &&& keeps(rs, refine(rs, b, ks, bidirectional)[j], bidirectional)
        },
{
    lemma_kept_members(rs, classes(b, ks), bidirectional);
    lemma_classes_in(rs, b, ks);
    assert forall|j: int| 0 <= j < refine(rs, b, ks, bidirectional).len() implies {
        &&& indices_in(rs, #[trigger] refine(rs, b, ks, bidirectional)[j])
        &&& keeps(rs, refine(rs, b, ks, bidirectional)[j], bidirectional)
    } by {
        let g = refine(rs, b, ks, bidirectional)[j];
        assert(classes(b, ks).contains(g));
    }
}

/// The candidate groups of a run: the size stage, refined by name when names
/// are compared.
pub open spec fn candidates(rs: Seq<FileRecord>, c: CompareConfig) -> Seq<Seq<usize>> {
    if c.name {
        name_stage(rs, size_stage(rs, c.bidirectional), c.bidirectional)
    } else {
        size_stage(rs, c.bidirectional)
    }
}

/// Partitions the records of both scans into the candidate groups that the
/// digest passes (if any) then refine.
pub fn candidate_buckets(records: &Vec<FileRecord>, c: &CompareConfig) -> (out: Vec<Vec<usize>>)
    requires
        valid_records(records@),
    ensures
        groups_view(out@) == candidates(records@, *c),
{
    let by_size = size_buckets(records, c.bidirectional);
    if c.name {
        proof {
            assert(indices_in(records@, all_indices(records@.len())));
            lemma_refine_groups(records@, all_indices(records@.len()), size_keys(records@), c.bidirectional);
            assert forall|j: int| 0 <= j < by_size.len() implies indices_in(records@, #[trigger] by_size@[j]@) by {
                assert(groups_view(by_size@)[j] == by_size@[j]@);
            }
        }
        name_buckets(records, &by_size, c.bidirectional)
    } else {
        by_size
    }
}

} // verus!
