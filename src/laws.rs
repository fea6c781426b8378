use vstd::prelude::*;
use crate::partition::{
    all_indices, candidates, classes, digest_stage, distinct_keys, kept, lemma_classes_in, lemma_kept_members,
    lemma_refine_groups, name_keys, name_stage, refine, select, size_keys, size_stage,
};
use crate::config::CompareConfig;
use crate::schedule::groups_led_by;
use crate::record::{has_both, has_origin, indices_in, keeps, origin_paths, valid_records, FileRecord};

verus! {

/// A member whose key is `Some(k)` puts `k` among the bucket's keys and
/// itself in the class of `k`.
pub proof fn lemma_member_in_class<K>(b: Seq<usize>, ks: Seq<Option<K>>, p: int, k: K)
    requires
        b.len() == ks.len(),
        0 <= p < b.len(),
        ks[p] == Some(k),
    ensures
        distinct_keys(ks).contains(k),
        select(b, ks, k).contains(b[p]),
    decreases b.len(),
{
    let s = distinct_keys(ks.drop_last());
    if p == b.len() - 1 {
        if !s.contains(k) {
            assert(distinct_keys(ks)[s.len() as int] == k);
        }
        let t = select(b.drop_last(), ks.drop_last(), k);
        assert(select(b, ks, k)[t.len() as int] == b[p]);
    } else {
        lemma_member_in_class(b.drop_last(), ks.drop_last(), p, k);
        let w = choose|w: int| 0 <= w < s.len() && s[w] == k;
        match ks.last() {
            Some(k2) => {
                if !s.contains(k2) {
                    assert(distinct_keys(ks)[w] == k);
                }
            },
            None => {},
        }
        let t = select(b.drop_last(), ks.drop_last(), k);
        let v = choose|v: int| 0 <= v < t.len() && t[v] == b.drop_last()[p];
        assert(select(b, ks, k)[v] == b[p]);
    }
}

/// A reportable group among `gs` is kept.
pub proof fn lemma_kept_contains(rs: Seq<FileRecord>, gs: Seq<Seq<usize>>, g: Seq<usize>, bidirectional: bool)
    requires
        gs.contains(g),
        keeps(rs, g, bidirectional),
    ensures
        kept(rs, gs, bidirectional).contains(g),
    decreases gs.len(),
{
    let s = kept(rs, gs.drop_last(), bidirectional);
    if gs.last() == g {
        assert(kept(rs, gs, bidirectional)[s.len() as int] == g);
    } else {
        let w = choose|w: int| 0 <= w < gs.len() && gs[w] == g;
        assert(gs.drop_last()[w] == g);
        lemma_kept_contains(rs, gs.drop_last(), g, bidirectional);
        let v = choose|v: int| 0 <= v < s.len() && s[v] == g;
        assert(kept(rs, gs, bidirectional)[v] == g);
    }
}

/// Every group of one bucket's refinement is among the digest stage's groups.
pub proof fn lemma_stage_contains(
    rs: Seq<FileRecord>,
    bs: Seq<Seq<usize>>,
    os: Seq<Seq<Option<Seq<char>>>>,
    bidirectional: bool,
    t: int,
    g: Seq<usize>,
)
    requires
        bs.len() == os.len(),
        0 <= t < bs.len(),
        refine(rs, bs[t], os[t], bidirectional).contains(g),
    ensures
        digest_stage(rs, bs, os, bidirectional).contains(g),
    decreases bs.len(),
{
    let prev = digest_stage(rs, bs.drop_last(), os.drop_last(), bidirectional);
    let last = refine(rs, bs.last(), os.last(), bidirectional);
    if t == bs.len() - 1 {
        let v = choose|v: int| 0 <= v < last.len() && last[v] == g;
        assert(digest_stage(rs, bs, os, bidirectional)[prev.len() + v] == g);
    } else {
        assert(bs.drop_last()[t] == bs[t]);
        assert(os.drop_last()[t] == os[t]);
        lemma_stage_contains(rs, bs.drop_last(), os.drop_last(), bidirectional, t, g);
        let v = choose|v: int| 0 <= v < prev.len() && prev[v] == g;
        assert(digest_stage(rs, bs, os, bidirectional)[v] == g);
    }
}

/// Every group of the digest stage is a reportable group of one bucket's
/// refinement.
pub proof fn lemma_stage_groups(
    rs: Seq<FileRecord>,
    bs: Seq<Seq<usize>>,
    os: Seq<Seq<Option<Seq<char>>>>,
    bidirectional: bool,
)
    requires
        bs.len() == os.len(),
        forall|t: int| 0 <= t < bs.len() ==> indices_in(rs, #[trigger] bs[t]),
    ensures
        forall|j: int| 0 <= j < digest_stage(rs, bs, os, bidirectional).len() ==> {
            &&& keeps(rs, #[trigger] digest_stage(rs, bs, os, bidirectional)[j], bidirectional)
            &&& indices_in(rs, digest_stage(rs, bs, os, bidirectional)[j])
        },
    decreases bs.len(),
{
    if bs.len() > 0 {
        lemma_stage_groups(rs, bs.drop_last(), os.drop_last(), bidirectional);
        let prev = digest_stage(rs, bs.drop_last(), os.drop_last(), bidirectional);
        let last = refine(rs, bs.last(), os.last(), bidirectional);
        assert(indices_in(rs, bs[bs.len() - 1]));
        lemma_kept_members(rs, classes(bs.last(), os.last()), bidirectional);
        lemma_classes_in(rs, bs.last(), os.last());
        assert forall|j: int| 0 <= j < digest_stage(rs, bs, os, bidirectional).len() implies {
            &&& keeps(rs, #[trigger] digest_stage(rs, bs, os, bidirectional)[j], bidirectional)
            &&& indices_in(rs, digest_stage(rs, bs, os, bidirectional)[j])
        } by {
            if j < prev.len() {
                assert(digest_stage(rs, bs, os, bidirectional)[j] == prev[j]);
            } else {
                let g = last[j - prev.len()];
                assert(digest_stage(rs, bs, os, bidirectional)[j] == g);
                assert(classes(bs.last(), os.last()).contains(g));
            }
        }
    }
}

/// Two different members make a group of two or more.
proof fn lemma_two_members(g: Seq<usize>, x: usize, y: usize)
    requires
        x != y,
        g.contains(x),
        g.contains(y),
    ensures
        g.len() >= 2,
{
    let i = choose|i: int| 0 <= i < g.len() && g[i] == x;
    let j = choose|j: int| 0 <= j < g.len() && g[j] == y;
    assert(i != j);
}

/// A group holding a member of each tree has members from both.
proof fn lemma_spans(rs: Seq<FileRecord>, g: Seq<usize>, x: usize, y: usize)
    requires
        valid_records(rs),
        x < rs.len(),
        y < rs.len(),
        g.contains(x),
        g.contains(y),
        rs[x as int].origin != rs[y as int].origin,
    ensures
        has_both(rs, g),
{
    let i = choose|i: int| 0 <= i < g.len() && g[i] == x;
    let j = choose|j: int| 0 <= j < g.len() && g[j] == y;
    assert(rs[x as int].origin < 2);
    assert(rs[y as int].origin < 2);
    if rs[x as int].origin == 0 {
        assert(rs[g[i] as int].origin == 0);
        assert(rs[g[j] as int].origin == 1);
    } else {
        assert(rs[g[j] as int].origin == 0);
        assert(rs[g[i] as int].origin == 1);
    }
}

/// The digest outcomes that a digest function gives the members of a bucket.
pub open spec fn bucket_outcomes(b: Seq<usize>, digest: spec_fn(usize) -> Option<Seq<char>>) -> Seq<Option<Seq<char>>> {
    Seq::new(b.len(), |p: int| digest(b[p]))
}

/// The digest outcomes that a digest function gives each member of each bucket.
pub open spec fn outcomes_by(bs: Seq<Seq<usize>>, digest: spec_fn(usize) -> Option<Seq<char>>) -> Seq<Seq<Option<Seq<char>>>> {
    Seq::new(bs.len(), |t: int| bucket_outcomes(bs[t], digest))
}

/// Two files of equal length whose full-content digests are equal land in the
/// same group when sizes and content are compared (names not compared):
/// always without bidirectional mode, and under it whenever the two come from
/// different trees.
pub proof fn lemma_equal_content_grouped(
    rs: Seq<FileRecord>,
    bidirectional: bool,
    digest: spec_fn(usize) -> Option<Seq<char>>,
    a: usize,
    b: usize,
)
    requires
        valid_records(rs),
        a < rs.len(),
        b < rs.len(),
        a != b,
        rs[a as int].size == rs[b as int].size,
        digest(a) is Some,
        digest(a) == digest(b),
        bidirectional ==> rs[a as int].origin != rs[b as int].origin,
    ensures
        exists|j: int|
            0 <= j < digest_stage(rs, size_stage(rs, bidirectional), outcomes_by(size_stage(rs, bidirectional), digest), bidirectional).len()
            && (#[trigger] digest_stage(rs, size_stage(rs, bidirectional), outcomes_by(size_stage(rs, bidirectional), digest), bidirectional)[j]).contains(a)
            && digest_stage(rs, size_stage(rs, bidirectional), outcomes_by(size_stage(rs, bidirectional), digest), bidirectional)[j].contains(b),
{
    let n = rs.len();
    let all = all_indices(n);
    let ks = size_keys(rs);
    let k = rs[a as int].size;
    assert(all[a as int] == a);
    assert(all[b as int] == b);
    lemma_member_in_class(all, ks, a as int, k);
    lemma_member_in_class(all, ks, b as int, k);
    let c = select(all, ks, k);
    lemma_two_members(c, a, b);
    if bidirectional {
        lemma_spans(rs, c, a, b);
    }
    let w = choose|w: int| 0 <= w < distinct_keys(ks).len() && distinct_keys(ks)[w] == k;
    assert(classes(all, ks)[w] == c);
    lemma_kept_contains(rs, classes(all, ks), c, bidirectional);
    let bs = size_stage(rs, bidirectional);
    let os = outcomes_by(bs, digest);
    let t = choose|t: int| 0 <= t < bs.len() && bs[t] == c;
    let pa = choose|p: int| 0 <= p < c.len() && c[p] == a;
    let pb = choose|p: int| 0 <= p < c.len() && c[p] == b;
    let d = digest(a)->0;
    assert(os[t][pa] == Some(d));
    assert(os[t][pb] == Some(d));
    lemma_member_in_class(c, os[t], pa, d);
    lemma_member_in_class(c, os[t], pb, d);
    let e = select(c, os[t], d);
    lemma_two_members(e, a, b);
    if bidirectional {
        lemma_spans(rs, e, a, b);
    }
    let v = choose|v: int| 0 <= v < distinct_keys(os[t]).len() && distinct_keys(os[t])[v] == d;
    assert(classes(c, os[t])[v] == e);
    lemma_kept_contains(rs, classes(c, os[t]), e, bidirectional);
    lemma_stage_contains(rs, bs, os, bidirectional, t, e);
    let j = choose|j: int| 0 <= j < digest_stage(rs, bs, os, bidirectional).len() && digest_stage(rs, bs, os, bidirectional)[j] == e;
    assert(digest_stage(rs, bs, os, bidirectional)[j].contains(a));
}


/// A group with a member of a tree lists at least one path of that tree.
pub proof fn lemma_origin_paths_nonempty(rs: Seq<FileRecord>, g: Seq<usize>, origin: usize)
    requires
        has_origin(rs, g, origin),
    ensures
        origin_paths(rs, g, origin).len() > 0,
    decreases g.len(),
{
    let p = choose|p: int| 0 <= p < g.len() && #[trigger] rs[g[p] as int].origin == origin;
    if rs[g.last() as int].origin != origin {
        assert(p < g.len() - 1);
        assert(rs[g.drop_last()[p] as int].origin == origin);
        lemma_origin_paths_nonempty(rs, g.drop_last(), origin);
    }
}

/// The name stage is the digest stage keyed by each member's file name.
pub proof fn lemma_name_stage_as_digest_stage(rs: Seq<FileRecord>, bs: Seq<Seq<usize>>, bidirectional: bool)
    ensures
        name_stage(rs, bs, bidirectional) == digest_stage(
            rs,
            bs,
            Seq::new(bs.len(), |t: int| name_keys(rs, bs[t])),
            bidirectional,
        ),
    decreases bs.len(),
{
    if bs.len() > 0 {
        lemma_name_stage_as_digest_stage(rs, bs.drop_last(), bidirectional);
        assert(Seq::new(bs.len(), |t: int| name_keys(rs, bs[t])).drop_last() =~= Seq::new(
            bs.drop_last().len(),
            |t: int| name_keys(rs, bs.drop_last()[t]),
        ));
    }
}

/// Under bidirectional mode every candidate group has members from both
/// trees: its lists of first-tree and of second-tree paths are both non-empty.
pub proof fn lemma_bidirectional_candidates_span_both_trees(rs: Seq<FileRecord>, c: CompareConfig)
    requires
        valid_records(rs),
        c.bidirectional,
    ensures
        forall|j: int| 0 <= j < candidates(rs, c).len() ==> {
            let g = #[trigger] candidates(rs, c)[j];
            &&& has_both(rs, g)
            &&& indices_in(rs, g)
            &&& origin_paths(rs, g, 0).len() > 0
            &&& origin_paths(rs, g, 1).len() > 0
        },
{
    let bs = size_stage(rs, true);
    assert(indices_in(rs, all_indices(rs.len())));
    lemma_refine_groups(rs, all_indices(rs.len()), size_keys(rs), true);
    if c.name {
        lemma_name_stage_as_digest_stage(rs, bs, true);
        lemma_stage_groups(rs, bs, Seq::new(bs.len(), |t: int| name_keys(rs, bs[t])), true);
    }
    let cs = candidates(rs, c);
    assert forall|j: int| 0 <= j < cs.len() implies {
        let g = #[trigger] cs[j];
        &&& has_both(rs, g)
        &&& indices_in(rs, g)
        &&& origin_paths(rs, g, 0).len() > 0
        &&& origin_paths(rs, g, 1).len() > 0
    } by {
        lemma_origin_paths_nonempty(rs, cs[j], 0);
        lemma_origin_paths_nonempty(rs, cs[j], 1);
    }
}

/// Under bidirectional mode every group that a digest pass reports, whatever
/// buckets it was given, has members from both trees: its lists of
/// first-tree and of second-tree paths are both non-empty. Its members index
/// the records, so the law holds again for a following pass.
pub proof fn lemma_bidirectional_pass_spans_both_trees(
    rs: Seq<FileRecord>,
    bs: Seq<Seq<usize>>,
    os: Seq<Seq<Option<Seq<char>>>>,
)
    requires
        valid_records(rs),
        bs.len() == os.len(),
        forall|t: int| 0 <= t < bs.len() ==> indices_in(rs, #[trigger] bs[t]),
    ensures
        forall|j: int| 0 <= j < digest_stage(rs, bs, os, true).len() ==> {
            let g = #[trigger] digest_stage(rs, bs, os, true)[j];
            &&& has_both(rs, g)
            &&& indices_in(rs, g)
            &&& origin_paths(rs, g, 0).len() > 0
            &&& origin_paths(rs, g, 1).len() > 0
        },
{
    lemma_stage_groups(rs, bs, os, true);
    let ds = digest_stage(rs, bs, os, true);
    assert forall|j: int| 0 <= j < ds.len() implies {
        let g = #[trigger] ds[j];
        &&& has_both(rs, g)
        &&& indices_in(rs, g)
        &&& origin_paths(rs, g, 0).len() > 0
        &&& origin_paths(rs, g, 1).len() > 0
    } by {
        lemma_origin_paths_nonempty(rs, ds[j], 0);
        lemma_origin_paths_nonempty(rs, ds[j], 1);
    }
}

/// Hashing two runs of buckets one after the other reports the groups of the
/// first run, then those of the second.
pub proof fn lemma_stage_concat(
    rs: Seq<FileRecord>,
    bs1: Seq<Seq<usize>>,
    bs2: Seq<Seq<usize>>,
    digest: spec_fn(usize) -> Option<Seq<char>>,
    bidirectional: bool,
)
    ensures
        digest_stage(rs, bs1 + bs2, outcomes_by(bs1 + bs2, digest), bidirectional) == digest_stage(
            rs,
            bs1,
            outcomes_by(bs1, digest),
            bidirectional,
        ) + digest_stage(rs, bs2, outcomes_by(bs2, digest), bidirectional),
    decreases bs2.len(),
{
    if bs2.len() == 0 {
        assert(bs1 + bs2 =~= bs1);
        assert(digest_stage(rs, bs2, outcomes_by(bs2, digest), bidirectional) =~= Seq::<Seq<usize>>::empty());
        assert(digest_stage(rs, bs1, outcomes_by(bs1, digest), bidirectional) + Seq::<Seq<usize>>::empty()
            =~= digest_stage(rs, bs1, outcomes_by(bs1, digest), bidirectional));
    } else {
        let all = bs1 + bs2;
        assert(all.drop_last() =~= bs1 + bs2.drop_last());
        assert(outcomes_by(all, digest).drop_last() =~= outcomes_by(all.drop_last(), digest));
        assert(outcomes_by(bs2, digest).drop_last() =~= outcomes_by(bs2.drop_last(), digest));
        assert(outcomes_by(all, digest).last() == outcomes_by(bs2, digest).last());
        lemma_stage_concat(rs, bs1, bs2.drop_last(), digest, bidirectional);
        assert(digest_stage(rs, all, outcomes_by(all, digest), bidirectional) =~= digest_stage(
            rs,
            bs1,
            outcomes_by(bs1, digest),
            bidirectional,
        ) + digest_stage(rs, bs2, outcomes_by(bs2, digest), bidirectional));
    }
}

/// The groups that workers hashing consecutive chunks report, chunk after chunk.
pub open spec fn chunk_results(
    rs: Seq<FileRecord>,
    chunks: Seq<Seq<Seq<usize>>>,
    digest: spec_fn(usize) -> Option<Seq<char>>,
    bidirectional: bool,
) -> Seq<Seq<usize>>
    decreases chunks.len(),
{
    if chunks.len() == 0 {
        Seq::empty()
    } else {
        digest_stage(rs, chunks[0], outcomes_by(chunks[0], digest), bidirectional) + chunk_results(
            rs,
            chunks.drop_first(),
            digest,
            bidirectional,
        )
    }
}

/// Cutting the buckets into chunks for workers changes nothing: merged in
/// chunk order, the workers report exactly the groups of a single pass.
pub proof fn lemma_chunked_run_matches(
    rs: Seq<FileRecord>,
    chunks: Seq<Seq<Seq<usize>>>,
    digest: spec_fn(usize) -> Option<Seq<char>>,
    bidirectional: bool,
)
    ensures
        chunk_results(rs, chunks, digest, bidirectional) == digest_stage(
            rs,
            chunks.flatten(),
            outcomes_by(chunks.flatten(), digest),
            bidirectional,
        ),
    decreases chunks.len(),
{
    if chunks.len() > 0 {
        lemma_chunked_run_matches(rs, chunks.drop_first(), digest, bidirectional);
        lemma_stage_concat(rs, chunks[0], chunks.drop_first().flatten(), digest, bidirectional);
    }
}

proof fn lemma_concat_contains<A>(a: Seq<A>, b: Seq<A>, x: A)
    ensures
        (a + b).contains(x) <==> (a.contains(x) || b.contains(x)),
{
    if a.contains(x) {
        let i = choose|i: int| 0 <= i < a.len() && a[i] == x;
        assert((a + b)[i] == x);
    }
    if b.contains(x) {
        let i = choose|i: int| 0 <= i < b.len() && b[i] == x;
        assert((a + b)[a.len() + i] == x);
    }
    if (a + b).contains(x) {
        let i = choose|i: int| 0 <= i < (a + b).len() && (a + b)[i] == x;
        if i < a.len() {
            assert(a[i] == x);
        } else {
            assert(b[i - a.len()] == x);
        }
    }
}

/// Splitting the buckets between a worker for groups led by a first-tree file
/// and one for the rest changes nothing but the order: together they report
/// exactly the groups of a single pass.
pub proof fn lemma_origin_split_run_matches(
    rs: Seq<FileRecord>,
    bs: Seq<Seq<usize>>,
    digest: spec_fn(usize) -> Option<Seq<char>>,
    bidirectional: bool,
)
    requires
        valid_records(rs),
        forall|t: int| 0 <= t < bs.len() ==> (#[trigger] bs[t]).len() >= 1 && indices_in(rs, bs[t]),
    ensures
        forall|g: Seq<usize>|
            #[trigger] digest_stage(rs, bs, outcomes_by(bs, digest), bidirectional).contains(g) <==> (digest_stage(
                rs,
                groups_led_by(rs, bs, 0),
                outcomes_by(groups_led_by(rs, bs, 0), digest),
                bidirectional,
            ).contains(g) || digest_stage(
                rs,
                groups_led_by(rs, bs, 1),
                outcomes_by(groups_led_by(rs, bs, 1), digest),
                bidirectional,
            ).contains(g)),
    decreases bs.len(),
{
    if bs.len() > 0 {
        let init = bs.drop_last();
        let last = bs.last();
        assert forall|t: int| 0 <= t < init.len() implies (#[trigger] init[t]).len() >= 1 && indices_in(rs, init[t]) by {
            assert(init[t] == bs[t]);
        }
        lemma_origin_split_run_matches(rs, init, digest, bidirectional);
        assert(bs =~= init + seq![last]);
        lemma_stage_concat(rs, init, seq![last], digest, bidirectional);
        assert(bs[bs.len() - 1] == last);
        assert(last[0] < rs.len());
        assert(rs[last[0] as int].origin < 2);
        let l0 = groups_led_by(rs, init, 0);
        let l1 = groups_led_by(rs, init, 1);
        let one = digest_stage(rs, seq![last], outcomes_by(seq![last], digest), bidirectional);
        if rs[last[0] as int].origin == 0 {
            assert(groups_led_by(rs, bs, 0) == l0.push(last));
            assert(l0.push(last) =~= l0 + seq![last]);
            lemma_stage_concat(rs, l0, seq![last], digest, bidirectional);
            assert(groups_led_by(rs, bs, 1) == l1);
        } else {
            assert(groups_led_by(rs, bs, 1) == l1.push(last));
            assert(l1.push(last) =~= l1 + seq![last]);
            lemma_stage_concat(rs, l1, seq![last], digest, bidirectional);
            assert(groups_led_by(rs, bs, 0) == l0);
        }
        assert forall|g: Seq<usize>|
            #[trigger] digest_stage(rs, bs, outcomes_by(bs, digest), bidirectional).contains(g) <==> (digest_stage(
                rs,
                groups_led_by(rs, bs, 0),
                outcomes_by(groups_led_by(rs, bs, 0), digest),
                bidirectional,
            ).contains(g) || digest_stage(
                rs,
                groups_led_by(rs, bs, 1),
                outcomes_by(groups_led_by(rs, bs, 1), digest),
                bidirectional,
            ).contains(g)) by {
            lemma_concat_contains(digest_stage(rs, init, outcomes_by(init, digest), bidirectional), one, g);
            lemma_concat_contains(digest_stage(rs, l0, outcomes_by(l0, digest), bidirectional), one, g);
            lemma_concat_contains(digest_stage(rs, l1, outcomes_by(l1, digest), bidirectional), one, g);
        }
    }
}


/// A group is reported by a digest pass exactly when it is reported for one
/// of the buckets the pass was given.
pub proof fn lemma_stage_membership(
    rs: Seq<FileRecord>,
    bs: Seq<Seq<usize>>,
    digest: spec_fn(usize) -> Option<Seq<char>>,
    bidirectional: bool,
    g: Seq<usize>,
)
    ensures
        digest_stage(rs, bs, outcomes_by(bs, digest), bidirectional).contains(g) <==> exists|t: int|
            0 <= t < bs.len() && #[trigger] refine(rs, bs[t], bucket_outcomes(bs[t], digest), bidirectional).contains(g),
    decreases bs.len(),
{
    if bs.len() > 0 {
        let init = bs.drop_last();
        lemma_stage_membership(rs, init, digest, bidirectional, g);
        assert(outcomes_by(bs, digest).drop_last() =~= outcomes_by(init, digest));
        let prev = digest_stage(rs, init, outcomes_by(init, digest), bidirectional);
        let last = refine(rs, bs.last(), bucket_outcomes(bs.last(), digest), bidirectional);
        lemma_concat_contains(prev, last, g);
        if exists|t: int| 0 <= t < bs.len() && #[trigger] refine(rs, bs[t], bucket_outcomes(bs[t], digest), bidirectional).contains(g) {
            let t = choose|t: int| 0 <= t < bs.len() && #[trigger] refine(rs, bs[t], bucket_outcomes(bs[t], digest), bidirectional).contains(g);
            if t < init.len() {
                assert(init[t] == bs[t]);
                assert(refine(rs, init[t], bucket_outcomes(init[t], digest), bidirectional).contains(g));
            }
        }
        if prev.contains(g) {
            let t = choose|t: int| 0 <= t < init.len() && #[trigger] refine(rs, init[t], bucket_outcomes(init[t], digest), bidirectional).contains(g);
            assert(init[t] == bs[t]);
            assert(refine(rs, bs[t], bucket_outcomes(bs[t], digest), bidirectional).contains(g));
        }
        if last.contains(g) {
            assert(bs[bs.len() - 1] == bs.last());
            assert(refine(rs, bs[bs.len() - 1], bucket_outcomes(bs[bs.len() - 1], digest), bidirectional).contains(g));
        }
    }
}

/// Running detection twice over unchanged trees reports the same groups, up
/// to order, whatever order or worker split each run gives its buckets: the
/// groups of a digest pass depend only on the set of buckets it is given and
/// on each file's digest, so pass after pass two runs agree.
pub proof fn lemma_repeated_pass_agrees(
    rs: Seq<FileRecord>,
    bs1: Seq<Seq<usize>>,
    bs2: Seq<Seq<usize>>,
    digest: spec_fn(usize) -> Option<Seq<char>>,
    bidirectional: bool,
)
    requires
        forall|b: Seq<usize>| #[trigger] bs1.contains(b) <==> bs2.contains(b),
    ensures
        forall|g: Seq<usize>|
            #[trigger] digest_stage(rs, bs1, outcomes_by(bs1, digest), bidirectional).contains(g) <==> digest_stage(
                rs,
                bs2,
                outcomes_by(bs2, digest),
                bidirectional,
            ).contains(g),
{
    assert forall|g: Seq<usize>|
        #[trigger] digest_stage(rs, bs1, outcomes_by(bs1, digest), bidirectional).contains(g) <==> digest_stage(
            rs,
            bs2,
            outcomes_by(bs2, digest),
            bidirectional,
        ).contains(g) by {
        lemma_stage_membership(rs, bs1, digest, bidirectional, g);
        lemma_stage_membership(rs, bs2, digest, bidirectional, g);
        if exists|t: int| 0 <= t < bs1.len() && #[trigger] refine(rs, bs1[t], bucket_outcomes(bs1[t], digest), bidirectional).contains(g) {
            let t = choose|t: int| 0 <= t < bs1.len() && #[trigger] refine(rs, bs1[t], bucket_outcomes(bs1[t], digest), bidirectional).contains(g);
            assert(bs1.contains(bs1[t]));
            let u = choose|u: int| 0 <= u < bs2.len() && bs2[u] == bs1[t];
            assert(refine(rs, bs2[u], bucket_outcomes(bs2[u], digest), bidirectional).contains(g));
        }
        if exists|t: int| 0 <= t < bs2.len() && #[trigger] refine(rs, bs2[t], bucket_outcomes(bs2[t], digest), bidirectional).contains(g) {
            let t = choose|t: int| 0 <= t < bs2.len() && #[trigger] refine(rs, bs2[t], bucket_outcomes(bs2[t], digest), bidirectional).contains(g);
            assert(bs2.contains(bs2[t]));
            assert(bs1.contains(bs2[t]));
            let u = choose|u: int| 0 <= u < bs1.len() && bs1[u] == bs2[t];
            assert(refine(rs, bs1[u], bucket_outcomes(bs1[u], digest), bidirectional).contains(g));
        }
    }
}

} // verus!
