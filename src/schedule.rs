use vstd::prelude::*;
use crate::partition::groups_view;
use crate::record::{indices_in, FileRecord};

verus! {

/// Largest number of workers when the trees are on a spinning disk.
pub const HDD_WORKER_CAP: usize = 4;

/// Relies on num_cpus::get: the number of logical CPUs available, which its
/// documentation says is always at least 1.
#[verifier::external_body]
fn logical_cpus() -> (r: usize)
    ensures
        r >= 1,
{
    num_cpus::get()
}

/// How many chunks the work is cut into for `chunk_count` available CPUs:
/// at most `HDD_WORKER_CAP` on a spinning disk, and at least one.
pub open spec fn effective_chunks(chunk_count: usize, hdd_optimized: bool) -> nat {
    let m = if hdd_optimized && chunk_count > HDD_WORKER_CAP { HDD_WORKER_CAP } else { chunk_count };
    if m == 0 { 1 } else { m as nat }
}

/// The length of every chunk but the last: the items divided by the chunk
/// count, rounded up (at least one).
pub open spec fn chunk_len(len: nat, chunks: nat) -> nat
    recommends
        chunks > 0,
{
    if len == 0 { 1 } else { ((len - 1) / (chunks as int) + 1) as nat }
}

/// Cuts the items into contiguous chunks, one per worker: every chunk holds
/// `chunk_len` items but the last, which holds the rest (at least one).
pub fn split_into_chunks<T>(items: Vec<T>, chunk_count: usize, hdd_optimized: bool) -> (out: Vec<Vec<T>>)
    ensures
        ({
            let s = chunk_len(items@.len(), effective_chunks(chunk_count, hdd_optimized));
            &&& out.len() * s >= items@.len()
            &&& items@.len() == 0 ==> out.len() == 0
            &&& items@.len() > 0 ==> (out.len() - 1) * s < items@.len()
            &&& forall|i: int| 0 <= i < out.len() ==> (#[trigger] out@[i])@ == items@.subrange(
                i * s,
                if (i + 1) * s < items@.len() { (i + 1) * s } else { items@.len() as int },
            )
        }),
        out.len() <= effective_chunks(chunk_count, hdd_optimized),
{
    let m0: usize = if hdd_optimized && chunk_count > HDD_WORKER_CAP { HDD_WORKER_CAP } else { chunk_count };
    let m: usize = if m0 == 0 { 1 } else { m0 };
    let len = items.len();
    let s: usize = if len == 0 { 1 } else { (len - 1) / m + 1 };
    let ghost all = items@;
    let ghost sz = s as int;
    assert(s == chunk_len(len as nat, effective_chunks(chunk_count, hdd_optimized)));
    assert(len > 0 ==> (len - 1) < m * sz) by (nonlinear_arith)
        requires
            len > 0 ==> sz == (len - 1) / (m as int) + 1,
            m > 0,
    ;
    let mut out: Vec<Vec<T>> = Vec::new();
    let mut rest = items;
    let mut start: usize = 0;
    assert(0int * sz == 0) by (nonlinear_arith);
    while rest.len() > s
        invariant
            len == all.len(),
            sz == s as int,
            s >= 1,
            start as int == out.len() * sz,
            start + rest@.len() == all.len(),
            rest@ == all.subrange(start as int, all.len() as int),
            forall|i: int| 0 <= i < out.len() ==> (#[trigger] out@[i])@ == all.subrange(i * sz, (i + 1) * sz),
        decreases rest.len(),
    {
        let tail = rest.split_off(s);
        let ghost k = out.len() as int;
        assert((k + 1) * sz == k * sz + sz) by (nonlinear_arith);
        out.push(rest);
        rest = tail;
        start = start + s;
    }
    let ghost full = out.len() as int;
    if rest.len() > 0 {
        out.push(rest);
    }
    proof {
        assert((full + 1) * sz == full * sz + sz) by (nonlinear_arith);
        assert forall|i: int| 0 <= i < out.len() implies (#[trigger] out@[i])@ == all.subrange(
            i * sz,
            if (i + 1) * sz < all.len() { (i + 1) * sz } else { all.len() as int },
        ) by {
            if i < full {
                assert((i + 1) * sz <= full * sz) by (nonlinear_arith)
                    requires i < full, sz >= 1;
            }
        }
        if len > 0 {
            assert(out.len() >= 1) by {
                if out.len() == 0 {
                    assert(full == 0);
                    assert(0int * sz == 0) by (nonlinear_arith);
                }
            }
            assert(out.len() * sz >= len) by {
                if full < out.len() {
                } else {
                    assert(start == len);
                }
            }
            assert((out.len() - 1) * sz < len) by {
                assert((full - 1) * sz == full * sz - sz) by (nonlinear_arith);
            }
            // every chunk but the last is full, so there are at most `m` of them
            assert(out.len() <= m) by (nonlinear_arith)
                requires
                    (out.len() - 1) * sz < len,
                    len - 1 < m * sz,
                    sz >= 1,
                    m >= 1,
            ;
        }
    }
    out
}

/// Cuts the candidate groups into one chunk per worker for the CPUs of this
/// machine (at most `HDD_WORKER_CAP` on a spinning disk). Whatever the CPU
/// count, the chunks hold the groups in order, each chunk non-empty.
pub fn chunk_for_workers(groups: Vec<Vec<usize>>, hdd_optimized: bool) -> (out: Vec<Vec<Vec<usize>>>)
    ensures
        forall|i: int| 0 <= i < out.len() ==> (#[trigger] out@[i]).len() > 0,
        hdd_optimized ==> out.len() <= HDD_WORKER_CAP,
        out@.map_values(|c: Vec<Vec<usize>>| c@).flatten() == groups@,
{
    let cpus = logical_cpus();
    let ghost all = groups@;
    let out = split_into_chunks(groups, cpus, hdd_optimized);
    proof {
        let s = chunk_len(all.len(), effective_chunks(cpus, hdd_optimized));
        let cs = out@.map_values(|c: Vec<Vec<usize>>| c@);
        lemma_chunks_flatten(all, cs, s);
        assert forall|i: int| 0 <= i < out.len() implies (#[trigger] out@[i]).len() > 0 by {
            assert(cs[i].len() > 0);
        }
    }
    out
}

/// Consecutive chunks of `s` items (the last possibly shorter) flatten back
/// to the items.
pub proof fn lemma_chunks_flatten<T>(all: Seq<T>, cs: Seq<Seq<T>>, s: nat)
    requires
        s >= 1,
        cs.len() * s >= all.len(),
        all.len() == 0 ==> cs.len() == 0,
        all.len() > 0 ==> (cs.len() - 1) * s < all.len(),
        forall|i: int| 0 <= i < cs.len() ==> #[trigger] cs[i] == all.subrange(
            i * s,
            if (i + 1) * s < all.len() { (i + 1) * s } else { all.len() as int },
        ),
    ensures
        forall|i: int| 0 <= i < cs.len() ==> (#[trigger] cs[i]).len() > 0,
        cs.flatten() == all,
    decreases cs.len(),
{
    assert forall|i: int| 0 <= i < cs.len() implies (#[trigger] cs[i]).len() > 0 by {
        assert(i * s <= (cs.len() - 1) * s) by (nonlinear_arith)
            requires i <= cs.len() - 1, s >= 1;
        assert(i * s < (i + 1) * s) by (nonlinear_arith)
            requires s >= 1;
    }
    if cs.len() > 0 {
        let rest = cs.drop_first();
        let tail = all.subrange(s as int, all.len() as int);
        if cs.len() == 1 {
            assert(cs[0] =~= all);
            assert(rest.flatten() == Seq::<T>::empty());
            assert(cs.flatten() =~= all);
        } else {
            assert(s < all.len()) by (nonlinear_arith)
                requires (cs.len() - 1) * s < all.len(), cs.len() >= 2, s >= 1;
            assert forall|i: int| 0 <= i < rest.len() implies #[trigger] rest[i] == tail.subrange(
                i * s,
                if (i + 1) * s < tail.len() { (i + 1) * s } else { tail.len() as int },
            ) by {
                assert((i + 1) * s + s == (i + 2) * s) by (nonlinear_arith);
                assert(i * s + s == (i + 1) * s) by (nonlinear_arith);
                assert(i * s >= 0) by (nonlinear_arith)
                    requires i >= 0, s >= 1;
                let hi = if (i + 2) * s < all.len() { (i + 2) * s } else { all.len() as int };
                assert(cs[i + 1] == all.subrange((i + 1) * s, hi));
                assert(rest[i] == cs[i + 1]);
                let thi = if (i + 1) * s < tail.len() { (i + 1) * s } else { tail.len() as int };
                assert(thi + s == hi);
                assert((i + 1) * s <= hi) by {
                    assert((i + 1) * s < all.len()) by (nonlinear_arith)
                        requires i + 1 <= cs.len() - 1, (cs.len() - 1) * s < all.len(), s >= 1;
                }
                assert(cs[i + 1] =~= tail.subrange(i * s, thi));
            }
            assert(rest.len() * s >= tail.len()) by (nonlinear_arith)
                requires cs.len() * s >= all.len(), rest.len() == cs.len() - 1, tail.len() == all.len() - s;
            assert((rest.len() - 1) * s < tail.len()) by (nonlinear_arith)
                requires (cs.len() - 1) * s < all.len(), rest.len() == cs.len() - 1, tail.len() == all.len() - s;
            lemma_chunks_flatten(tail, rest, s);
            assert(cs[0] =~= all.subrange(0, s as int));
            assert(cs.flatten() == cs[0] + rest.flatten());
            assert(cs.flatten() =~= all);
        }
    }
}


/// The groups whose first member comes from the given tree, in order.
pub open spec fn groups_led_by(rs: Seq<FileRecord>, gs: Seq<Seq<usize>>, origin: usize) -> Seq<Seq<usize>>
    decreases gs.len(),
{
    if gs.len() == 0 {
        Seq::empty()
    } else {
        let s = groups_led_by(rs, gs.drop_last(), origin);
        if rs[gs.last()[0] as int].origin == origin {
            s.push(gs.last())
        } else {
            s
        }
    }
}

/// Splits the groups between two workers: those whose first member comes
/// from the first tree, and those whose first member comes from the second.
pub fn origin_split(records: &Vec<FileRecord>, groups: &Vec<Vec<usize>>) -> (r: (Vec<Vec<usize>>, Vec<Vec<usize>>))
    requires
        forall|t: int| 0 <= t < groups.len() ==> indices_in(records@, #[trigger] groups@[t]@),
        forall|t: int| 0 <= t < groups.len() ==> #[trigger] groups@[t].len() >= 1,
    ensures
        groups_view(r.0@) == groups_led_by(records@, groups_view(groups@), 0),
        groups_view(r.1@) == groups_led_by(records@, groups_view(groups@), 1),
{
    let ghost gs = groups_view(groups@);
    let mut first: Vec<Vec<usize>> = Vec::new();
    let mut second: Vec<Vec<usize>> = Vec::new();
    let mut t: usize = 0;
    while t < groups.len()
        invariant
            t <= groups.len(),
            gs == groups_view(groups@),
            forall|j: int| 0 <= j < groups.len() ==> indices_in(records@, #[trigger] groups@[j]@),
            forall|j: int| 0 <= j < groups.len() ==> #[trigger] groups@[j].len() >= 1,
            groups_view(first@) == groups_led_by(records@, gs.subrange(0, t as int), 0),
            groups_view(second@) == groups_led_by(records@, gs.subrange(0, t as int), 1),
        decreases groups.len() - t,
    {
        assert(gs.subrange(0, t + 1).drop_last() =~= gs.subrange(0, t as int));
        assert(gs.subrange(0, t + 1).last() == groups@[t as int]@);
        let g = &groups[t];
        assert(groups@[t as int].len() >= 1);
        let lead = g[0];
        let c = g.clone();
        assert(c@ =~= g@);
        if records[lead].origin == 0 {
            first.push(c);
        } else if records[lead].origin == 1 {
            second.push(c);
        }
        assert(groups_view(first@) =~= groups_led_by(records@, gs.subrange(0, t + 1), 0));
        assert(groups_view(second@) =~= groups_led_by(records@, gs.subrange(0, t + 1), 1));
        t = t + 1;
    }
    assert(gs.subrange(0, t as int) =~= gs);
    (first, second)
}

} // verus!
