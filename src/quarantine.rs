use vstd::prelude::*;
use vstd::string::{StrSliceExecFns, StringExecFns};
use crate::text::{chars_of, push_char};
use crate::record::{copy_part, path_view, DuplicateGroup, PartKind, PathPart};

verus! {

/// Characters that a file name may not hold on the most restrictive hosts.
pub open spec fn is_reserved(c: char) -> bool {
    c == '<' || c == '>' || c == ':' || c == '"' || c == '|' || c == '?' || c == '*'
}

/// The text without its trailing spaces.
pub open spec fn trim_trailing_spaces(s: Seq<char>) -> Seq<char>
    decreases s.len(),
{
    if s.len() > 0 && s.last() == ' ' {
        trim_trailing_spaces(s.drop_last())
    } else {
        s
    }
}

/// A legal file name: trailing spaces trimmed, each reserved character
/// replaced by an underscore.
pub open spec fn sanitized_name(s: Seq<char>) -> Seq<char> {
    let t = trim_trailing_spaces(s);
    Seq::new(t.len(), |i: int| if is_reserved(t[i]) { '_' } else { t[i] })
}

/// Trims trailing spaces and replaces reserved characters with `_`.
pub fn sanitize_name(s: &String) -> (r: String)
    ensures
        r@ == sanitized_name(s@),
{
    let cs = chars_of(s);
    let mut end: usize = cs.len();
    assert(cs@.subrange(0, end as int) =~= cs@);
    while end > 0 && cs[end - 1] == ' '
        invariant
            end <= cs.len(),
            cs@ == s@,
            trim_trailing_spaces(cs@.subrange(0, end as int)) == trim_trailing_spaces(s@),
        decreases end,
    {
        assert(cs@.subrange(0, end as int).drop_last() =~= cs@.subrange(0, end - 1));
        end = end - 1;
    }
    let ghost t = cs@.subrange(0, end as int);
    assert(trim_trailing_spaces(t) == t);
    let mut r = String::new();
    let mut i: usize = 0;
    while i < end
        invariant
            i <= end,
            end <= cs.len(),
            t == cs@.subrange(0, end as int),
            r@ == Seq::new(i as nat, |j: int| if is_reserved(t[j]) { '_' } else { t[j] }),
        decreases end - i,
    {
        let c = cs[i];
        let ghost before = r@;
        if c == '<' || c == '>' || c == ':' || c == '"' || c == '|' || c == '?' || c == '*' {
            push_char(&mut r, '_');
        } else {
            push_char(&mut r, c);
        }
        i = i + 1;
        assert(r@ =~= Seq::new(i as nat, |j: int| if is_reserved(t[j]) { '_' } else { t[j] }));
    }
    assert(r@ =~= sanitized_name(s@));
    r
}

/// A component made legal: ordinary names are sanitized, the others kept.
pub open spec fn sanitized_part(p: (PartKind, Seq<char>)) -> (PartKind, Seq<char>) {
    if p.0 == PartKind::Normal {
        (p.0, sanitized_name(p.1))
    } else {
        p
    }
}

pub open spec fn sanitized_path(p: Seq<(PartKind, Seq<char>)>) -> Seq<(PartKind, Seq<char>)> {
    Seq::new(p.len(), |i: int| sanitized_part(p[i]))
}

/// Sanitizes every ordinary component of a path.
pub fn sanitize_path(path: &Vec<PathPart>) -> (r: Vec<PathPart>)
    ensures
        path_view(r@) == sanitized_path(path_view(path@)),
{
    let mut r: Vec<PathPart> = Vec::new();
    let mut i: usize = 0;
    while i < path.len()
        invariant
            i <= path.len(),
            r.len() == i,
            path_view(r@) == sanitized_path(path_view(path@)).subrange(0, i as int),
        decreases path.len() - i,
    {
        let part = &path[i];
        let text = if part.kind == PartKind::Normal { sanitize_name(&part.text) } else { part.text.clone() };
        let ghost before = r@;
        r.push(PathPart { kind: part.kind, text });
        assert(r@[i as int]@ == sanitized_part(path_view(path@)[i as int]));
        assert(r@.subrange(0, i as int) =~= before);
        i = i + 1;
        assert(path_view(r@) =~= sanitized_path(path_view(path@)).subrange(0, i as int));
    }
    assert(sanitized_path(path_view(path@)).subrange(0, i as int) =~= sanitized_path(path_view(path@)));
    r
}

/// The path below `root`, where `root` is a leading part of `path`.
pub open spec fn relative_to(path: Seq<(PartKind, Seq<char>)>, root: Seq<(PartKind, Seq<char>)>) -> Option<Seq<(PartKind, Seq<char>)>> {
    if root.len() <= path.len() && path.subrange(0, root.len() as int) == root {
        Some(path.subrange(root.len() as int, path.len() as int))
    } else {
        None
    }
}

fn same_part(a: &PathPart, b: &PathPart) -> (r: bool)
    ensures
        r == (a@ == b@),
{
    a.kind == b.kind && a.text == b.text
}

/// The components of `path` below `root`, or `None` where `path` does not
/// lie under `root`.
pub fn strip_root(path: &Vec<PathPart>, root: &Vec<PathPart>) -> (r: Option<Vec<PathPart>>)
    ensures
        match r {
            Some(v) => relative_to(path_view(path@), path_view(root@)) == Some(path_view(v@)),
            None => relative_to(path_view(path@), path_view(root@)) is None,
        },
{
    let ghost pv = path_view(path@);
    let ghost rv = path_view(root@);
    if root.len() > path.len() {
        return None;
    }
    let mut i: usize = 0;
    while i < root.len()
        invariant
            i <= root.len(),
            root.len() <= path.len(),
            pv == path_view(path@),
            rv == path_view(root@),
            pv.subrange(0, i as int) == rv.subrange(0, i as int),
        decreases root.len() - i,
    {
        if !same_part(&path[i], &root[i]) {
            assert(pv.subrange(0, rv.len() as int)[i as int] != rv[i as int]);
            return None;
        }
        i = i + 1;
        assert(pv.subrange(0, i as int) =~= rv.subrange(0, i as int));
    }
    assert(rv.subrange(0, i as int) =~= rv);
    let mut rest: Vec<PathPart> = Vec::new();
    let mut j: usize = root.len();
    while j < path.len()
        invariant
            root.len() <= j <= path.len(),
            pv == path_view(path@),
            rest.len() == j - root.len(),
            path_view(rest@) == pv.subrange(root.len() as int, j as int),
        decreases path.len() - j,
    {
        let ghost before = rest@;
        rest.push(PathPart { kind: path[j].kind, text: path[j].text.clone() });
        assert(rest@[rest.len() - 1]@ == pv[j as int]);
        assert(rest@.subrange(0, rest.len() - 1) =~= before);
        j = j + 1;
        assert(path_view(rest@) =~= pv.subrange(root.len() as int, j as int));
    }
    Some(rest)
}


/// The directory of the first tree that receives quarantined files.
pub open spec fn deleted_dir(root0: Seq<(PartKind, Seq<char>)>) -> Seq<(PartKind, Seq<char>)> {
    root0.push((PartKind::Normal, "deleted"@))
}

/// The `deleted` directory under the first tree's root.
pub fn quarantine_dir(root0: &Vec<PathPart>) -> (r: Vec<PathPart>)
    ensures
        path_view(r@) == deleted_dir(path_view(root0@)),
{
    let empty: Vec<PathPart> = Vec::new();
    let mut r = joined(root0, &empty);
    let ghost before = r@;
    r.push(PathPart { kind: PartKind::Normal, text: String::from_str("deleted") });
    assert(path_view(r@) =~= deleted_dir(path_view(root0@)));
    r
}

/// A new path: the components of `a`, then those of `b`.
fn joined(a: &Vec<PathPart>, b: &Vec<PathPart>) -> (r: Vec<PathPart>)
    ensures
        r@ == a@ + b@,
{
    let mut r: Vec<PathPart> = Vec::new();
    let mut i: usize = 0;
    while i < a.len()
        invariant
            i <= a.len(),
            r@ == a@.subrange(0, i as int),
        decreases a.len() - i,
    {
        r.push(copy_part(&a[i]));
        i = i + 1;
        assert(r@ =~= a@.subrange(0, i as int));
    }
    let mut j: usize = 0;
    while j < b.len()
        invariant
            j <= b.len(),
            i == a.len(),
            r@ == a@ + b@.subrange(0, j as int),
        decreases b.len() - j,
    {
        r.push(copy_part(&b[j]));
        j = j + 1;
        assert(r@ =~= a@ + b@.subrange(0, j as int));
    }
    assert(b@.subrange(0, j as int) =~= b@);
    r
}

/// One planned move of a first-tree file into the `deleted` directory. Where
/// `counterpart` is set, the move is made only if that path exists.
#[derive(Debug)]
pub struct MoveStep {
    pub source: Vec<PathPart>,
    pub target: Vec<PathPart>,
    pub counterpart: Option<Vec<PathPart>>,
}

pub open spec fn step_view(m: MoveStep) -> (Seq<(PartKind, Seq<char>)>, Seq<(PartKind, Seq<char>)>, Option<Seq<(PartKind, Seq<char>)>>) {
    (path_view(m.source@), path_view(m.target@), match m.counterpart {
        Some(c) => Some(path_view(c@)),
        None => None,
    })
}

/// The move planned for one first-tree path: none where it does not lie under
/// the first root; else from the path to the `deleted` directory, under its
/// sanitized relative path, checked (unless forced) against the same relative
/// path under the second root.
pub open spec fn planned_move(
    p: Seq<(PartKind, Seq<char>)>,
    root0: Seq<(PartKind, Seq<char>)>,
    root1: Seq<(PartKind, Seq<char>)>,
    force: bool,
) -> Seq<(Seq<(PartKind, Seq<char>)>, Seq<(PartKind, Seq<char>)>, Option<Seq<(PartKind, Seq<char>)>>)> {
    match relative_to(p, root0) {
        Some(rel) => seq![(p, deleted_dir(root0) + sanitized_path(rel), if force { None } else { Some(root1 + rel) })],
        None => Seq::empty(),
    }
}

/// The moves planned for a list of paths, in order.
pub open spec fn planned_moves(
    ps: Seq<Seq<(PartKind, Seq<char>)>>,
    root0: Seq<(PartKind, Seq<char>)>,
    root1: Seq<(PartKind, Seq<char>)>,
    force: bool,
) -> Seq<(Seq<(PartKind, Seq<char>)>, Seq<(PartKind, Seq<char>)>, Option<Seq<(PartKind, Seq<char>)>>)>
    decreases ps.len(),
{
    if ps.len() == 0 {
        Seq::empty()
    } else {
        planned_moves(ps.drop_last(), root0, root1, force) + planned_move(ps.last(), root0, root1, force)
    }
}

/// The first-tree paths of each group, one list after the other.
pub open spec fn first_tree_paths(ds: Seq<DuplicateGroup>) -> Seq<Seq<(PartKind, Seq<char>)>>
    decreases ds.len(),
{
    if ds.len() == 0 {
        Seq::empty()
    } else {
        first_tree_paths(ds.drop_last()) + Seq::new(ds.last().first@.len(), |i: int| path_view(ds.last().first@[i]@))
    }
}

/// One planned move for a path, if it lies under the first root.
fn plan_one(p: &Vec<PathPart>, root0: &Vec<PathPart>, root1: &Vec<PathPart>, force: bool) -> (r: Option<MoveStep>)
    ensures
        match r {
            Some(m) => planned_move(path_view(p@), path_view(root0@), path_view(root1@), force) == seq![step_view(m)],
            None => planned_move(path_view(p@), path_view(root0@), path_view(root1@), force) == Seq::<(Seq<(PartKind, Seq<char>)>, Seq<(PartKind, Seq<char>)>, Option<Seq<(PartKind, Seq<char>)>>)>::empty(),
        },
{
    match strip_root(p, root0) {
        None => None,
        Some(rel) => {
            let dir = quarantine_dir(root0);
            let clean = sanitize_path(&rel);
            let target = joined(&dir, &clean);
            assert(path_view(target@) =~= path_view(dir@) + path_view(clean@));
            let counterpart = if force {
                None
            } else {
                let c = joined(root1, &rel);
                assert(path_view(c@) =~= path_view(root1@) + path_view(rel@));
                Some(c)
            };
            let source = joined(p, &Vec::new());
            assert(source@ =~= p@);
            Some(MoveStep { source, target, counterpart })
        },
    }
}

/// Plans the quarantine pass: for each group, for each first-tree member that
/// lies under the first root, one move into the `deleted` directory. In normal
/// mode each move carries the second-tree path it is checked against; a forced
/// pass checks nothing.
pub fn plan_moves(groups: &Vec<DuplicateGroup>, root0: &Vec<PathPart>, root1: &Vec<PathPart>, force: bool) -> (out: Vec<MoveStep>)
    ensures
        out@.map_values(|m: MoveStep| step_view(m)) == planned_moves(first_tree_paths(groups@), path_view(root0@), path_view(root1@), force),
{
    let ghost r0 = path_view(root0@);
    let ghost r1 = path_view(root1@);
    let mut out: Vec<MoveStep> = Vec::new();
    let mut t: usize = 0;
    while t < groups.len()
        invariant
            t <= groups.len(),
            r0 == path_view(root0@),
            r1 == path_view(root1@),
            out@.map_values(|m: MoveStep| step_view(m)) == planned_moves(first_tree_paths(groups@.subrange(0, t as int)), r0, r1, force),
        decreases groups.len() - t,
    {
        let ghost done = first_tree_paths(groups@.subrange(0, t as int));
        assert(groups@.subrange(0, t + 1).drop_last() =~= groups@.subrange(0, t as int));
        let g = &groups[t];
        let ghost gp = Seq::new(g.first.len() as nat, |i: int| path_view(g.first@[i]@));
        let mut i: usize = 0;
        while i < g.first.len()
            invariant
                i <= g.first.len(),
                g == groups@[t as int],
                r0 == path_view(root0@),
                r1 == path_view(root1@),
                gp == Seq::new(g.first.len() as nat, |i: int| path_view(g.first@[i]@)),
                out@.map_values(|m: MoveStep| step_view(m)) == planned_moves(done + gp.subrange(0, i as int), r0, r1, force),
            decreases g.first.len() - i,
        {
            let ghost ps1 = done + gp.subrange(0, i + 1);
            assert(ps1.drop_last() =~= done + gp.subrange(0, i as int));
            assert(ps1.last() == path_view(g.first@[i as int]@));
            let ghost before = out@;
            match plan_one(&g.first[i], root0, root1, force) {
                Some(m) => {
                    out.push(m);
                    assert(out@.map_values(|m: MoveStep| step_view(m)) =~= before.map_values(|m: MoveStep| step_view(m)) + planned_move(ps1.last(), r0, r1, force));
                },
                None => {},
            }
            i = i + 1;
        }
        assert(gp.subrange(0, i as int) =~= gp);
        assert(first_tree_paths(groups@.subrange(0, t + 1)) =~= done + gp);
        t = t + 1;
    }
    assert(groups@.subrange(0, t as int) =~= groups@);
    out
}

/// Whether a planned move is made, given whether its counterpart exists.
pub fn should_move(step: &MoveStep, counterpart_exists: bool) -> (r: bool)
    ensures
        r == (step.counterpart is None || counterpart_exists),
{
    step.counterpart.is_none() || counterpart_exists
}


/// In normal mode no file is moved unchecked: every planned move carries, as
/// its counterpart, the source's relative path under the second root, so a
/// source whose relative path has no file under the second root stays.
pub proof fn lemma_normal_moves_need_counterpart(
    ps: Seq<Seq<(PartKind, Seq<char>)>>,
    root0: Seq<(PartKind, Seq<char>)>,
    root1: Seq<(PartKind, Seq<char>)>,
)
    ensures
        forall|k: int| 0 <= k < planned_moves(ps, root0, root1, false).len() ==> {
            let m = #[trigger] planned_moves(ps, root0, root1, false)[k];
            &&& relative_to(m.0, root0) is Some
            &&& m.2 == Some(root1 + relative_to(m.0, root0)->0)
        },
    decreases ps.len(),
{
    if ps.len() > 0 {
        lemma_normal_moves_need_counterpart(ps.drop_last(), root0, root1);
        let prev = planned_moves(ps.drop_last(), root0, root1, false);
        let all = planned_moves(ps, root0, root1, false);
        assert forall|k: int| 0 <= k < all.len() implies {
            let m = #[trigger] all[k];
            &&& relative_to(m.0, root0) is Some
            &&& m.2 == Some(root1 + relative_to(m.0, root0)->0)
        } by {
            if k < prev.len() {
                assert(all[k] == prev[k]);
            }
        }
    }
}

/// A forced pass plans an unchecked move for every first-tree path that lies
/// under the first root.
pub proof fn lemma_force_moves_every_member(
    ps: Seq<Seq<(PartKind, Seq<char>)>>,
    root0: Seq<(PartKind, Seq<char>)>,
    root1: Seq<(PartKind, Seq<char>)>,
)
    ensures
        forall|i: int| 0 <= i < ps.len() && (#[trigger] relative_to(ps[i], root0)) is Some ==> exists|k: int|
            0 <= k < planned_moves(ps, root0, root1, true).len()
            && (#[trigger] planned_moves(ps, root0, root1, true)[k]).0 == ps[i]
            && planned_moves(ps, root0, root1, true)[k].2 is None,
    decreases ps.len(),
{
    if ps.len() > 0 {
        lemma_force_moves_every_member(ps.drop_last(), root0, root1);
        let prev = planned_moves(ps.drop_last(), root0, root1, true);
        let all = planned_moves(ps, root0, root1, true);
        assert forall|i: int| 0 <= i < ps.len() && (#[trigger] relative_to(ps[i], root0)) is Some implies exists|k: int|
            0 <= k < all.len() && (#[trigger] all[k]).0 == ps[i] && all[k].2 is None by {
            if i < ps.len() - 1 {
                assert(ps.drop_last()[i] == ps[i]);
                assert(relative_to(ps.drop_last()[i], root0) is Some);
                let k = choose|k: int| 0 <= k < prev.len() && (#[trigger] prev[k]).0 == ps.drop_last()[i] && prev[k].2 is None;
                assert(all[k] == prev[k]);
            } else {
                assert(all[prev.len() as int] == planned_move(ps.last(), root0, root1, true)[0]);
            }
        }
    }
}


/// The prefix that lifts the length limit of paths on Windows.
pub open spec fn long_prefix() -> Seq<char> {
    seq!['\\', '\\', '?', '\\']
}

pub open spec fn has_long_prefix(s: Seq<char>) -> bool {
    s.len() >= 4 && s.subrange(0, 4) == long_prefix()
}

/// Paths longer than this many bytes need the long-path prefix on Windows.
pub const LONG_PATH_BYTES: usize = 260;

/// On Windows, a path longer than `LONG_PATH_BYTES` bytes gets the long-path
/// prefix, unless it has it already; anything else is returned as it is.
pub fn to_long_path(path: &str, windows: bool) -> (r: String)
    ensures
        r@ == if windows && path.len() > LONG_PATH_BYTES && !has_long_prefix(path@) {
            long_prefix() + path@
        } else {
            path@
        },
{
    let prefix = "\\\\?\\";
    proof {
        reveal_strlit("\\\\?\\");
    }
    assert(prefix@ =~= long_prefix());
    if windows && path.len() > LONG_PATH_BYTES {
        let n = path.unicode_len();
        let prefixed = n >= 4 && path.get_char(0) == '\\' && path.get_char(1) == '\\' && path.get_char(2) == '?'
            && path.get_char(3) == '\\';
        assert(prefixed == has_long_prefix(path@)) by {
            if n >= 4 {
                assert(prefixed ==> path@.subrange(0, 4) =~= long_prefix());
                assert(path@.subrange(0, 4) == long_prefix() ==> prefixed) by {
                    if path@.subrange(0, 4) == long_prefix() {
                        assert(path@[0] == path@.subrange(0, 4)[0]);
                        assert(path@[1] == path@.subrange(0, 4)[1]);
                        assert(path@[2] == path@.subrange(0, 4)[2]);
                        assert(path@[3] == path@.subrange(0, 4)[3]);
                    }
                }
            }
        }
        if !prefixed {
            return String::from_str(prefix).concat(path);
        }
    }
    String::from_str(path)
}

} // verus!
