use vstd::prelude::*;

verus! {

/// What a path component is, as the host's path syntax distinguishes it.
#[derive(Clone, Copy, Debug, PartialEq, Eq, Structural)]
pub enum PartKind {
    /// A drive or UNC prefix (`C:`).
    Prefix,
    /// The root separator.
    Root,
    /// `.`
    Current,
    /// `..`
    Parent,
    /// An ordinary file or directory name.
    Normal,
}

/// One component of a path, with the text it is written as.
#[derive(Debug)]
pub struct PathPart {
    pub kind: PartKind,
    pub text: String,
}

impl View for PathPart {
    type V = (PartKind, Seq<char>);

    open spec fn view(&self) -> (PartKind, Seq<char>) {
        (self.kind, self.text@)
    }
}

/// The component-wise view of a path.
pub open spec fn path_view(p: Seq<PathPart>) -> Seq<(PartKind, Seq<char>)> {
    Seq::new(p.len(), |i: int| p[i]@)
}

/// One regular file found by a scan: where it is, how long it is, and which
/// of the two trees (origin 0 or 1) it was found in.
#[derive(Debug)]
pub struct FileRecord {
    pub path: Vec<PathPart>,
    pub size: u64,
    pub origin: usize,
}

/// Every record names origin 0 or origin 1.
pub open spec fn valid_records(rs: Seq<FileRecord>) -> bool {
    forall|i: int| 0 <= i < rs.len() ==> #[trigger] rs[i].origin < 2
}

/// Every member index points into the record list.
pub open spec fn indices_in(rs: Seq<FileRecord>, g: Seq<usize>) -> bool {
    forall|p: int| 0 <= p < g.len() ==> #[trigger] g[p] < rs.len()
}

/// The final component's text when it is an ordinary name, else empty.
pub open spec fn name_of(path: Seq<PathPart>) -> Seq<char> {
    if path.len() > 0 && path.last().kind == PartKind::Normal {
        path.last().text@
    } else {
        Seq::empty()
    }
}

/// The group (indices into `rs`) has a member of the given origin.
pub open spec fn has_origin(rs: Seq<FileRecord>, g: Seq<usize>, origin: usize) -> bool {
    exists|p: int| 0 <= p < g.len() && #[trigger] rs[g[p] as int].origin == origin
}

/// The group has members from both trees.
pub open spec fn has_both(rs: Seq<FileRecord>, g: Seq<usize>) -> bool {
    has_origin(rs, g, 0) && has_origin(rs, g, 1)
}

/// A group is reported when it has two members or more and, under
/// bidirectional mode, members from both trees.
pub open spec fn keeps(rs: Seq<FileRecord>, g: Seq<usize>, bidirectional: bool) -> bool {
    g.len() >= 2 && (bidirectional ==> has_both(rs, g))
}

/// Whether the group holds files of both trees.
pub fn has_files_from_both_folders(records: &Vec<FileRecord>, group: &Vec<usize>) -> (r: bool)
    requires
        valid_records(records@),
        indices_in(records@, group@),
    ensures
        r == has_both(records@, group@),
{
    let mut found0 = false;
    let mut found1 = false;
    let mut p: usize = 0;
    while p < group.len()
        invariant
            valid_records(records@),
            indices_in(records@, group@),
            p <= group.len(),
            !(found0 && found1),
            found0 == exists|q: int| 0 <= q < p && #[trigger] records@[group@[q] as int].origin == 0,
            found1 == exists|q: int| 0 <= q < p && #[trigger] records@[group@[q] as int].origin == 1,
        decreases group.len() - p,
    {
        let i = group[p];
        if records[i].origin == 0 {
            found0 = true;
        } else {
            found1 = true;
        }
        proof {
            assert(records@[group@[p as int] as int].origin < 2);
        }
        p = p + 1;
        if found0 && found1 {
            return true;
        }
    }
    proof {
        if has_both(records@, group@) {
            let q0 = choose|q: int| 0 <= q < group@.len() && #[trigger] records@[group@[q] as int].origin == 0;
            let q1 = choose|q: int| 0 <= q < group@.len() && #[trigger] records@[group@[q] as int].origin == 1;
            assert(found0 && found1);
        }
    }
    false
}


/// The paths of the group's members from the given tree, in group order.
pub open spec fn origin_paths(rs: Seq<FileRecord>, g: Seq<usize>, origin: usize) -> Seq<Seq<PathPart>>
    decreases g.len(),
{
    if g.len() == 0 {
        Seq::empty()
    } else {
        let s = origin_paths(rs, g.drop_last(), origin);
        if rs[g.last() as int].origin == origin {
            s.push(rs[g.last() as int].path@)
        } else {
            s
        }
    }
}

/// The plain view of a list of paths.
pub open spec fn paths_view(ps: Seq<Vec<PathPart>>) -> Seq<Seq<PathPart>> {
    Seq::new(ps.len(), |i: int| ps[i]@)
}

/// A reported set of files with equal content (or equal size and name, as
/// the configuration asks): their shared byte length, and the member paths of
/// each tree in the order the scans listed them.
#[derive(Debug)]
pub struct DuplicateGroup {
    pub size: u64,
    pub first: Vec<Vec<PathPart>>,
    pub second: Vec<Vec<PathPart>>,
}

/// An equal copy of a path component.
pub fn copy_part(p: &PathPart) -> (r: PathPart)
    ensures
        r == *p,
{
    PathPart { kind: p.kind, text: p.text.clone() }
}

/// An equal copy of a path.
pub fn copy_path(p: &Vec<PathPart>) -> (r: Vec<PathPart>)
    ensures
        r@ == p@,
{
    let mut r: Vec<PathPart> = Vec::new();
    let mut i: usize = 0;
    while i < p.len()
        invariant
            i <= p.len(),
            r@ == p@.subrange(0, i as int),
        decreases p.len() - i,
    {
        r.push(copy_part(&p[i]));
        i = i + 1;
        assert(r@ =~= p@.subrange(0, i as int));
    }
    assert(p@.subrange(0, i as int) =~= p@);
    r
}

/// Builds the reported form of a group of record indices.
pub fn to_duplicate_group(records: &Vec<FileRecord>, group: &Vec<usize>) -> (d: DuplicateGroup)
    requires
        valid_records(records@),
        indices_in(records@, group@),
        group.len() >= 1,
    ensures
        d.size == records@[group@[0] as int].size,
        paths_view(d.first@) == origin_paths(records@, group@, 0),
        paths_view(d.second@) == origin_paths(records@, group@, 1),
{
    let mut first: Vec<Vec<PathPart>> = Vec::new();
    let mut second: Vec<Vec<PathPart>> = Vec::new();
    let mut p: usize = 0;
    while p < group.len()
        invariant
            p <= group.len(),
            valid_records(records@),
            indices_in(records@, group@),
            paths_view(first@) == origin_paths(records@, group@.subrange(0, p as int), 0),
            paths_view(second@) == origin_paths(records@, group@.subrange(0, p as int), 1),
        decreases group.len() - p,
    {
        let ghost g1 = group@.subrange(0, p + 1);
        assert(g1.drop_last() =~= group@.subrange(0, p as int));
        assert(g1.last() == group@[p as int]);
        let i = group[p];
        assert(records@[i as int].origin < 2);
        if records[i].origin == 0 {
            first.push(copy_path(&records[i].path));
        } else {
            second.push(copy_path(&records[i].path));
        }
        assert(paths_view(first@) =~= origin_paths(records@, g1, 0));
        assert(paths_view(second@) =~= origin_paths(records@, g1, 1));
        p = p + 1;
    }
    assert(group@.subrange(0, p as int) =~= group@);
    DuplicateGroup { size: records[group[0]].size, first, second }
}

/// Builds the reported form of every group.
pub fn emit_groups(records: &Vec<FileRecord>, groups: &Vec<Vec<usize>>) -> (out: Vec<DuplicateGroup>)
    requires
        valid_records(records@),
        forall|t: int| 0 <= t < groups.len() ==> indices_in(records@, #[trigger] groups@[t]@),
        forall|t: int| 0 <= t < groups.len() ==> #[trigger] groups@[t].len() >= 1,
    ensures
        out.len() == groups.len(),
        forall|t: int| 0 <= t < groups.len() ==> {
            &&& (#[trigger] out@[t]).size == records@[groups@[t]@[0] as int].size
            &&& paths_view(out@[t].first@) == origin_paths(records@, groups@[t]@, 0)
            &&& paths_view(out@[t].second@) == origin_paths(records@, groups@[t]@, 1)
        },
{
    let mut out: Vec<DuplicateGroup> = Vec::new();
    let mut t: usize = 0;
    while t < groups.len()
        invariant
            t <= groups.len(),
            out.len() == t,
            valid_records(records@),
            forall|j: int| 0 <= j < groups.len() ==> indices_in(records@, #[trigger] groups@[j]@),
            forall|j: int| 0 <= j < groups.len() ==> #[trigger] groups@[j].len() >= 1,
            forall|j: int| 0 <= j < t ==> {
                &&& (#[trigger] out@[j]).size == records@[groups@[j]@[0] as int].size
                &&& paths_view(out@[j].first@) == origin_paths(records@, groups@[j]@, 0)
                &&& paths_view(out@[j].second@) == origin_paths(records@, groups@[j]@, 1)
            },
        decreases groups.len() - t,
    {
        let d = to_duplicate_group(records, &groups[t]);
        out.push(d);
        t = t + 1;
    }
    out
}

} // verus!
