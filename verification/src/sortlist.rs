//! The file listing: the virtual file system flattened into rows, folders
//! followed by what they hold, filtered and collapsed as the user asks.
use vstd::prelude::*;
use vstd::string::*;
use rayon::iter::{IntoParallelRefIterator, ParallelIterator};
use crate::paths::{pathdiff, pathdiff_spec, is_descendant_path, is_descendant_spec, std_path_extension, path_extension};
use crate::text::{str_eq, strings_view, contains_str, without_str};
use crate::vfs::{VfsNode, VfsTree, NodeView, FileView};

verus! {

/// Which files the listing shows.
#[derive(PartialEq, Eq, Structural, Clone, Copy, Debug)]
pub enum VFSSortType {
    All,
    /// Only files that more than one mod supplies.
    Conflicts,
    /// Only files with DLTX patches.
    DLTXPatches,
}

/// How the file listing is shown.
pub struct VFSSort {
    pub sort_type: VFSSortType,
    /// The folders shown open.
    pub expanded: Vec<String>,
    pub query: String,
}

/// One row of the file listing.
pub struct VFSSortListEntry {
    /// The extension of a file (`file` when it has none), or `folder`.
    pub file_type: String,
    /// Whether a folder is shown open.
    pub extended: bool,
    pub path: String,
    /// The name shown: the path relative to the parent folder's path.
    pub name: String,
    /// How deep the row is nested.
    pub down: i64,
    pub conflicts: i64,
    pub conflicts_active: i64,
    pub dltx_patches: i64,
    pub dltx_patches_active: i64,
}

/// What a row shows.
pub struct RowView {
    pub file_type: Seq<char>,
    pub extended: bool,
    pub path: Seq<char>,
    pub name: Seq<char>,
    pub down: int,
    pub conflicts: int,
    pub conflicts_active: int,
    pub dltx_patches: int,
    pub dltx_patches_active: int,
}

impl VFSSortListEntry {
    pub open spec fn view(&self) -> RowView {
        RowView {
            file_type: self.file_type@,
            extended: self.extended,
            path: self.path@,
            name: self.name@,
            down: self.down as int,
            conflicts: self.conflicts as int,
            conflicts_active: self.conflicts_active as int,
            dltx_patches: self.dltx_patches as int,
            dltx_patches_active: self.dltx_patches_active as int,
        }
    }
}

pub open spec fn rows_view(v: Seq<VFSSortListEntry>) -> Seq<RowView> {
    v.map_values(|r: VFSSortListEntry| r@)
}

/// A count as an `i64` (0 where it does not fit, as `try_into` then
/// `unwrap_or(0)` gives).
pub open spec fn count_of(n: nat) -> int {
    if n <= i64::MAX {
        n as int
    } else {
        0
    }
}

/// The row of a file.
pub open spec fn file_row(key: Seq<char>, current: Seq<char>, down: int, f: FileView) -> RowView {
    let c = count_of(f.paths.len());
    let conflicts = if c == 1 { 0 } else { c };
    let d = count_of(f.patches.len());
    RowView {
        file_type: match std_path_extension(key) {
            Some(e) => e,
            None => "file"@,
        },
        extended: false,
        path: key,
        name: pathdiff_spec(key, current),
        down: down,
        conflicts: conflicts,
        conflicts_active: conflicts,
        dltx_patches: d,
        dltx_patches_active: d,
    }
}

/// The row of a folder.
pub open spec fn folder_row(key: Seq<char>, current: Seq<char>, down: int, extended: bool) -> RowView {
    RowView {
        file_type: "folder"@,
        extended: extended,
        path: key,
        name: pathdiff_spec(key, current),
        down: down,
        conflicts: 0,
        conflicts_active: 0,
        dltx_patches: 0,
        dltx_patches_active: 0,
    }
}

/// The rows of the entries of a folder whose path is `current`, at depth
/// `down`: each entry in name order, a folder followed by its own rows.
pub open spec fn tree_rows(s: Seq<(Seq<char>, NodeView)>, expanded: Seq<Seq<char>>, current: Seq<char>, down: int) -> Seq<RowView>
    decreases s,
{
    if s.len() == 0 {
        Seq::empty()
    } else {
        tree_rows(s.subrange(0, s.len() - 1), expanded, current, down) + entry_rows(
            s[s.len() - 1].0,
            s[s.len() - 1].1,
            expanded,
            current,
            down,
        )
    }
}

/// The rows of one entry.
pub open spec fn entry_rows(k: Seq<char>, n: NodeView, expanded: Seq<Seq<char>>, current: Seq<char>, down: int) -> Seq<RowView>
    decreases n,
{
    match n {
        NodeView::File(f) => seq![file_row(k, current, down, f)],
        NodeView::Dir(c) => seq![folder_row(k, current, down, expanded.contains(k))] + tree_rows(
            c,
            expanded,
            k,
            down + 1,
        ),
    }
}

/// How many folders deep the entries go.
pub open spec fn tree_depth(s: Seq<(Seq<char>, NodeView)>) -> nat
    decreases s,
{
    if s.len() == 0 {
        0
    } else {
        let a = tree_depth(s.subrange(0, s.len() - 1));
        let b = node_depth(s[s.len() - 1].1);
        if a < b {
            b
        } else {
            a
        }
    }
}

pub open spec fn node_depth(n: NodeView) -> nat
    decreases n,
{
    match n {
        NodeView::File(_) => 0,
        NodeView::Dir(c) => 1 + tree_depth(c),
    }
}

proof fn lemma_depth_bounds(s: Seq<(Seq<char>, NodeView)>)
    ensures
        forall|i: int| 0 <= i < s.len() ==> node_depth(#[trigger] s[i].1) <= tree_depth(s),
    decreases s.len(),
{
    if s.len() > 0 {
        let p = s.subrange(0, s.len() - 1);
        lemma_depth_bounds(p);
        assert forall|i: int| 0 <= i < s.len() implies node_depth(#[trigger] s[i].1) <= tree_depth(s) by {
            if i < s.len() - 1 {
                assert(s[i] == p[i]);
            }
        }
    }
}

fn count_i64(n: usize) -> (r: i64)
    ensures
        r as int == count_of(n as nat),
{
    let c = n as u64;
    if c <= 9223372036854775807u64 {
        c as i64
    } else {
        0
    }
}

/// The rows of the folder `vfsdata` (whose path is `current_path`, at depth
/// `current_down`): each entry in name order, a folder followed by the rows
/// of what it holds.
pub fn gen_vfs_sort_data_recursive(
    vfsdata: &VfsTree,
    vfssort: &VFSSort,
    current_path: &str,
    current_down: i64,
) -> (r: Vec<VFSSortListEntry>)
    requires
        current_down + tree_depth(vfsdata@) <= i64::MAX,
    ensures
        rows_view(r@) == tree_rows(vfsdata@, strings_view(vfssort.expanded@), current_path@, current_down as int),
    decreases vfsdata@,
{
    let ghost ex = strings_view(vfssort.expanded@);
    let entries = vfsdata.entries();
    let ghost s = vfsdata@;
    proof {
        lemma_depth_bounds(s);
    }
    let mut rows: Vec<VFSSortListEntry> = Vec::new();
    let n = entries.len();
    let mut i: usize = 0;
    assert(s.subrange(0, 0) =~= Seq::<(Seq<char>, NodeView)>::empty());
    while i < n
        invariant
            n == entries@.len(),
            n == s.len(),
            s == vfsdata@,
            ex == strings_view(vfssort.expanded@),
            i <= n,
            current_down + tree_depth(s) <= i64::MAX,
            forall|j: int| 0 <= j < n ==> (#[trigger] entries@[j]).0@ == s[j].0 && entries@[j].1@ == s[j].1,
            forall|j: int| 0 <= j < n ==> node_depth(#[trigger] s[j].1) <= tree_depth(s),
            rows_view(rows@) == tree_rows(s.subrange(0, i as int), ex, current_path@, current_down as int),
        decreases n - i,
    {
        let key = &entries[i].0;
        let name = pathdiff(key.as_str(), current_path);
        let ghost before = rows@;
        proof {
            let p = s.subrange(0, i + 1);
            assert(p.subrange(0, p.len() - 1) =~= s.subrange(0, i as int));
            assert(p[p.len() - 1] == s[i as int]);
        }
        match &entries[i].1 {
            VfsNode::File(f) => {
                let file_type = match path_extension(key.as_str()) {
                    Some(e) => e,
                    None => String::from_str("file"),
                };
                let mut conflicts = count_i64(f.origin_count());
                if conflicts == 1 {
                    conflicts = 0;
                }
                let dltx = count_i64(f.dltx_patches.len());
                let row = VFSSortListEntry {
                    path: key.clone(),
                    name,
                    down: current_down,
                    extended: false,
                    file_type,
                    conflicts,
                    conflicts_active: conflicts,
                    dltx_patches: dltx,
                    dltx_patches_active: dltx,
                };
                rows.push(row);
                proof {
                    assert(s[i as int].1 == NodeView::File(f@));
                    assert(f@.patches.len() == f.dltx_patches@.len());
                    assert(row@ == file_row(s[i as int].0, current_path@, current_down as int, f@));
                    assert(rows_view(rows@) =~= rows_view(before).push(row@));
                    assert(entry_rows(s[i as int].0, s[i as int].1, ex, current_path@, current_down as int)
                        == seq![row@]);
                    assert(rows_view(rows@) =~= rows_view(before) + entry_rows(s[i as int].0, s[i as int].1, ex, current_path@, current_down as int));
                }
            },
            VfsNode::Dir(t) => {
                let extended = contains_str(&vfssort.expanded, key.as_str());
                let row = VFSSortListEntry {
                    path: key.clone(),
                    name,
                    down: current_down,
                    extended,
                    file_type: String::from_str("folder"),
                    conflicts: 0,
                    conflicts_active: 0,
                    dltx_patches: 0,
                    dltx_patches_active: 0,
                };
                rows.push(row);
                proof {
                    assert(s[i as int].1 == NodeView::Dir(t@));
                    assert(node_depth(s[i as int].1) == 1 + tree_depth(t@));
                    assert(decreases_to!(s => s[i as int]));
                }
                let mut sub = gen_vfs_sort_data_recursive(t, vfssort, key.as_str(), current_down + 1);
                let ghost mid = rows@;
                let ghost subv = sub@;
                rows.append(&mut sub);
                proof {
                    assert(rows_view(mid) =~= rows_view(before).push(row@));
                    assert(rows_view(rows@) =~= rows_view(mid) + rows_view(subv));
                    assert(row@ == folder_row(s[i as int].0, current_path@, current_down as int, ex.contains(s[i as int].0)));
                    assert(entry_rows(s[i as int].0, s[i as int].1, ex, current_path@, current_down as int)
                        == seq![row@] + rows_view(subv));
                    assert(rows_view(rows@) =~= rows_view(before) + entry_rows(s[i as int].0, s[i as int].1, ex, current_path@, current_down as int));
                }
            },
        }
        proof {
            let p = s.subrange(0, i + 1);
            assert(tree_rows(p, ex, current_path@, current_down as int) == tree_rows(s.subrange(0, i as int), ex, current_path@, current_down as int)
                + entry_rows(s[i as int].0, s[i as int].1, ex, current_path@, current_down as int));
            assert(rows_view(rows@) =~= tree_rows(p, ex, current_path@, current_down as int));
        }
        i = i + 1;
    }
    proof {
        assert(s.subrange(0, n as int) =~= s);
    }
    rows
}

/// Whether a row stays when files are filtered: folders always do; files
/// do under `All`, under `Conflicts` when more than one mod supplies them,
/// under `DLTXPatches` when they have patches.
pub open spec fn keeps_row(r: RowView, t: VFSSortType) -> bool {
    r.file_type == "folder"@ || match t {
        VFSSortType::All => true,
        VFSSortType::Conflicts => r.conflicts != 0,
        VFSSortType::DLTXPatches => r.dltx_patches != 0,
    }
}

/// Drops the file rows the filter hides; folders and the order stay.
pub fn vfs_sort_data_prune_files(vfssortlist: &mut Vec<VFSSortListEntry>, vfssort: &VFSSort)
    ensures
        rows_view(final(vfssortlist)@) == rows_view(old(vfssortlist)@).filter(
            |r: RowView| keeps_row(r, vfssort.sort_type),
        ),
{
    let ghost keep = |r: RowView| keeps_row(r, vfssort.sort_type);
    let ghost o = rows_view(vfssortlist@);
    let n = vfssortlist.len();
    let mut i: usize = n;
    proof {
        assert(o.subrange(n as int, n as int).filter(keep) =~= Seq::<RowView>::empty()) by {
            reveal(Seq::filter);
        }
        assert(o.subrange(0, n as int) =~= o);
        assert(rows_view(vfssortlist@) =~= o.subrange(0, n as int) + o.subrange(n as int, n as int).filter(keep));
    }
    while i > 0
        invariant
            i <= n,
            n == o.len(),
            o == rows_view(old(vfssortlist)@),
            keep == (|r: RowView| keeps_row(r, vfssort.sort_type)),
            rows_view(vfssortlist@) == o.subrange(0, i as int) + o.subrange(i as int, n as int).filter(keep),
        decreases i,
    {
        i = i - 1;
        let ghost rest = o.subrange(i + 1, n as int);
        let ghost x = o[i as int];
        proof {
            assert(o.subrange(i as int, n as int) =~= seq![x] + rest);
            rest.lemma_filter_prepend(x, keep);
            assert(rows_view(vfssortlist@).len() >= i + 1);
            assert(rows_view(vfssortlist@)[i as int] == x);
        }
        let is_folder = str_eq(vfssortlist[i].file_type.as_str(), "folder");
        if !is_folder {
            let remove = match vfssort.sort_type {
                VFSSortType::All => false,
                VFSSortType::Conflicts => vfssortlist[i].conflicts == 0,
                VFSSortType::DLTXPatches => vfssortlist[i].dltx_patches == 0,
            };
            if remove {
                let ghost before = vfssortlist@;
                vfssortlist.remove(i);
                proof {
                    assert(!keep(x));
                    assert(rows_view(vfssortlist@) =~= rows_view(before).remove(i as int));
                    assert(rows_view(vfssortlist@) =~= o.subrange(0, i as int) + o.subrange(i as int, n as int).filter(keep));
                }
            } else {
                proof {
                    assert(keep(x));
                    assert(rows_view(vfssortlist@) =~= o.subrange(0, i as int) + o.subrange(i as int, n as int).filter(keep));
                }
            }
        } else {
            proof {
                assert(keep(x));
                assert(rows_view(vfssortlist@) =~= o.subrange(0, i as int) + o.subrange(i as int, n as int).filter(keep));
            }
        }
    }
    proof {
        assert(o.subrange(0, 0) =~= Seq::<RowView>::empty());
        assert(o.subrange(0, n as int) =~= o);
        assert(rows_view(vfssortlist@) =~= o.filter(keep));
    }
}

/// Collapsing and emptying folders, as done for the row at position `i`
/// and then for the rows before it, from the last row to the first: a
/// folder with no row below it goes unless all files are shown, and the
/// rows below a closed folder go.  `None` where a position is no longer
/// in the listing when its turn comes.
pub open spec fn prune_folders_run(s: Seq<RowView>, t: VFSSortType, i: int) -> Option<Seq<RowView>>
    decreases i + 1,
{
    if i < 0 {
        Some(s)
    } else if i >= s.len() {
        None
    } else {
        let e = s[i];
        if e.file_type != "folder"@ {
            prune_folders_run(s, t, i - 1)
        } else {
            let has_children = exists|j: int| 0 <= j < s.len() && is_descendant_spec(#[trigger] s[j].path, e.path);
            if t != VFSSortType::All && !has_children {
                prune_folders_run(s.remove(i), t, i - 1)
            } else if !e.extended {
                prune_folders_run(s.filter(|c: RowView| !is_descendant_spec(c.path, e.path)), t, i - 1)
            } else {
                prune_folders_run(s, t, i - 1)
            }
        }
    }
}

/// Whether some row lies below `ancestor`.
pub open spec fn some_row_below(rows: Seq<VFSSortListEntry>, ancestor: Seq<char>) -> bool {
    exists|j: int| 0 <= j < rows.len() && is_descendant_spec(#[trigger] rows[j].path@, ancestor)
}

/// rayon's `any` over the rows, asking `is_descendant_path` of each row's
/// path: whether some row lies below `ancestor`.
#[verifier::external_body]
fn any_below(rows: &Vec<VFSSortListEntry>, ancestor: &str) -> (r: bool)
    ensures
        r == some_row_below(rows@, ancestor@),
{
    rows.par_iter().any(|row| is_descendant_path(row.path.as_str(), ancestor))
}

/// A copy of a row.
pub fn clone_row(r: &VFSSortListEntry) -> (c: VFSSortListEntry)
    ensures
        c@ == r@,
{
    VFSSortListEntry {
        file_type: r.file_type.clone(),
        extended: r.extended,
        path: r.path.clone(),
        name: r.name.clone(),
        down: r.down,
        conflicts: r.conflicts,
        conflicts_active: r.conflicts_active,
        dltx_patches: r.dltx_patches,
        dltx_patches_active: r.dltx_patches_active,
    }
}

/// The rows that do not lie below `ancestor`.
fn rows_not_below(rows: &Vec<VFSSortListEntry>, ancestor: &str) -> (r: Vec<VFSSortListEntry>)
    ensures
        rows_view(r@) == rows_view(rows@).filter(|c: RowView| !is_descendant_spec(c.path, ancestor@)),
{
    let ghost keep = |c: RowView| !is_descendant_spec(c.path, ancestor@);
    let ghost o = rows_view(rows@);
    let mut out: Vec<VFSSortListEntry> = Vec::new();
    let n = rows.len();
    let mut i: usize = 0;
    proof {
        assert(o.subrange(0, 0).filter(keep) =~= Seq::<RowView>::empty()) by {
            reveal(Seq::filter);
        }
    }
    while i < n
        invariant
            n == rows@.len(),
            o == rows_view(rows@),
            i <= n,
            keep == (|c: RowView| !is_descendant_spec(c.path, ancestor@)),
            rows_view(out@) == o.subrange(0, i as int).filter(keep),
        decreases n - i,
    {
        proof {
            assert(o.subrange(0, i + 1) =~= o.subrange(0, i as int).push(o[i as int]));
            o.subrange(0, i as int).lemma_filter_push(o[i as int], keep);
        }
        if !is_descendant_path(rows[i].path.as_str(), ancestor) {
            let c = clone_row(&rows[i]);
            let ghost before = out@;
            out.push(c);
            proof {
                assert(rows_view(out@) =~= rows_view(before).push(c@));
            }
        }
        i = i + 1;
    }
    proof {
        assert(o.subrange(0, n as int) =~= o);
    }
    out
}

/// Collapses and empties folders as `prune_folders_run` says, or gives
/// `None` where that run fails.
pub fn prune_folders_checked(rows: Vec<VFSSortListEntry>, sort_type: VFSSortType) -> (r: Option<Vec<VFSSortListEntry>>)
    ensures
        r is None <==> prune_folders_run(rows_view(rows@), sort_type, rows@.len() - 1) is None,
        r is Some ==> prune_folders_run(rows_view(rows@), sort_type, rows@.len() - 1) == Some(rows_view(r->0@)),
{
    let ghost target = prune_folders_run(rows_view(rows@), sort_type, rows@.len() - 1);
    let mut list = rows;
    let mut k: usize = list.len();
    while k > 0
        invariant
            prune_folders_run(rows_view(list@), sort_type, k - 1) == target,
            target == prune_folders_run(rows_view(rows@), sort_type, rows@.len() - 1),
        decreases k,
    {
        let i = k - 1;
        let ghost st = rows_view(list@);
        if i >= list.len() {
            proof {
                assert(prune_folders_run(st, sort_type, i as int) is None);
                assert(target is None);
                assert(prune_folders_run(rows_view(rows@), sort_type, rows@.len() - 1) is None);
            }
            return None;
        }
        let entry = clone_row(&list[i]);
        proof {
            assert(st[i as int] == entry@);
        }
        if !str_eq(entry.file_type.as_str(), "folder") {
        } else {
            let has_children = any_below(&list, entry.path.as_str());
            proof {
                assert(has_children == exists|j: int| 0 <= j < st.len() && is_descendant_spec(#[trigger] st[j].path, entry@.path)) by {
                    if has_children {
                        let j = choose|j: int| 0 <= j < list@.len() && is_descendant_spec(#[trigger] list@[j].path@, entry.path@);
                        assert(st[j].path == list@[j].path@);
                    }
                    if exists|j: int| 0 <= j < st.len() && is_descendant_spec(#[trigger] st[j].path, entry@.path) {
                        let j = choose|j: int| 0 <= j < st.len() && is_descendant_spec(#[trigger] st[j].path, entry@.path);
                        assert(st[j].path == list@[j].path@);
                    }
                }
            }
            if sort_type != VFSSortType::All && !has_children {
                let ghost before = list@;
                list.remove(i);
                proof {
                    assert(rows_view(list@) =~= rows_view(before).remove(i as int));
                }
            } else if !entry.extended {
                list = rows_not_below(&list, entry.path.as_str());
            }
        }
        k = k - 1;
    }
    Some(list)
}

/// Collapses and empties folders: going from the last row to the first, a
/// folder with no row below it goes unless all files are shown, and the
/// rows below a folder that is not open go.  The listing must be one on
/// which this never looks at a position past its end.
pub fn vfs_sort_data_prune_folders(vfssortlist: &mut Vec<VFSSortListEntry>, vfssort: &VFSSort)
    requires
        prune_folders_run(rows_view(old(vfssortlist)@), vfssort.sort_type, old(vfssortlist)@.len() - 1) is Some,
    ensures
        Some(rows_view(final(vfssortlist)@)) == prune_folders_run(
            rows_view(old(vfssortlist)@),
            vfssort.sort_type,
            old(vfssortlist)@.len() - 1,
        ),
{
    let mut rows: Vec<VFSSortListEntry> = Vec::new();
    std::mem::swap(vfssortlist, &mut rows);
    match prune_folders_checked(rows, vfssort.sort_type) {
        Some(v) => {
            *vfssortlist = v;
        },
        None => {},
    }
}

/// Whether the entries go no more than `limit` folders deep.
#[verifier::spinoff_prover]
fn depth_within(tree: &VfsTree, limit: u64) -> (r: bool)
    ensures
        r == (tree_depth(tree@) <= limit),
    decreases tree@,
{
    let entries = tree.entries();
    let ghost s = tree@;
    let n = entries.len();
    let mut i: usize = 0;
    proof {
        lemma_depth_bounds(s);
    }
    while i < n
        invariant
            n == entries@.len(),
            n == s.len(),
            s == tree@,
            i <= n,
            forall|j: int| 0 <= j < n ==> (#[trigger] entries@[j]).0@ == s[j].0 && entries@[j].1@ == s[j].1,
            tree_depth(s.subrange(0, i as int)) <= limit,
        decreases n - i,
    {
        proof {
            let p = s.subrange(0, i + 1);
            assert(p.subrange(0, p.len() - 1) =~= s.subrange(0, i as int));
            assert(p[p.len() - 1] == s[i as int]);
        }
        match &entries[i].1 {
            VfsNode::File(_) => {},
            VfsNode::Dir(t) => {
                proof {
                    assert(s[i as int].1 == NodeView::Dir(t@));
                    assert(decreases_to!(s => s[i as int]));
                }
                if limit == 0 {
                    proof {
                        lemma_depth_bounds(s);
                    }
                    return false;
                }
                proof {
                    assert(decreases_to!(s => s[i as int]));
                    assert(decreases_to!(s[i as int] => s[i as int].1));
                    assert(s[i as int].1->Dir_0 == t@);
                    assert(decreases_to!(s[i as int].1 => s[i as int].1->Dir_0));
                }
                if !depth_within(t, limit - 1) {
                    proof {
                        lemma_depth_bounds(s);
                    }
                    return false;
                }
            },
        }
        i = i + 1;
    }
    proof {
        assert(s.subrange(0, n as int) =~= s);
    }
    true
}

/// What the file listing shows of the tree: its rows, file rows filtered,
/// then folders emptied and collapsed.
pub open spec fn sort_data_spec(tree: Seq<(Seq<char>, NodeView)>, sort_type: VFSSortType, expanded: Seq<Seq<char>>) -> Option<Seq<RowView>> {
    let rows = tree_rows(tree, expanded, Seq::empty(), 0).filter(|r: RowView| keeps_row(r, sort_type));
    prune_folders_run(rows, sort_type, rows.len() - 1)
}

/// The file listing of the tree: its rows, file rows the filter hides
/// dropped, then folders emptied and collapsed.  `None` where building it
/// would fail: the tree is nested deeper than a row's depth can count, or
/// collapsing looks at a position past the end of the listing.
pub fn gen_vfs_sort_data(vfsdata: &VfsTree, vfssort: &VFSSort) -> (r: Option<Vec<VFSSortListEntry>>)
    ensures
        tree_depth(vfsdata@) > i64::MAX ==> r is None,
        tree_depth(vfsdata@) <= i64::MAX ==> match r {
            Some(v) => sort_data_spec(vfsdata@, vfssort.sort_type, strings_view(vfssort.expanded@)) == Some(rows_view(v@)),
            None => sort_data_spec(vfsdata@, vfssort.sort_type, strings_view(vfssort.expanded@)) is None,
        },
{
    if !depth_within(vfsdata, 9223372036854775807u64) {
        return None;
    }
    let empty = String::new();
    let mut rows = gen_vfs_sort_data_recursive(vfsdata, vfssort, empty.as_str(), 0);
    vfs_sort_data_prune_files(&mut rows, vfssort);
    if try_prune_folders(&mut rows, vfssort) {
        Some(rows)
    } else {
        None
    }
}

fn clone_rows(v: &Vec<VFSSortListEntry>) -> (r: Vec<VFSSortListEntry>)
    ensures
        rows_view(r@) == rows_view(v@),
        r@.len() == v@.len(),
{
    let mut r: Vec<VFSSortListEntry> = Vec::new();
    let n = v.len();
    let mut i: usize = 0;
    while i < n
        invariant
            n == v@.len(),
            i <= n,
            r@.len() == i,
            rows_view(r@) == rows_view(v@).subrange(0, i as int),
        decreases n - i,
    {
        let c = clone_row(&v[i]);
        let ghost before = r@;
        r.push(c);
        proof {
            assert(rows_view(r@) =~= rows_view(before).push(c@));
            assert(rows_view(r@) =~= rows_view(v@).subrange(0, i + 1));
        }
        i = i + 1;
    }
    assert(rows_view(v@).subrange(0, n as int) =~= rows_view(v@));
    r
}

/// Empties and collapses folders where that can be done: `true`, with the
/// listing as `vfs_sort_data_prune_folders` leaves it; `false`, with the
/// listing unchanged, where it would look at a position past the end.
pub fn try_prune_folders(vfssortlist: &mut Vec<VFSSortListEntry>, vfssort: &VFSSort) -> (done: bool)
    ensures
        done == prune_folders_run(rows_view(old(vfssortlist)@), vfssort.sort_type, old(vfssortlist)@.len() - 1) is Some,
        done ==> Some(rows_view(final(vfssortlist)@)) == prune_folders_run(
            rows_view(old(vfssortlist)@),
            vfssort.sort_type,
            old(vfssortlist)@.len() - 1,
        ),
        !done ==> final(vfssortlist)@ == old(vfssortlist)@,
{
    let trial = clone_rows(vfssortlist);
    match prune_folders_checked(trial, vfssort.sort_type) {
        Some(rows) => {
            *vfssortlist = rows;
            true
        },
        None => false,
    }
}

/// Opens or closes the folder at `path` in the listing: a folder shown
/// open is closed (every mention of it goes) and `true` is returned; a
/// closed one is opened.
pub fn toggle_expanded(vfssort: &mut VFSSort, path: &str) -> (closed: bool)
    ensures
        closed == strings_view(old(vfssort).expanded@).contains(path@),
        closed ==> strings_view(final(vfssort).expanded@) == strings_view(old(vfssort).expanded@).filter(
            |p: Seq<char>| p != path@,
        ),
        !closed ==> strings_view(final(vfssort).expanded@) == strings_view(old(vfssort).expanded@).push(path@),
        final(vfssort).sort_type == old(vfssort).sort_type,
        final(vfssort).query == old(vfssort).query,
{
    if contains_str(&vfssort.expanded, path) {
        vfssort.expanded = without_str(&vfssort.expanded, path);
        true
    } else {
        let ghost before = vfssort.expanded@;
        vfssort.expanded.push(String::from_str(path));
        proof {
            assert(strings_view(vfssort.expanded@) =~= strings_view(before).push(path@));
        }
        false
    }
}

/// Showing all files hides no row.
pub proof fn law_all_keeps_every_file(rows: Seq<RowView>)
    ensures
        rows.filter(|r: RowView| keeps_row(r, VFSSortType::All)) == rows,
    decreases rows.len(),
{
    reveal(Seq::filter);
    if rows.len() > 0 {
        law_all_keeps_every_file(rows.drop_last());
        assert(rows.drop_last().push(rows.last()) =~= rows);
    }
}

proof fn lemma_open_listing_unchanged(s: Seq<RowView>, i: int)
    requires
        -1 <= i < s.len(),
        forall|j: int| 0 <= j < s.len() && (#[trigger] s[j]).file_type == "folder"@ ==> s[j].extended,
    ensures
        prune_folders_run(s, VFSSortType::All, i) == Some(s),
    decreases i + 1,
{
    if i >= 0 {
        lemma_open_listing_unchanged(s, i - 1);
    }
}

/// With all files shown and every folder open, collapsing changes nothing.
pub proof fn law_open_listing_unchanged(s: Seq<RowView>)
    requires
        forall|j: int| 0 <= j < s.len() && (#[trigger] s[j]).file_type == "folder"@ ==> s[j].extended,
    ensures
        prune_folders_run(s, VFSSortType::All, s.len() - 1) == Some(s),
{
    lemma_open_listing_unchanged(s, s.len() - 1);
}

/// Filtering files only takes rows away: every row left was there before.
pub proof fn law_prune_files_keeps_order(rows: Seq<RowView>, t: VFSSortType)
    ensures
        rows.filter(|r: RowView| keeps_row(r, t)).len() <= rows.len(),
        forall|x: RowView| rows.filter(|r: RowView| keeps_row(r, t)).contains(x) ==> rows.contains(x),
{
    let f = |r: RowView| keeps_row(r, t);
    rows.lemma_filter_len(f);
    assert forall|x: RowView| rows.filter(f).contains(x) implies rows.contains(x) by {
        let k = choose|k: int| 0 <= k < rows.filter(f).len() && rows.filter(f)[k] == x;
        rows.lemma_filter_contains_rev(f, x);
    }
}

/// Emptying and collapsing folders only takes rows away: every row left
/// was there before.
pub proof fn law_collapse_only_removes(s: Seq<RowView>, t: VFSSortType, i: int, x: RowView)
    requires
        prune_folders_run(s, t, i) is Some,
        prune_folders_run(s, t, i)->0.contains(x),
    ensures
        s.contains(x),
    decreases i + 1,
{
    if i >= 0 && i < s.len() {
        let e = s[i];
        if e.file_type != "folder"@ {
            law_collapse_only_removes(s, t, i - 1, x);
        } else {
            let has_children = exists|j: int| 0 <= j < s.len() && is_descendant_spec(#[trigger] s[j].path, e.path);
            if t != VFSSortType::All && !has_children {
                law_collapse_only_removes(s.remove(i), t, i - 1, x);
                let k = choose|k: int| 0 <= k < s.remove(i).len() && s.remove(i)[k] == x;
                if k < i {
                    assert(s[k] == x);
                } else {
                    assert(s[k + 1] == x);
                }
            } else if !e.extended {
                let f = |c: RowView| !is_descendant_spec(c.path, e.path);
                law_collapse_only_removes(s.filter(f), t, i - 1, x);
                s.lemma_filter_contains_rev(f, x);
            } else {
                law_collapse_only_removes(s, t, i - 1, x);
            }
        }
    }
}

proof fn lemma_filter_keeps_all(s: Seq<Seq<char>>, path: Seq<char>)
    requires
        !s.contains(path),
    ensures
        s.filter(|p: Seq<char>| p != path) == s,
    decreases s.len(),
{
    reveal(Seq::filter);
    if s.len() > 0 {
        assert(!s.drop_last().contains(path)) by {
            if s.drop_last().contains(path) {
                let k = choose|k: int| 0 <= k < s.drop_last().len() && s.drop_last()[k] == path;
                assert(s[k] == path);
            }
        }
        lemma_filter_keeps_all(s.drop_last(), path);
        assert(s.last() != path) by {
            assert(s[s.len() - 1] == s.last());
        }
        assert(s.drop_last().push(s.last()) =~= s);
    }
}

/// Opening a folder and closing it again leaves the set of open folders as
/// it was.
pub proof fn law_open_then_close_restores(expanded: Seq<Seq<char>>, path: Seq<char>)
    requires
        !expanded.contains(path),
    ensures
        expanded.push(path).filter(|p: Seq<char>| p != path) == expanded,
{
    let f = |p: Seq<char>| p != path;
    expanded.lemma_filter_push(path, f);
    lemma_filter_keeps_all(expanded, path);
}

/// Under a filter the listing shows no file the filter hides: with
/// conflicts shown, only files that more than one mod supplies; with DLTX
/// patches shown, only patched files.
pub proof fn law_listing_passes_filter(
    tree: Seq<(Seq<char>, NodeView)>,
    t: VFSSortType,
    expanded: Seq<Seq<char>>,
    x: RowView,
)
    requires
        sort_data_spec(tree, t, expanded) is Some,
        sort_data_spec(tree, t, expanded)->0.contains(x),
    ensures
        keeps_row(x, t),
{
    let all = tree_rows(tree, expanded, Seq::empty(), 0);
    let keep = |r: RowView| keeps_row(r, t);
    let rows = all.filter(keep);
    law_collapse_only_removes(rows, t, rows.len() - 1, x);
    let k = choose|k: int| 0 <= k < rows.len() && rows[k] == x;
    all.lemma_filter_pred(keep, k);
}

// ----------------------------------------------------------------------
// Collapsing folders, stated directly
// ----------------------------------------------------------------------

/// Every folder of the listing comes before the rows below it, as in the
/// rows of a tree: a folder, then what it holds.
pub open spec fn folders_first(s: Seq<RowView>) -> bool {
    forall|i: int, j: int|
        0 <= i < s.len() && 0 <= j < s.len() && (#[trigger] s[i]).file_type == "folder"@ && is_descendant_spec(
            (#[trigger] s[j]).path,
            s[i].path,
        ) ==> i < j
}

/// Among the paths of the listing's rows, lying below is transitive.
pub open spec fn below_transitive(s: Seq<RowView>) -> bool {
    forall|a: int, b: int, c: int|
        0 <= a < s.len() && 0 <= b < s.len() && 0 <= c < s.len() && is_descendant_spec(
            (#[trigger] s[a]).path,
            (#[trigger] s[b]).path,
        ) && is_descendant_spec(s[b].path, (#[trigger] s[c]).path) ==> is_descendant_spec(s[a].path, s[c].path)
}

/// Whether `r` lies below a closed folder among the first `i + 1` rows of
/// `s`.
pub open spec fn below_closed_upto(s: Seq<RowView>, i: int, r: RowView) -> bool {
    exists|k: int|
        0 <= k <= i && k < s.len() && (#[trigger] s[k]).file_type == "folder"@ && !s[k].extended
            && is_descendant_spec(r.path, s[k].path)
}

proof fn lemma_filter_keeps_prefix(s: Seq<RowView>, p: spec_fn(RowView) -> bool, m: int)
    requires
        0 <= m <= s.len(),
        forall|k: int| 0 <= k < m ==> p(#[trigger] s[k]),
    ensures
        s.filter(p).len() >= m,
        s.filter(p).subrange(0, m) == s.subrange(0, m),
    decreases s.len(),
{
    reveal(Seq::filter);
    if s.len() > 0 {
        let d = s.drop_last();
        let sub = d.filter(p);
        d.lemma_filter_len(p);
        if s.len() > m {
            lemma_filter_keeps_prefix(d, p, m);
            assert(d.subrange(0, m) =~= s.subrange(0, m));
            if p(s.last()) {
                assert(sub.push(s.last()).subrange(0, m) =~= sub.subrange(0, m));
            }
        } else {
            lemma_filter_keeps_prefix(d, p, m - 1);
            assert(p(s[m - 1]));
            assert(sub.subrange(0, m - 1) =~= sub);
            assert(d.subrange(0, m - 1) =~= d);
            assert(sub.push(s.last()) =~= s);
            assert(s.subrange(0, m) =~= s);
        }
    }
}

proof fn lemma_filter_filter(s: Seq<RowView>, a: spec_fn(RowView) -> bool, b: spec_fn(RowView) -> bool)
    ensures
        s.filter(a).filter(b) == s.filter(|r: RowView| a(r) && b(r)),
    decreases s.len(),
{
    reveal(Seq::filter);
    if s.len() > 0 {
        lemma_filter_filter(s.drop_last(), a, b);
        let sa = s.drop_last().filter(a);
        if a(s.last()) {
            assert(sa.push(s.last()).drop_last() =~= sa);
        }
    }
}

proof fn lemma_filter_true(s: Seq<RowView>, p: spec_fn(RowView) -> bool)
    requires
        forall|r: RowView| #[trigger] p(r),
    ensures
        s.filter(p) == s,
    decreases s.len(),
{
    reveal(Seq::filter);
    if s.len() > 0 {
        lemma_filter_true(s.drop_last(), p);
        assert(s.drop_last().push(s.last()) =~= s);
    }
}

/// One step of collapsing on a listing whose first rows are still those
/// of `s`: the rows before the one looked at stay as they are.
proof fn lemma_step_keeps_prefix(s: Seq<RowView>, cur: Seq<RowView>, i: int)
    requires
        folders_first(s),
        0 <= i < cur.len(),
        i < s.len(),
        cur.subrange(0, i + 1) == s.subrange(0, i + 1),
        cur[i].file_type == "folder"@,
    ensures
        cur.remove(i).subrange(0, i) == s.subrange(0, i),
        cur.filter(|c: RowView| !is_descendant_spec(c.path, cur[i].path)).len() > i,
        cur.filter(|c: RowView| !is_descendant_spec(c.path, cur[i].path)).subrange(0, i + 1) == s.subrange(0, i + 1),
{
    let e = cur[i];
    let p = |c: RowView| !is_descendant_spec(c.path, e.path);
    assert(e == s[i]) by {
        let a = cur.subrange(0, i + 1);
        let b = s.subrange(0, i + 1);
        assert(a[i] == cur[i]);
        assert(b[i] == s[i]);
        assert(a[i] == b[i]);
    }
    assert forall|k: int| 0 <= k < i + 1 implies p(#[trigger] cur[k]) by {
        let a = cur.subrange(0, i + 1);
        let b = s.subrange(0, i + 1);
        assert(a[k] == cur[k]);
        assert(b[k] == s[k]);
        assert(a[k] == b[k]);
        if is_descendant_spec(s[k].path, s[i].path) {
            assert(i < k);
        }
    }
    lemma_filter_keeps_prefix(cur, p, i + 1);
    assert(cur.remove(i).subrange(0, i) =~= cur.subrange(0, i));
    assert(cur.subrange(0, i) =~= cur.subrange(0, i + 1).subrange(0, i));
    assert(s.subrange(0, i) =~= s.subrange(0, i + 1).subrange(0, i));
}

proof fn lemma_run_some(s: Seq<RowView>, cur: Seq<RowView>, t: VFSSortType, i: int)
    requires
        folders_first(s),
        -1 <= i < cur.len(),
        i < s.len(),
        cur.subrange(0, i + 1) == s.subrange(0, i + 1),
    ensures
        prune_folders_run(cur, t, i) is Some,
    decreases i + 1,
{
    if i >= 0 {
        let e = cur[i];
        assert(cur.subrange(0, i) =~= cur.subrange(0, i + 1).subrange(0, i));
        assert(s.subrange(0, i) =~= s.subrange(0, i + 1).subrange(0, i));
        if e.file_type != "folder"@ {
            lemma_run_some(s, cur, t, i - 1);
        } else {
            lemma_step_keeps_prefix(s, cur, i);
            let has_children = exists|j: int| 0 <= j < cur.len() && is_descendant_spec(#[trigger] cur[j].path, e.path);
            if t != VFSSortType::All && !has_children {
                lemma_run_some(s, cur.remove(i), t, i - 1);
            } else if !e.extended {
                let f = cur.filter(|c: RowView| !is_descendant_spec(c.path, e.path));
                assert(f.subrange(0, i) =~= f.subrange(0, i + 1).subrange(0, i));
                lemma_run_some(s, f, t, i - 1);
            } else {
                lemma_run_some(s, cur, t, i - 1);
            }
        }
    }
}

/// In a listing built as a tree's rows are (every folder before the rows
/// below it), collapsing folders never looks past the end of the listing.
pub proof fn law_collapse_runs_through(s: Seq<RowView>, t: VFSSortType)
    requires
        folders_first(s),
    ensures
        prune_folders_run(s, t, s.len() - 1) is Some,
{
    assert(s.subrange(0, s.len() as int) =~= s);
    lemma_run_some(s, s, t, s.len() - 1);
}

proof fn lemma_all_is_filter(s: Seq<RowView>, cur: Seq<RowView>, i: int)
    requires
        folders_first(s),
        -1 <= i < cur.len(),
        i < s.len(),
        cur.subrange(0, i + 1) == s.subrange(0, i + 1),
    ensures
        prune_folders_run(cur, VFSSortType::All, i) == Some(cur.filter(|r: RowView| !below_closed_upto(s, i, r))),
    decreases i + 1,
{
    let q = |r: RowView| !below_closed_upto(s, i, r);
    if i < 0 {
        lemma_filter_true(cur, q);
    } else {
        let e = cur[i];
        assert(e == s[i]) by {
            let a = cur.subrange(0, i + 1);
            let b = s.subrange(0, i + 1);
            assert(a[i] == cur[i]);
            assert(b[i] == s[i]);
            assert(a[i] == b[i]);
        }
        assert(cur.subrange(0, i) =~= cur.subrange(0, i + 1).subrange(0, i));
        assert(s.subrange(0, i) =~= s.subrange(0, i + 1).subrange(0, i));
        let q1 = |r: RowView| !below_closed_upto(s, i - 1, r);
        if e.file_type != "folder"@ || e.extended {
            assert(q =~= q1) by {
                assert forall|r: RowView| #[trigger] q(r) == q1(r) by {
                    if below_closed_upto(s, i, r) {
                        let k = choose|k: int|
                            0 <= k <= i && k < s.len() && (#[trigger] s[k]).file_type == "folder"@ && !s[k].extended
                                && is_descendant_spec(r.path, s[k].path);
                        assert(k != i);
                    }
                }
            }
            if e.file_type == "folder"@ {
                lemma_step_keeps_prefix(s, cur, i);
            }
            lemma_all_is_filter(s, cur, i - 1);
        } else {
            let p = |c: RowView| !is_descendant_spec(c.path, e.path);
            lemma_step_keeps_prefix(s, cur, i);
            let f = cur.filter(p);
            assert(f.subrange(0, i) =~= f.subrange(0, i + 1).subrange(0, i));
            lemma_all_is_filter(s, f, i - 1);
            lemma_filter_filter(cur, p, q1);
            assert((|r: RowView| p(r) && q1(r)) =~= q) by {
                assert forall|r: RowView| (p(r) && q1(r)) == #[trigger] q(r) by {
                    if below_closed_upto(s, i, r) {
                        let k = choose|k: int|
                            0 <= k <= i && k < s.len() && (#[trigger] s[k]).file_type == "folder"@ && !s[k].extended
                                && is_descendant_spec(r.path, s[k].path);
                        if k < i {
                            assert(below_closed_upto(s, i - 1, r));
                        }
                    }
                    if !p(r) {
                        assert(s[i] == e);
                        assert(below_closed_upto(s, i, r));
                    }
                    if below_closed_upto(s, i - 1, r) {
                        let k = choose|k: int|
                            0 <= k <= i - 1 && k < s.len() && (#[trigger] s[k]).file_type == "folder"@ && !s[k].extended
                                && is_descendant_spec(r.path, s[k].path);
                        assert(below_closed_upto(s, i, r));
                    }
                }
            }
        }
    }
}

/// With all files shown, collapsing folders is a filter: in a listing built
/// as a tree's rows are, it keeps exactly the rows that lie below no closed
/// folder of the listing.
pub proof fn law_collapse_is_filter(s: Seq<RowView>)
    requires
        folders_first(s),
    ensures
        prune_folders_run(s, VFSSortType::All, s.len() - 1) == Some(
            s.filter(|r: RowView| !below_closed_upto(s, s.len() - 1, r)),
        ),
{
    assert(s.subrange(0, s.len() as int) =~= s);
    lemma_all_is_filter(s, s, s.len() - 1);
}

/// A row below which a row of the result lies stays in the result.
proof fn lemma_survives(s: Seq<RowView>, cur: Seq<RowView>, t: VFSSortType, i: int, x: RowView, y: RowView)
    requires
        below_transitive(s),
        forall|k: int| 0 <= k < cur.len() ==> s.contains(#[trigger] cur[k]),
        prune_folders_run(cur, t, i) is Some,
        prune_folders_run(cur, t, i)->0.contains(x),
        cur.contains(y),
        is_descendant_spec(x.path, y.path),
    ensures
        prune_folders_run(cur, t, i)->0.contains(y),
    decreases i + 1,
{
    if i >= 0 && i < cur.len() {
        let e = cur[i];
        law_collapse_only_removes(cur, t, i, x);
        if e.file_type != "folder"@ {
            lemma_survives(s, cur, t, i - 1, x, y);
        } else {
            let has_children = exists|j: int| 0 <= j < cur.len() && is_descendant_spec(#[trigger] cur[j].path, e.path);
            if t != VFSSortType::All && !has_children {
                let c2 = cur.remove(i);
                let ky = choose|k: int| 0 <= k < cur.len() && cur[k] == y;
                let kx = choose|k: int| 0 <= k < cur.len() && cur[k] == x;
                assert(is_descendant_spec(cur[kx].path, y.path));
                assert(ky != i);
                if ky < i {
                    assert(c2[ky] == y);
                } else {
                    assert(c2[ky - 1] == y);
                }
                assert forall|k: int| 0 <= k < c2.len() implies s.contains(#[trigger] c2[k]) by {
                    if k < i {
                        assert(c2[k] == cur[k]);
                    } else {
                        assert(c2[k] == cur[k + 1]);
                    }
                }
                lemma_survives(s, c2, t, i - 1, x, y);
            } else if !e.extended {
                let p = |c: RowView| !is_descendant_spec(c.path, e.path);
                let c2 = cur.filter(p);
                assert forall|k: int| 0 <= k < c2.len() implies s.contains(#[trigger] c2[k]) by {
                    cur.lemma_filter_contains_rev(p, c2[k]);
                    let m = choose|m: int| 0 <= m < cur.len() && cur[m] == c2[k];
                    assert(s.contains(cur[m]));
                }
                law_collapse_only_removes(c2, t, i - 1, x);
                let kx = choose|k: int| 0 <= k < c2.len() && c2[k] == x;
                cur.lemma_filter_pred(p, kx);
                let ky = choose|k: int| 0 <= k < cur.len() && cur[k] == y;
                if is_descendant_spec(y.path, e.path) {
                    assert(s.contains(x)) by {
                        cur.lemma_filter_contains_rev(p, x);
                        let m = choose|m: int| 0 <= m < cur.len() && cur[m] == x;
                        assert(s.contains(cur[m]));
                    }
                    assert(s.contains(cur[ky]));
                    assert(s.contains(cur[i]));
                    let a = choose|a: int| 0 <= a < s.len() && s[a] == x;
                    let b = choose|b: int| 0 <= b < s.len() && s[b] == y;
                    let c = choose|c: int| 0 <= c < s.len() && s[c] == e;
                    assert(is_descendant_spec(s[a].path, s[b].path) && is_descendant_spec(s[b].path, s[c].path));
                    assert(is_descendant_spec(s[a].path, s[c].path));
                    assert(false);
                }
                cur.lemma_filter_contains(p, ky);
                lemma_survives(s, c2, t, i - 1, x, y);
            } else {
                lemma_survives(s, cur, t, i - 1, x, y);
            }
        }
    }
}

proof fn lemma_ancestor_open(s: Seq<RowView>, cur: Seq<RowView>, t: VFSSortType, i: int, x: RowView, fi: int)
    requires
        folders_first(s),
        -1 <= i < cur.len(),
        i < s.len(),
        cur.subrange(0, i + 1) == s.subrange(0, i + 1),
        0 <= fi <= i,
        s[fi].file_type == "folder"@,
        prune_folders_run(cur, t, i) is Some,
        prune_folders_run(cur, t, i)->0.contains(x),
        is_descendant_spec(x.path, s[fi].path),
    ensures
        s[fi].extended,
    decreases i + 1,
{
    let e = cur[i];
    assert(e == s[i]) by {
        let a = cur.subrange(0, i + 1);
        let b = s.subrange(0, i + 1);
        assert(a[i] == cur[i]);
        assert(b[i] == s[i]);
        assert(a[i] == b[i]);
    }
    assert(cur.subrange(0, i) =~= cur.subrange(0, i + 1).subrange(0, i));
    assert(s.subrange(0, i) =~= s.subrange(0, i + 1).subrange(0, i));
    law_collapse_only_removes(cur, t, i, x);
    let has_children = exists|j: int| 0 <= j < cur.len() && is_descendant_spec(#[trigger] cur[j].path, e.path);
    if i == fi {
        let kx = choose|k: int| 0 <= k < cur.len() && cur[k] == x;
        assert(is_descendant_spec(cur[kx].path, e.path));
        assert(has_children);
        if !e.extended {
            let p = |c: RowView| !is_descendant_spec(c.path, e.path);
            let c2 = cur.filter(p);
            law_collapse_only_removes(c2, t, i - 1, x);
            let k = choose|k: int| 0 <= k < c2.len() && c2[k] == x;
            cur.lemma_filter_pred(p, k);
        }
    } else {
        if e.file_type != "folder"@ {
            lemma_ancestor_open(s, cur, t, i - 1, x, fi);
        } else {
            lemma_step_keeps_prefix(s, cur, i);
            if t != VFSSortType::All && !has_children {
                lemma_ancestor_open(s, cur.remove(i), t, i - 1, x, fi);
            } else if !e.extended {
                let f = cur.filter(|c: RowView| !is_descendant_spec(c.path, e.path));
                assert(f.subrange(0, i) =~= f.subrange(0, i + 1).subrange(0, i));
                lemma_ancestor_open(s, f, t, i - 1, x, fi);
            } else {
                lemma_ancestor_open(s, cur, t, i - 1, x, fi);
            }
        }
    }
}

/// In a listing built as a tree's rows are (every folder before the rows
/// below it), every row that collapsing leaves and that lies below a folder
/// of the listing lies below a folder that is left in place and open.
pub proof fn law_rows_sit_under_open_folders(s: Seq<RowView>, t: VFSSortType, x: RowView, f: RowView)
    requires
        folders_first(s),
        below_transitive(s),
        prune_folders_run(s, t, s.len() - 1) is Some,
        prune_folders_run(s, t, s.len() - 1)->0.contains(x),
        s.contains(f),
        f.file_type == "folder"@,
        is_descendant_spec(x.path, f.path),
    ensures
        prune_folders_run(s, t, s.len() - 1)->0.contains(f),
        f.extended,
{
    assert(s.subrange(0, s.len() as int) =~= s);
    let fi = choose|k: int| 0 <= k < s.len() && s[k] == f;
    lemma_ancestor_open(s, s, t, s.len() - 1, x, fi);
    lemma_survives(s, s, t, s.len() - 1, x, f);
}

/// Whether a file row of `s` lies below `f`.
pub open spec fn has_file_below(s: Seq<RowView>, f: RowView) -> bool {
    exists|k: int| 0 <= k < s.len() && (#[trigger] s[k]).file_type != "folder"@ && is_descendant_spec(s[k].path, f.path)
}

/// A folder of `s` below which no file row of `s` lies.
pub open spec fn empty_folder(s: Seq<RowView>, r: RowView) -> bool {
    r.file_type == "folder"@ && !has_file_below(s, r)
}

proof fn lemma_drop_empty(s: Seq<RowView>, cur: Seq<RowView>, t: VFSSortType, i: int)
    requires
        folders_first(s),
        below_transitive(s),
        t != VFSSortType::All,
        -1 <= i < cur.len(),
        i < s.len(),
        cur.subrange(0, i + 1) == s.subrange(0, i + 1),
        forall|k: int| 0 <= k < cur.len() ==> s.contains(#[trigger] cur[k]),
        forall|k: int| i < k < cur.len() ==> !empty_folder(s, #[trigger] cur[k]),
    ensures
        prune_folders_run(cur, t, i) is Some,
        forall|k: int|
            0 <= k < prune_folders_run(cur, t, i)->0.len() ==> !empty_folder(s, #[trigger] prune_folders_run(cur, t, i)->0[k]),
    decreases i + 1,
{
    if i >= 0 {
        let e = cur[i];
        assert(e == s[i]) by {
            let a = cur.subrange(0, i + 1);
            let b = s.subrange(0, i + 1);
            assert(a[i] == cur[i]);
            assert(b[i] == s[i]);
            assert(a[i] == b[i]);
        }
        assert(cur.subrange(0, i) =~= cur.subrange(0, i + 1).subrange(0, i));
        assert(s.subrange(0, i) =~= s.subrange(0, i + 1).subrange(0, i));
        if e.file_type != "folder"@ {
            lemma_drop_empty(s, cur, t, i - 1);
        } else {
            lemma_step_keeps_prefix(s, cur, i);
            let has_children = exists|j: int| 0 <= j < cur.len() && is_descendant_spec(#[trigger] cur[j].path, e.path);
            if !has_children {
                let c2 = cur.remove(i);
                assert forall|k: int| 0 <= k < c2.len() implies s.contains(#[trigger] c2[k]) by {
                    if k < i {
                        assert(c2[k] == cur[k]);
                    } else {
                        assert(c2[k] == cur[k + 1]);
                    }
                }
                assert forall|k: int| i - 1 < k < c2.len() implies !empty_folder(s, #[trigger] c2[k]) by {
                    assert(c2[k] == cur[k + 1]);
                }
                lemma_drop_empty(s, c2, t, i - 1);
            } else {
                // the folder has a row below it, which is a file or a folder
                // with a file below it: so a file lies below the folder
                let j = choose|j: int| 0 <= j < cur.len() && is_descendant_spec(#[trigger] cur[j].path, e.path);
                if j <= i {
                    let a = cur.subrange(0, i + 1);
                    let b = s.subrange(0, i + 1);
                    assert(a[j] == cur[j] && b[j] == s[j] && a[j] == b[j]);
                    assert(i < j);
                }
                assert(!empty_folder(s, e)) by {
                    let c = choose|c: int| 0 <= c < s.len() && s[c] == e;
                    let b = choose|b: int| 0 <= b < s.len() && s[b] == cur[j];
                    if cur[j].file_type != "folder"@ {
                        assert(s[b].file_type != "folder"@ && is_descendant_spec(s[b].path, e.path));
                    } else {
                        assert(!empty_folder(s, cur[j]));
                        let a = choose|a: int|
                            0 <= a < s.len() && (#[trigger] s[a]).file_type != "folder"@ && is_descendant_spec(s[a].path, cur[j].path);
                        assert(is_descendant_spec(s[a].path, s[b].path) && is_descendant_spec(s[b].path, s[c].path));
                        assert(is_descendant_spec(s[a].path, s[c].path));
                    }
                }
                if !e.extended {
                    let p = |c: RowView| !is_descendant_spec(c.path, e.path);
                    let head = cur.subrange(0, i + 1);
                    let tail = cur.subrange(i + 1, cur.len() as int);
                    assert(cur =~= head + tail);
                    Seq::filter_distributes_over_add(head, tail, p);
                    assert forall|k: int| 0 <= k < head.len() implies p(#[trigger] head[k]) by {
                        assert(head[k] == cur[k]);
                        assert(cur.filter(p).subrange(0, i + 1)[k] == s.subrange(0, i + 1)[k]);
                        assert(p(cur[k])) by {
                            let b = s.subrange(0, i + 1);
                            assert(b[k] == s[k]);
                            assert(cur[k] == s[k]);
                            if is_descendant_spec(s[k].path, s[i].path) {
                                assert(i < k);
                            }
                        }
                    }
                    lemma_filter_keeps_prefix(head, p, head.len() as int);
                    head.lemma_filter_len(p);
                    assert(head.filter(p) =~= head) by {
                        assert(head.filter(p).subrange(0, head.len() as int) =~= head.filter(p));
                        assert(head.subrange(0, head.len() as int) =~= head);
                    }
                    let c2 = cur.filter(p);
                    assert(c2 == head + tail.filter(p));
                    assert forall|k: int| 0 <= k < c2.len() implies s.contains(#[trigger] c2[k]) by {
                        cur.lemma_filter_contains_rev(p, c2[k]);
                        let m = choose|m: int| 0 <= m < cur.len() && cur[m] == c2[k];
                        assert(s.contains(cur[m]));
                    }
                    assert forall|k: int| i - 1 < k < c2.len() implies !empty_folder(s, #[trigger] c2[k]) by {
                        if k == i {
                            assert(c2[k] == head[i]);
                            assert(head[i] == e);
                        } else {
                            let tf = tail.filter(p);
                            assert(c2[k] == tf[k - i - 1]);
                            tail.lemma_filter_contains_rev(p, tf[k - i - 1]);
                            let m = choose|m: int| 0 <= m < tail.len() && tail[m] == tf[k - i - 1];
                            assert(tail[m] == cur[m + i + 1]);
                        }
                    }
                    assert(c2.subrange(0, i) =~= c2.subrange(0, i + 1).subrange(0, i));
                    lemma_drop_empty(s, c2, t, i - 1);
                } else {
                    assert forall|k: int| i - 1 < k < cur.len() implies !empty_folder(s, #[trigger] cur[k]) by {
                        if k == i {
                        }
                    }
                    lemma_drop_empty(s, cur, t, i - 1);
                }
            }
        }
    }
}

/// Under a filter, in a listing built as a tree's rows are (every folder
/// before the rows below it), collapsing leaves no folder below which no
/// file of the listing lies.
pub proof fn law_empty_folders_go(s: Seq<RowView>, t: VFSSortType, f: RowView)
    requires
        folders_first(s),
        below_transitive(s),
        t != VFSSortType::All,
        f.file_type == "folder"@,
        !has_file_below(s, f),
    ensures
        prune_folders_run(s, t, s.len() - 1) is Some,
        !prune_folders_run(s, t, s.len() - 1)->0.contains(f),
{
    assert(s.subrange(0, s.len() as int) =~= s);
    assert forall|k: int| 0 <= k < s.len() implies s.contains(#[trigger] s[k]) by {}
    lemma_drop_empty(s, s, t, s.len() - 1);
    let r = prune_folders_run(s, t, s.len() - 1)->0;
    if r.contains(f) {
        let k = choose|k: int| 0 <= k < r.len() && r[k] == f;
        assert(!empty_folder(s, r[k]));
    }
}

proof fn lemma_tree_rows_open_set(
    s: Seq<(Seq<char>, NodeView)>,
    e1: Seq<Seq<char>>,
    e2: Seq<Seq<char>>,
    current: Seq<char>,
    down: int,
)
    requires
        forall|p: Seq<char>| #[trigger] e1.contains(p) == e2.contains(p),
    ensures
        tree_rows(s, e1, current, down) == tree_rows(s, e2, current, down),
    decreases s,
{
    if s.len() > 0 {
        lemma_tree_rows_open_set(s.subrange(0, s.len() - 1), e1, e2, current, down);
        lemma_entry_rows_open_set(s[s.len() - 1].0, s[s.len() - 1].1, e1, e2, current, down);
    }
}

proof fn lemma_entry_rows_open_set(
    k: Seq<char>,
    n: NodeView,
    e1: Seq<Seq<char>>,
    e2: Seq<Seq<char>>,
    current: Seq<char>,
    down: int,
)
    requires
        forall|p: Seq<char>| #[trigger] e1.contains(p) == e2.contains(p),
    ensures
        entry_rows(k, n, e1, current, down) == entry_rows(k, n, e2, current, down),
    decreases n,
{
    match n {
        NodeView::File(_) => {},
        NodeView::Dir(c) => {
            assert(e1.contains(k) == e2.contains(k));
            lemma_tree_rows_open_set(c, e1, e2, k, down + 1);
        },
    }
}

/// The rows of a tree depend on the listing's settings only through which
/// folders are open: not on the filter, not on the query, and not on the
/// order in which, or how often, the open folders are recorded.
pub proof fn law_rows_depend_only_on_open_folders(
    tree: Seq<(Seq<char>, NodeView)>,
    s1: VFSSort,
    s2: VFSSort,
    current: Seq<char>,
    down: int,
)
    requires
        forall|p: Seq<char>|
            #[trigger] strings_view(s1.expanded@).contains(p) == strings_view(s2.expanded@).contains(p),
    ensures
        tree_rows(tree, strings_view(s1.expanded@), current, down) == tree_rows(
            tree,
            strings_view(s2.expanded@),
            current,
            down,
        ),
{
    lemma_tree_rows_open_set(tree, strings_view(s1.expanded@), strings_view(s2.expanded@), current, down);
}

/// Whether `p` is the name of an entry of the folder `s`.
pub open spec fn is_entry_name(s: Seq<(Seq<char>, NodeView)>, p: Seq<char>) -> bool {
    exists|j: int| 0 <= j < s.len() && s[j].0 == p
}

/// Whether some row of `rows` is for `p` at depth `down`.
pub open spec fn has_row_at(rows: Seq<RowView>, p: Seq<char>, down: int) -> bool {
    exists|i: int| 0 <= i < rows.len() && rows[i].path == p && rows[i].down == down
}

proof fn lemma_entry_depths(k: Seq<char>, n: NodeView, ex: Seq<Seq<char>>, current: Seq<char>, down: int)
    ensures
        entry_rows(k, n, ex, current, down).len() >= 1,
        entry_rows(k, n, ex, current, down)[0].path == k,
        entry_rows(k, n, ex, current, down)[0].down == down,
        forall|i: int|
            1 <= i < entry_rows(k, n, ex, current, down).len() ==> (#[trigger] entry_rows(k, n, ex, current, down)[i]).down
                > down,
        n is Dir ==> forall|m: int|
            0 <= m < n->Dir_0.len() ==> #[trigger] has_row_at(entry_rows(k, n, ex, current, down), n->Dir_0[m].0, down + 1),
    decreases n,
{
    match n {
        NodeView::File(_) => {},
        NodeView::Dir(c) => {
            lemma_tree_depths(c, ex, k, down + 1);
            let e = entry_rows(k, n, ex, current, down);
            let t = tree_rows(c, ex, k, down + 1);
            assert forall|i: int| 1 <= i < e.len() implies (#[trigger] e[i]).down > down by {
                assert(e[i] == t[i - 1]);
            }
            assert forall|m: int| 0 <= m < c.len() implies #[trigger] has_row_at(e, c[m].0, down + 1) by {
                assert(has_row_at(t, c[m].0, down + 1));
                let i = choose|i: int| 0 <= i < t.len() && t[i].path == c[m].0 && t[i].down == down + 1;
                assert(e[i + 1] == t[i]);
            }
        },
    }
}

proof fn lemma_tree_depths(s: Seq<(Seq<char>, NodeView)>, ex: Seq<Seq<char>>, current: Seq<char>, down: int)
    ensures
        forall|i: int|
            0 <= i < tree_rows(s, ex, current, down).len() ==> (#[trigger] tree_rows(s, ex, current, down)[i]).down >= down,
        forall|i: int|
            0 <= i < tree_rows(s, ex, current, down).len() && (#[trigger] tree_rows(s, ex, current, down)[i]).down == down
                ==> is_entry_name(s, tree_rows(s, ex, current, down)[i].path),
        forall|j: int| 0 <= j < s.len() ==> has_row_at(tree_rows(s, ex, current, down), #[trigger] s[j].0, down),
        forall|j: int, m: int|
            0 <= j < s.len() && s[j].1 is Dir && 0 <= m < s[j].1->Dir_0.len() ==> #[trigger] has_row_at(
                tree_rows(s, ex, current, down),
                s[j].1->Dir_0[m].0,
                down + 1,
            ),
    decreases s,
{
    if s.len() > 0 {
        let pre = s.subrange(0, s.len() - 1);
        let last = s[s.len() - 1];
        lemma_tree_depths(pre, ex, current, down);
        lemma_entry_depths(last.0, last.1, ex, current, down);
        let a = tree_rows(pre, ex, current, down);
        let e = entry_rows(last.0, last.1, ex, current, down);
        let rows = tree_rows(s, ex, current, down);
        assert(rows == a + e);
        assert forall|i: int| 0 <= i < rows.len() implies (#[trigger] rows[i]).down >= down && (rows[i].down == down
            ==> is_entry_name(s, rows[i].path)) by {
            if i < a.len() {
                assert(rows[i] == a[i]);
                if rows[i].down == down {
                    assert(is_entry_name(pre, a[i].path));
                    let j = choose|j: int| 0 <= j < pre.len() && pre[j].0 == a[i].path;
                    assert(s[j] == pre[j]);
                }
            } else {
                assert(rows[i] == e[i - a.len()]);
                if i - a.len() >= 1 {
                    assert(e[i - a.len()].down > down);
                } else {
                    assert(s[s.len() - 1].0 == rows[i].path);
                }
            }
        }
        assert forall|j: int| 0 <= j < s.len() implies has_row_at(rows, #[trigger] s[j].0, down) by {
            if j < s.len() - 1 {
                assert(s[j] == pre[j]);
                assert(has_row_at(a, pre[j].0, down));
                let i = choose|i: int| 0 <= i < a.len() && a[i].path == pre[j].0 && a[i].down == down;
                assert(rows[i] == a[i]);
            } else {
                assert(rows[a.len() as int] == e[0]);
            }
        }
        assert forall|j: int, m: int|
            0 <= j < s.len() && s[j].1 is Dir && 0 <= m < s[j].1->Dir_0.len() implies #[trigger] has_row_at(
                rows,
                s[j].1->Dir_0[m].0,
                down + 1,
            ) by {
            if j < s.len() - 1 {
                assert(s[j] == pre[j]);
                assert(has_row_at(a, pre[j].1->Dir_0[m].0, down + 1));
                let i = choose|i: int| 0 <= i < a.len() && a[i].path == pre[j].1->Dir_0[m].0 && a[i].down == down + 1;
                assert(rows[i] == a[i]);
            } else {
                assert(has_row_at(e, last.1->Dir_0[m].0, down + 1));
                let i = choose|i: int| 0 <= i < e.len() && e[i].path == last.1->Dir_0[m].0 && e[i].down == down + 1;
                assert(rows[a.len() + i] == e[i]);
            }
        }
    }
}

/// The rows of a folder listed at depth `down`: no row is shallower, the
/// rows at exactly that depth are the folder's own entries, each entry has
/// its row at that depth, and each entry of a folder among them has its
/// row one level deeper.
pub proof fn law_row_depths(s: Seq<(Seq<char>, NodeView)>, ex: Seq<Seq<char>>, current: Seq<char>, down: int)
    ensures
        forall|i: int|
            0 <= i < tree_rows(s, ex, current, down).len() ==> (#[trigger] tree_rows(s, ex, current, down)[i]).down >= down,
        forall|i: int|
            0 <= i < tree_rows(s, ex, current, down).len() && (#[trigger] tree_rows(s, ex, current, down)[i]).down == down
                ==> is_entry_name(s, tree_rows(s, ex, current, down)[i].path),
        forall|j: int| 0 <= j < s.len() ==> has_row_at(tree_rows(s, ex, current, down), #[trigger] s[j].0, down),
        forall|j: int, m: int|
            0 <= j < s.len() && s[j].1 is Dir && 0 <= m < s[j].1->Dir_0.len() ==> #[trigger] has_row_at(
                tree_rows(s, ex, current, down),
                s[j].1->Dir_0[m].0,
                down + 1,
            ),
{
    lemma_tree_depths(s, ex, current, down);
}

} // verus!
