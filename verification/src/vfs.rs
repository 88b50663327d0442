//! The virtual file system: a tree of folders and files in which every file
//! records the mods that supply it.  A folder's entries are kept in the
//! order of their names, as a `BTreeMap<String, _>` keeps them.
use vstd::prelude::*;
use ordered_hash_map::OrderedHashMap;
use crate::origins::{origin_entries, ohm_extend_spec, ohm_insert_spec};
use crate::text::{to_owned_string, seq_lt, str_eq, str_lt, lemma_lt_total, lemma_lt_transitive, lemma_lt_irreflexive};

verus! {

// ----------------------------------------------------------------------
// Abstract values
// ----------------------------------------------------------------------

/// What a file is: the mods that supply it (origin, path of the file in
/// it), oldest first, and its DLTX patches (origin, patch path).
pub struct FileView {
    pub paths: Seq<(Seq<char>, Seq<char>)>,
    pub patches: Seq<(Seq<char>, Seq<char>)>,
}

/// What a node of the tree is: a folder with its named entries in name
/// order, or a file.
pub enum NodeView {
    Dir(Seq<(Seq<char>, NodeView)>),
    File(FileView),
}

/// The position of the first entry named `k`, or -1.
pub open spec fn find_key<V>(s: Seq<(Seq<char>, V)>, k: Seq<char>) -> int
    decreases s.len(),
{
    if s.len() == 0 {
        -1
    } else {
        let f = find_key(s.drop_last(), k);
        if f >= 0 {
            f
        } else if s.last().0 == k {
            s.len() - 1
        } else {
            -1
        }
    }
}

/// The position of the first entry whose name comes after `k`, or the
/// length: where an entry named `k` goes.
pub open spec fn insert_pos<V>(s: Seq<(Seq<char>, V)>, k: Seq<char>) -> int
    decreases s.len(),
{
    if s.len() == 0 {
        0
    } else {
        let f = insert_pos(s.drop_last(), k);
        if f < s.len() - 1 {
            f
        } else if seq_lt(k, s.last().0) {
            s.len() - 1
        } else {
            s.len() as int
        }
    }
}

/// Names strictly increasing.
pub open spec fn names_sorted<V>(s: Seq<(Seq<char>, V)>) -> bool {
    forall|i: int, j: int| 0 <= i < j < s.len() ==> seq_lt(#[trigger] s[i].0, #[trigger] s[j].0)
}

/// The entry named `k` set to `n`: replaced where there is one, else added
/// in name order (what `BTreeMap::insert` does).
pub open spec fn dir_insert<V>(s: Seq<(Seq<char>, V)>, k: Seq<char>, n: V) -> Seq<(Seq<char>, V)> {
    let i = find_key(s, k);
    if i >= 0 {
        s.update(i, (s[i].0, n))
    } else {
        s.insert(insert_pos(s, k), (k, n))
    }
}

/// Adding a DLTX patch: an entry with the same origin is replaced in place,
/// otherwise the pair is added (what `HashMap::insert` keeps; the order of
/// the pairs carries no meaning).
pub open spec fn patch_insert_spec(e: Seq<(Seq<char>, Seq<char>)>, k: Seq<char>, v: Seq<char>) -> Seq<
    (Seq<char>, Seq<char>),
> {
    let i = find_key(e, k);
    if i >= 0 {
        e.update(i, (k, v))
    } else {
        e.push((k, v))
    }
}

/// The patches of `other` added one by one.
pub open spec fn patch_extend_spec(e: Seq<(Seq<char>, Seq<char>)>, other: Seq<(Seq<char>, Seq<char>)>) -> Seq<
    (Seq<char>, Seq<char>),
>
    decreases other.len(),
{
    if other.len() == 0 {
        e
    } else {
        patch_extend_spec(patch_insert_spec(e, other[0].0, other[0].1), other.drop_first())
    }
}

/// Two files at the same place: the second's origins and patches are added
/// to the first's.
pub open spec fn file_merge(a: FileView, b: FileView) -> FileView {
    FileView {
        paths: ohm_extend_spec(a.paths, b.paths),
        patches: patch_extend_spec(a.patches, b.patches),
    }
}

/// The entries of `b` merged into the folder `a`, one after the other.
pub open spec fn merge_dir(a: Seq<(Seq<char>, NodeView)>, b: Seq<(Seq<char>, NodeView)>) -> Seq<
    (Seq<char>, NodeView),
>
    decreases b,
{
    if b.len() == 0 {
        a
    } else {
        merge_dir(merge_entry(a, b[0].0, b[0].1), b.subrange(1, b.len() as int))
    }
}

/// One entry merged into the folder `a`: added when `a` has no entry of
/// that name; two folders are merged, two files are merged, and a folder
/// and a file leave `a` as it is.
pub open spec fn merge_entry(a: Seq<(Seq<char>, NodeView)>, k: Seq<char>, n: NodeView) -> Seq<
    (Seq<char>, NodeView),
>
    decreases n,
{
    let i = find_key(a, k);
    if i < 0 {
        a.insert(insert_pos(a, k), (k, n))
    } else {
        match a[i].1 {
            NodeView::Dir(x) => match n {
                NodeView::Dir(y) => a.update(i, (a[i].0, NodeView::Dir(merge_dir(x, y)))),
                NodeView::File(_) => a,
            },
            NodeView::File(x) => match n {
                NodeView::File(y) => a.update(i, (a[i].0, NodeView::File(file_merge(x, y)))),
                NodeView::Dir(_) => a,
            },
        }
    }
}

// ----------------------------------------------------------------------
// Lemmas on names
// ----------------------------------------------------------------------

pub proof fn lemma_find_key<V>(s: Seq<(Seq<char>, V)>, k: Seq<char>)
    ensures
        -1 <= find_key(s, k) < s.len(),
        find_key(s, k) == -1 <==> forall|j: int| 0 <= j < s.len() ==> s[j].0 != k,
        find_key(s, k) >= 0 ==> s[find_key(s, k)].0 == k && forall|j: int|
            0 <= j < find_key(s, k) ==> s[j].0 != k,
    decreases s.len(),
{
    if s.len() > 0 {
        lemma_find_key(s.drop_last(), k);
        assert forall|j: int| 0 <= j < s.len() - 1 implies s.drop_last()[j] == s[j] by {}
    }
}

pub proof fn lemma_insert_pos<V>(s: Seq<(Seq<char>, V)>, k: Seq<char>)
    ensures
        0 <= insert_pos(s, k) <= s.len(),
        forall|j: int| 0 <= j < insert_pos(s, k) ==> !seq_lt(k, #[trigger] s[j].0),
        insert_pos(s, k) < s.len() ==> seq_lt(k, s[insert_pos(s, k)].0),
    decreases s.len(),
{
    if s.len() > 0 {
        lemma_insert_pos(s.drop_last(), k);
        assert forall|j: int| 0 <= j < s.len() - 1 implies s.drop_last()[j] == s[j] by {}
    }
}

/// Where a name not yet present goes in a sorted folder keeps it sorted.
pub proof fn lemma_sorted_insert<V>(s: Seq<(Seq<char>, V)>, k: Seq<char>, n: V)
    requires
        names_sorted(s),
        find_key(s, k) == -1,
    ensures
        names_sorted(s.insert(insert_pos(s, k), (k, n))),
{
    lemma_find_key(s, k);
    lemma_insert_pos(s, k);
    let p = insert_pos(s, k);
    let t = s.insert(p, (k, n));
    assert forall|j: int| 0 <= j < p implies seq_lt(#[trigger] s[j].0, k) by {
        lemma_lt_total(s[j].0, k);
    }
    assert forall|j: int| p <= j < s.len() implies seq_lt(k, #[trigger] s[j].0) by {
        if j > p {
            lemma_lt_transitive(k, s[p].0, s[j].0);
        }
    }
    assert forall|i: int, j: int| 0 <= i < j < t.len() implies seq_lt(#[trigger] t[i].0, #[trigger] t[j].0) by {
        if i < p && j < p {
        } else if i < p && j == p {
        } else if i < p && j > p {
            assert(t[j] == s[j - 1]);
            lemma_lt_transitive(s[i].0, k, s[j - 1].0);
        } else if i == p {
            assert(t[j] == s[j - 1]);
        } else {
            assert(t[i] == s[i - 1] && t[j] == s[j - 1]);
        }
    }
}

// ----------------------------------------------------------------------
// Concrete types
// ----------------------------------------------------------------------

/// A file of the virtual file system.
pub struct VfsFile {
    /// The mods that supply the file: mod folder (or archive) to the path
    /// of the file in it, oldest first; the last one wins.
    pub paths: OrderedHashMap<String, String>,
    /// DLTX patches of the file: origin to patch path.
    pub dltx_patches: Vec<(String, String)>,
}

/// A node of the virtual file system.
pub enum VfsNode {
    Dir(VfsTree),
    File(VfsFile),
}

/// A folder of the virtual file system: its entries, in name order.
pub struct VfsTree {
    entries: Vec<(String, VfsNode)>,
}

pub open spec fn pairs_view(s: Seq<(String, String)>) -> Seq<(Seq<char>, Seq<char>)> {
    s.map_values(|p: (String, String)| (p.0@, p.1@))
}

impl VfsFile {
    pub open spec fn view(&self) -> FileView {
        FileView { paths: origin_entries(self.paths), patches: pairs_view(self.dltx_patches@) }
    }
}

impl VfsNode {
    pub open spec fn view(&self) -> NodeView
        decreases self,
    {
        match self {
            VfsNode::Dir(t) => NodeView::Dir(t@),
            VfsNode::File(f) => NodeView::File(f.view()),
        }
    }
}

pub open spec fn entries_view(s: Seq<(String, VfsNode)>) -> Seq<(Seq<char>, NodeView)>
    decreases s,
{
    if s.len() == 0 {
        Seq::empty()
    } else {
        entries_view(s.subrange(0, s.len() - 1)).push((s[s.len() - 1].0@, s[s.len() - 1].1.view()))
    }
}

pub proof fn lemma_entries_view(s: Seq<(String, VfsNode)>)
    ensures
        entries_view(s).len() == s.len(),
        forall|i: int| 0 <= i < s.len() ==> #[trigger] entries_view(s)[i] == (s[i].0@, s[i].1.view()),
    decreases s.len(),
{
    if s.len() > 0 {
        lemma_entries_view(s.subrange(0, s.len() - 1));
    }
}

impl VfsTree {
    #[verifier::type_invariant]
    spec fn inv(self) -> bool {
        names_sorted(self.entries@.map_values(|p: (String, VfsNode)| (p.0@, ())))
    }

    /// The folder's entries, in name order.
    pub closed spec fn view(&self) -> Seq<(Seq<char>, NodeView)>
        decreases self,
    {
        entries_view(self.entries@)
    }

    /// An empty folder.
    pub fn new() -> (t: VfsTree)
        ensures
            t@ == Seq::<(Seq<char>, NodeView)>::empty(),
    {
        let t = VfsTree { entries: Vec::new() };
        assert(t@ =~= Seq::<(Seq<char>, NodeView)>::empty());
        t
    }

    /// The folder's entries, in name order.
    pub fn entries(&self) -> (r: &Vec<(String, VfsNode)>)
        ensures
            entries_view(r@) == self@,
            r@.len() == self@.len(),
            forall|i: int| 0 <= i < r@.len() ==> (#[trigger] r@[i]).0@ == self@[i].0 && r@[i].1@ == self@[i].1,
            names_sorted(self@),
    {
        proof {
            use_type_invariant(self);
            lemma_entries_view(self.entries@);
            self.lemma_sorted_view();
        }
        &self.entries
    }

    proof fn lemma_sorted_view(&self)
        requires
            self.inv(),
        ensures
            names_sorted(self@),
    {
        lemma_entries_view(self.entries@);
        let m = self.entries@.map_values(|p: (String, VfsNode)| (p.0@, ()));
        assert forall|i: int, j: int| 0 <= i < j < self@.len() implies seq_lt(#[trigger] self@[i].0, #[trigger] self@[j].0) by {
            assert(m[i].0 == self@[i].0);
            assert(m[j].0 == self@[j].0);
        }
    }

    /// Takes the entries out.
    pub fn into_entries(self) -> (r: Vec<(String, VfsNode)>)
        ensures
            entries_view(r@) == self@,
            names_sorted(entries_view(r@)),
    {
        proof {
            use_type_invariant(&self);
            self.lemma_sorted_view();
        }
        self.entries
    }

    /// A folder from entries already in name order.
    fn from_sorted(entries: Vec<(String, VfsNode)>) -> (t: VfsTree)
        requires
            names_sorted(entries_view(entries@)),
        ensures
            t@ == entries_view(entries@),
    {
        proof {
            lemma_entries_view(entries@);
            let m = entries@.map_values(|p: (String, VfsNode)| (p.0@, ()));
            let v = entries_view(entries@);
            assert forall|i: int, j: int| 0 <= i < j < m.len() implies seq_lt(#[trigger] m[i].0, #[trigger] m[j].0) by {
                assert(m[i].0 == v[i].0);
                assert(m[j].0 == v[j].0);
            }
        }
        VfsTree { entries }
    }
}

/// The position of the entry named `k`.
fn find_entry(s: &Vec<(String, VfsNode)>, k: &str) -> (r: Option<usize>)
    ensures
        match r {
            Some(i) => i as int == find_key(entries_view(s@), k@),
            None => find_key(entries_view(s@), k@) == -1,
        },
{
    proof {
        lemma_entries_view(s@);
    }
    let n = s.len();
    let mut i: usize = 0;
    while i < n
        invariant
            n == s@.len(),
            i <= n,
            entries_view(s@).len() == n,
            forall|j: int| 0 <= j < n ==> #[trigger] entries_view(s@)[j] == (s@[j].0@, s@[j].1@),
            forall|j: int| 0 <= j < i ==> entries_view(s@)[j].0 != k@,
        decreases n - i,
    {
        if str_eq(s[i].0.as_str(), k) {
            proof {
                lemma_find_key(entries_view(s@), k@);
                let f = find_key(entries_view(s@), k@);
                assert(entries_view(s@)[i as int].0 == k@);
                assert(f >= 0);
                assert(f == i) by {
                    if f < i {
                    } else if f > i {
                    }
                }
            }
            return Some(i);
        }
        i = i + 1;
    }
    proof {
        lemma_find_key(entries_view(s@), k@);
    }
    None
}

/// Where an entry named `k` goes.
fn entry_insert_pos(s: &Vec<(String, VfsNode)>, k: &str) -> (r: usize)
    ensures
        r as int == insert_pos(entries_view(s@), k@),
{
    proof {
        lemma_entries_view(s@);
    }
    let n = s.len();
    let mut i: usize = 0;
    while i < n
        invariant
            n == s@.len(),
            i <= n,
            entries_view(s@).len() == n,
            forall|j: int| 0 <= j < n ==> #[trigger] entries_view(s@)[j] == (s@[j].0@, s@[j].1@),
            forall|j: int| 0 <= j < i ==> !seq_lt(k@, #[trigger] entries_view(s@)[j].0),
        decreases n - i,
    {
        if str_lt(k, s[i].0.as_str()) {
            proof {
                lemma_insert_pos(entries_view(s@), k@);
                let f = insert_pos(entries_view(s@), k@);
                assert(seq_lt(k@, entries_view(s@)[i as int].0));
                assert(f == i) by {
                    if f < i {
                    } else if f > i {
                    }
                }
            }
            return i;
        }
        i = i + 1;
    }
    proof {
        lemma_insert_pos(entries_view(s@), k@);
    }
    n
}

proof fn lemma_view_insert(s: Seq<(String, VfsNode)>, p: int, e: (String, VfsNode))
    requires
        0 <= p <= s.len(),
    ensures
        entries_view(s.insert(p, e)) == entries_view(s).insert(p, (e.0@, e.1@)),
{
    lemma_entries_view(s);
    lemma_entries_view(s.insert(p, e));
    assert(entries_view(s.insert(p, e)) =~= entries_view(s).insert(p, (e.0@, e.1@)));
}

proof fn lemma_view_remove_insert(s: Seq<(String, VfsNode)>, p: int, e: (String, VfsNode))
    requires
        0 <= p < s.len(),
    ensures
        entries_view(s.remove(p).insert(p, e)) == entries_view(s).update(p, (e.0@, e.1@)),
{
    lemma_entries_view(s);
    lemma_entries_view(s.remove(p).insert(p, e));
    assert(entries_view(s.remove(p).insert(p, e)) =~= entries_view(s).update(p, (e.0@, e.1@)));
}

/// Replacing the value of an entry keeps the names in order.
proof fn lemma_sorted_update<V>(s: Seq<(Seq<char>, V)>, i: int, e: (Seq<char>, V))
    requires
        names_sorted(s),
        0 <= i < s.len(),
        e.0 == s[i].0,
    ensures
        names_sorted(s.update(i, e)),
{
    let t = s.update(i, e);
    assert forall|a: int, b: int| 0 <= a < b < t.len() implies seq_lt(#[trigger] t[a].0, #[trigger] t[b].0) by {
        assert(t[a].0 == s[a].0 && t[b].0 == s[b].0);
    }
}

impl VfsTree {
    /// Sets the entry named `k` to `n` (what `BTreeMap::insert` does).
    pub fn insert(self, k: String, n: VfsNode) -> (t: VfsTree)
        ensures
            t@ == dir_insert(self@, k@, n@),
    {
        let mut v = self.into_entries();
        let ghost s0 = v@;
        proof {
            lemma_entries_view(s0);
            lemma_find_key(self@, k@);
        }
        match find_entry(&v, k.as_str()) {
            Some(i) => {
                let old = v.remove(i);
                let key = old.0;
                v.insert(i, (key, n));
                proof {
                    assert(v@ == s0.remove(i as int).insert(i as int, (key, n)));
                    lemma_view_remove_insert(s0, i as int, (key, n));
                    lemma_sorted_update(self@, i as int, (key@, n@));
                }
            },
            None => {
                let p = entry_insert_pos(&v, k.as_str());
                proof {
                    lemma_insert_pos(self@, k@);
                    lemma_sorted_insert(self@, k@, n@);
                }
                v.insert(p, (k, n));
                proof {
                    lemma_view_insert(s0, p as int, (k, n));
                }
            },
        }
        VfsTree::from_sorted(v)
    }
}

impl VfsTree {
    fn take_entries(self) -> (r: Vec<(String, VfsNode)>)
        ensures
            r == self.entries,
            entries_view(r@) == self@,
            names_sorted(self@),
    {
        proof {
            use_type_invariant(&self);
            self.lemma_sorted_view();
        }
        self.entries
    }
}

/// The position of the patch from origin `k`.
fn find_patch(e: &Vec<(String, String)>, k: &str) -> (r: Option<usize>)
    ensures
        match r {
            Some(i) => i as int == find_key(pairs_view(e@), k@),
            None => find_key(pairs_view(e@), k@) == -1,
        },
{
    let n = e.len();
    let mut i: usize = 0;
    while i < n
        invariant
            n == e@.len(),
            i <= n,
            pairs_view(e@).len() == n,
            forall|j: int| 0 <= j < i ==> pairs_view(e@)[j].0 != k@,
        decreases n - i,
    {
        if str_eq(e[i].0.as_str(), k) {
            proof {
                lemma_find_key(pairs_view(e@), k@);
                let f = find_key(pairs_view(e@), k@);
                assert(pairs_view(e@)[i as int].0 == k@);
                assert(f == i) by {
                    if f < i {
                    } else if f > i {
                    }
                }
            }
            return Some(i);
        }
        i = i + 1;
    }
    proof {
        lemma_find_key(pairs_view(e@), k@);
    }
    None
}

/// Adds the DLTX patches of `other` to `e`.
fn patch_extend(e: &mut Vec<(String, String)>, other: &Vec<(String, String)>)
    ensures
        pairs_view(final(e)@) == patch_extend_spec(pairs_view(old(e)@), pairs_view(other@)),
{
    let ghost o = pairs_view(other@);
    let n = other.len();
    let mut i: usize = 0;
    assert(o.subrange(0, n as int) =~= o);
    while i < n
        invariant
            n == other@.len(),
            o == pairs_view(other@),
            i <= n,
            patch_extend_spec(pairs_view(old(e)@), o) == patch_extend_spec(
                pairs_view(e@),
                o.subrange(i as int, n as int),
            ),
        decreases n - i,
    {
        let k = other[i].0.clone();
        let v = other[i].1.clone();
        let ghost cur = pairs_view(e@);
        proof {
            let rest = o.subrange(i as int, n as int);
            assert(rest[0] == (k@, v@));
            assert(rest.drop_first() =~= o.subrange(i + 1, n as int));
        }
        match find_patch(e, k.as_str()) {
            Some(j) => {
                proof {
                    lemma_find_key(cur, k@);
                }
                e.set(j, (k, v));
                proof {
                    assert(pairs_view(e@) =~= cur.update(j as int, (k@, v@)));
                }
            },
            None => {
                e.push((k, v));
                proof {
                    assert(pairs_view(e@) =~= cur.push((k@, v@)));
                }
            },
        }
        i = i + 1;
    }
    assert(o.subrange(n as int, n as int) =~= Seq::<(Seq<char>, Seq<char>)>::empty());
}

/// Two files at the same place: the second's origins and patches added to
/// the first's.
fn merge_file(a: VfsFile, b: VfsFile) -> (r: VfsFile)
    ensures
        r@ == file_merge(a@, b@),
{
    let mut paths = a.paths;
    crate::origins::ohm_extend(&mut paths, b.paths);
    let mut patches = a.dltx_patches;
    patch_extend(&mut patches, &b.dltx_patches);
    VfsFile { paths, dltx_patches: patches }
}

/// Merges the entries of the folder `t2`, in order, into the folder `t1`.
fn merge_trees(t1: VfsTree, t2: VfsTree) -> (r: VfsTree)
    ensures
        r@ == merge_dir(t1@, t2@),
    decreases t2,
{
    let ghost b = t2@;
    let ghost e2 = t2.entries;
    let mut rest = t2.take_entries();
    let mut acc = t1;
    let ghost mut i: int = 0;
    proof {
        lemma_entries_view(e2@);
        assert(e2@.subrange(0, e2@.len() as int) =~= e2@);
    }
    while rest.len() > 0
        invariant
            0 <= i <= e2@.len(),
            rest@ == e2@.subrange(i, e2@.len() as int),
            b == entries_view(e2@),
            t2.entries == e2,
            merge_dir(t1@, b) == merge_dir(acc@, entries_view(rest@)),
        decreases rest@.len(),
    {
        let ghost r0 = rest@;
        let (k, n) = rest.remove(0);
        proof {
            lemma_entries_view(r0);
            lemma_entries_view(rest@);
            assert(rest@ =~= r0.subrange(1, r0.len() as int));
            assert(entries_view(rest@) =~= entries_view(r0).subrange(1, r0.len() as int));
            assert(n == e2@[i].1);
            assert(decreases_to!(t2 => t2.entries));
            assert(decreases_to!(e2@ => e2@[i]));
        }
        acc = merge_entry_exec(acc, k, n);
        proof {
            i = i + 1;
            assert(rest@ =~= e2@.subrange(i, e2@.len() as int));
        }
    }
    proof {
        lemma_entries_view(rest@);
    }
    acc
}

/// One entry merged into the folder `acc`.
fn merge_entry_exec(acc: VfsTree, k: String, n: VfsNode) -> (r: VfsTree)
    ensures
        r@ == merge_entry(acc@, k@, n@),
    decreases n,
{
    let ghost a = acc@;
    let mut v = acc.into_entries();
    let ghost s0 = v@;
    proof {
        lemma_entries_view(s0);
        lemma_find_key(a, k@);
    }
    match find_entry(&v, k.as_str()) {
        None => {
            let p = entry_insert_pos(&v, k.as_str());
            proof {
                lemma_insert_pos(a, k@);
                lemma_sorted_insert(a, k@, n@);
            }
            v.insert(p, (k, n));
            proof {
                lemma_view_insert(s0, p as int, (k, n));
            }
            VfsTree::from_sorted(v)
        },
        Some(i) => {
            let (ek, en) = v.remove(i);
            let merged = match en {
                VfsNode::Dir(x) => match n {
                    VfsNode::Dir(y) => VfsNode::Dir(merge_trees(x, y)),
                    VfsNode::File(f) => VfsNode::Dir(x),
                },
                VfsNode::File(x) => match n {
                    VfsNode::File(y) => VfsNode::File(merge_file(x, y)),
                    VfsNode::Dir(d) => VfsNode::File(x),
                },
            };
            v.insert(i, (ek, merged));
            proof {
                lemma_view_remove_insert(s0, i as int, (ek, merged));
                lemma_sorted_update(a, i as int, (ek@, merged@));
                assert(a[i as int].1 == s0[i as int].1@);
            }
            VfsTree::from_sorted(v)
        },
    }
}

/// Merges the second tree into the first: entries that only the second has
/// are added, folders present in both are merged, a file present in both
/// gets the second's origins after its own, and where one has a folder and
/// the other a file the first one's entry stays.  A file as the second tree
/// leaves the first unchanged.
pub fn merge_vfs_trees(tree1: VfsTree, tree2: VfsNode) -> (r: VfsTree)
    ensures
        r@ == match tree2@ {
            NodeView::Dir(b) => merge_dir(tree1@, b),
            NodeView::File(_) => tree1@,
        },
{
    match tree2 {
        VfsNode::Dir(t2) => merge_trees(tree1, t2),
        VfsNode::File(_) => tree1,
    }
}

// ----------------------------------------------------------------------
// Copies
// ----------------------------------------------------------------------

fn clone_pairs(e: &Vec<(String, String)>) -> (r: Vec<(String, String)>)
    ensures
        pairs_view(r@) == pairs_view(e@),
{
    let mut r: Vec<(String, String)> = Vec::new();
    let n = e.len();
    let mut i: usize = 0;
    while i < n
        invariant
            n == e@.len(),
            i <= n,
            pairs_view(r@) == pairs_view(e@).subrange(0, i as int),
        decreases n - i,
    {
        let a = e[i].0.clone();
        let b = e[i].1.clone();
        let ghost before = r@;
        r.push((a, b));
        proof {
            assert(a@ == e@[i as int].0@ && b@ == e@[i as int].1@);
            assert(pairs_view(r@) =~= pairs_view(before).push((a@, b@)));
            assert(pairs_view(r@) =~= pairs_view(e@).subrange(0, i + 1));
        }
        i = i + 1;
    }
    assert(pairs_view(e@).subrange(0, n as int) =~= pairs_view(e@));
    r
}

impl VfsFile {
    /// A file with no origin and no patch.
    pub fn new() -> (f: VfsFile)
        ensures
            f@ == (FileView { paths: Seq::empty(), patches: Seq::empty() }),
    {
        let f = VfsFile { paths: crate::origins::ohm_new(), dltx_patches: Vec::new() };
        assert(pairs_view(f.dltx_patches@) =~= Seq::<(Seq<char>, Seq<char>)>::empty());
        f
    }

    /// A copy of the file.
    pub fn deep_clone(&self) -> (r: VfsFile)
        ensures
            r@ == self@,
    {
        VfsFile {
            paths: crate::origins::ohm_clone(&self.paths),
            dltx_patches: clone_pairs(&self.dltx_patches),
        }
    }

    /// The path of the file in the mod that wins, the one merged last.
    pub fn winning_source(&self) -> (r: Option<String>)
        ensures
            match r {
                Some(p) => self@.paths.len() > 0 && p@ == self@.paths.last().1,
                None => self@.paths.len() == 0,
            },
    {
        crate::origins::ohm_back(&self.paths)
    }

    /// The number of mods that supply the file.
    pub fn origin_count(&self) -> (r: usize)
        ensures
            r == self@.paths.len(),
    {
        crate::origins::ohm_len(&self.paths)
    }
}

impl VfsNode {
    /// A copy of the node and everything below it.
    pub fn deep_clone(&self) -> (r: VfsNode)
        ensures
            r@ == self@,
        decreases self,
    {
        match self {
            VfsNode::Dir(t) => VfsNode::Dir(t.deep_clone()),
            VfsNode::File(f) => VfsNode::File(f.deep_clone()),
        }
    }
}

impl VfsTree {
    /// A copy of the folder and everything below it.
    pub fn deep_clone(&self) -> (r: VfsTree)
        ensures
            r@ == self@,
        decreases self,
    {
        proof {
            use_type_invariant(self);
            self.lemma_sorted_view();
            lemma_entries_view(self.entries@);
        }
        let mut v: Vec<(String, VfsNode)> = Vec::new();
        let n = self.entries.len();
        let mut i: usize = 0;
        while i < n
            invariant
                n == self.entries@.len(),
                i <= n,
                entries_view(self.entries@) == self@,
                entries_view(v@) == self@.subrange(0, i as int),
                names_sorted(self@),
            decreases n - i,
        {
            proof {
                lemma_entries_view(self.entries@);
                assert(decreases_to!(self => self.entries));
            }
            let k = self.entries[i].0.clone();
            let c = self.entries[i].1.deep_clone();
            let ghost before = v@;
            v.push((k, c));
            proof {
                lemma_entries_view(before);
                lemma_entries_view(v@);
                assert(entries_view(v@) =~= self@.subrange(0, i + 1));
            }
            i = i + 1;
        }
        proof {
            assert(self@.subrange(0, n as int) =~= self@);
        }
        VfsTree::from_sorted(v)
    }
}

// ----------------------------------------------------------------------
// Archive listings
// ----------------------------------------------------------------------

/// The folder `s` after an archive entry, split into its path components
/// `comps`, is recorded: folders on the way are created where missing, the
/// last component becomes a folder, or a file that gets `origin` mapped to
/// `rel`; a file where a folder is needed stops the walk.
pub open spec fn zip_insert(
    s: Seq<(Seq<char>, NodeView)>,
    comps: Seq<Seq<char>>,
    origin: Seq<char>,
    rel: Seq<char>,
    is_dir: bool,
) -> Seq<(Seq<char>, NodeView)>
    decreases comps.len(),
{
    if comps.len() == 0 {
        s
    } else {
        let k = comps[0];
        let i = find_key(s, k);
        if comps.len() == 1 {
            if is_dir {
                if i >= 0 {
                    s
                } else {
                    s.insert(insert_pos(s, k), (k, NodeView::Dir(Seq::empty())))
                }
            } else if i < 0 {
                s.insert(
                    insert_pos(s, k),
                    (k, NodeView::File(FileView {
                        paths: ohm_insert_spec(Seq::empty(), origin, rel),
                        patches: Seq::empty(),
                    })),
                )
            } else {
                match s[i].1 {
                    NodeView::File(f) => s.update(
                        i,
                        (s[i].0, NodeView::File(FileView {
                            paths: ohm_insert_spec(f.paths, origin, rel),
                            patches: f.patches,
                        })),
                    ),
                    NodeView::Dir(_) => s,
                }
            }
        } else if i < 0 {
            s.insert(
                insert_pos(s, k),
                (k, NodeView::Dir(zip_insert(Seq::empty(), comps.drop_first(), origin, rel, is_dir))),
            )
        } else {
            match s[i].1 {
                NodeView::Dir(c) => s.update(
                    i,
                    (s[i].0, NodeView::Dir(zip_insert(c, comps.drop_first(), origin, rel, is_dir))),
                ),
                NodeView::File(_) => s,
            }
        }
    }
}

fn zip_insert_exec(
    t: VfsTree,
    comps: &Vec<String>,
    at: usize,
    origin: &str,
    rel: &str,
    is_dir: bool,
) -> (r: VfsTree)
    requires
        at <= comps@.len(),
    ensures
        r@ == zip_insert(
            t@,
            comps@.map_values(|c: String| c@).subrange(at as int, comps@.len() as int),
            origin@,
            rel@,
            is_dir,
        ),
    decreases comps@.len() - at,
{
    let ghost cs = comps@.map_values(|c: String| c@).subrange(at as int, comps@.len() as int);
    if at == comps.len() {
        return t;
    }
    let k = &comps[at];
    let ghost a = t@;
    proof {
        assert(cs[0] == k@);
        assert(cs.drop_first() =~= comps@.map_values(|c: String| c@).subrange(
            at + 1,
            comps@.len() as int,
        ));
        lemma_find_key(a, k@);
    }
    let mut v = t.into_entries();
    let ghost s0 = v@;
    proof {
        lemma_entries_view(s0);
    }
    let last = at + 1 == comps.len();
    match find_entry(&v, k.as_str()) {
        None => {
            let p = entry_insert_pos(&v, k.as_str());
            let node = if last {
                if is_dir {
                    VfsNode::Dir(VfsTree::new())
                } else {
                    let mut f = VfsFile::new();
                    crate::origins::ohm_insert(&mut f.paths, to_owned_string(origin), to_owned_string(rel));
                    VfsNode::File(f)
                }
            } else {
                VfsNode::Dir(zip_insert_exec(VfsTree::new(), comps, at + 1, origin, rel, is_dir))
            };
            proof {
                lemma_insert_pos(a, k@);
                lemma_sorted_insert(a, k@, node@);
            }
            let kc = k.clone();
            v.insert(p, (kc, node));
            proof {
                lemma_view_insert(s0, p as int, (kc, node));
            }
            VfsTree::from_sorted(v)
        },
        Some(i) => {
            let (ek, en) = v.remove(i);
            let node = match en {
                VfsNode::Dir(c) => {
                    if last {
                        VfsNode::Dir(c)
                    } else {
                        VfsNode::Dir(zip_insert_exec(c, comps, at + 1, origin, rel, is_dir))
                    }
                },
                VfsNode::File(f) => {
                    if last && !is_dir {
                        let mut g = f;
                        crate::origins::ohm_insert(&mut g.paths, to_owned_string(origin), to_owned_string(rel));
                        VfsNode::File(g)
                    } else {
                        VfsNode::File(f)
                    }
                },
            };
            v.insert(i, (ek, node));
            proof {
                lemma_view_remove_insert(s0, i as int, (ek, node));
                lemma_sorted_update(a, i as int, (ek@, node@));
                assert(a[i as int].1 == s0[i as int].1@);
                if entries_view(v@) != a.update(i as int, (a[i as int].0, node@)) {
                } else {
                }
                assert(a.update(i as int, (a[i as int].0, a[i as int].1)) =~= a);
            }
            VfsTree::from_sorted(v)
        },
    }
}

/// Records one archive entry in the folder `tree`: `path` is the entry's
/// path inside the archive, `origin_path` the archive.  The folders on the
/// way are created where missing; the entry becomes a folder, or a file
/// whose origins map `origin_path` to `path`.  A file standing where a
/// folder is needed leaves the tree unchanged.
pub fn insert_zip_entry(tree: &mut VfsTree, path: &str, origin_path: &str, is_dir: bool)
    ensures
        final(tree)@ == zip_insert(old(tree)@, crate::paths::std_path_components(path@), origin_path@, path@, is_dir),
{
    let comps = crate::paths::path_components(path);
    let mut t = VfsTree::new();
    std::mem::swap(tree, &mut t);
    proof {
        assert(comps@.map_values(|c: String| c@).subrange(0, comps@.len() as int)
            =~= comps@.map_values(|c: String| c@));
    }
    *tree = zip_insert_exec(t, &comps, 0, origin_path, path, is_dir);
}

/// The tree of an archive from its entries, each a path inside the archive
/// and whether it is a folder, recorded in order.
pub open spec fn archive_tree(entries: Seq<(Seq<char>, bool)>, origin: Seq<char>) -> Seq<(Seq<char>, NodeView)>
    decreases entries.len(),
{
    if entries.len() == 0 {
        Seq::empty()
    } else {
        let e = entries.last();
        zip_insert(
            archive_tree(entries.drop_last(), origin),
            crate::paths::std_path_components(e.0),
            origin,
            e.0,
            e.1,
        )
    }
}

/// The tree of an archive at `origin_path` from its entries (path inside
/// the archive, whether it is a folder), in the order the archive lists
/// them.
pub fn vfs_scan_archive(entries: &Vec<(String, bool)>, origin_path: &str) -> (r: VfsNode)
    ensures
        r@ == NodeView::Dir(archive_tree(entries@.map_values(|e: (String, bool)| (e.0@, e.1)), origin_path@)),
{
    let ghost es = entries@.map_values(|e: (String, bool)| (e.0@, e.1));
    let mut tree = VfsTree::new();
    let n = entries.len();
    let mut i: usize = 0;
    while i < n
        invariant
            n == entries@.len(),
            i <= n,
            es == entries@.map_values(|e: (String, bool)| (e.0@, e.1)),
            tree@ == archive_tree(es.subrange(0, i as int), origin_path@),
        decreases n - i,
    {
        insert_zip_entry(&mut tree, entries[i].0.as_str(), origin_path, entries[i].1);
        proof {
            let p = es.subrange(0, i + 1);
            assert(p.drop_last() =~= es.subrange(0, i as int));
            assert(p.last() == es[i as int]);
        }
        i = i + 1;
    }
    assert(es.subrange(0, n as int) =~= es);
    VfsNode::Dir(tree)
}

// ----------------------------------------------------------------------
// Folders read from disk
// ----------------------------------------------------------------------

/// One entry found while reading a mod's folder on disk.
pub struct ListedEntry {
    /// The entry's path as read: the folder's path joined with its name.
    pub path: String,
    /// For a folder, what was read from it (nothing where it could not be
    /// read); `None` for a file.
    pub children: Option<Vec<ListedEntry>>,
}

/// The folder built from the entries read from a mod's folder whose path is
/// `origin`: each entry is named by its path relative to `origin`, a file
/// records `origin` as its one origin.
pub open spec fn listing_entries(l: Seq<ListedEntry>, origin: Seq<char>) -> Seq<(Seq<char>, NodeView)>
    decreases l,
{
    if l.len() == 0 {
        Seq::empty()
    } else {
        dir_insert(
            listing_entries(l.subrange(0, l.len() - 1), origin),
            crate::paths::pathdiff_spec(l[l.len() - 1].path@, origin),
            listed_node(l[l.len() - 1], origin),
        )
    }
}

/// The node built from one entry read from disk.
pub open spec fn listed_node(e: ListedEntry, origin: Seq<char>) -> NodeView
    decreases e,
{
    match e.children {
        Some(c) => NodeView::Dir(listing_entries(c@, origin)),
        None => NodeView::File(FileView {
            paths: ohm_insert_spec(Seq::empty(), origin, e.path@),
            patches: Seq::empty(),
        }),
    }
}

/// The folder of a mod, from what was read of it on disk (`listing`, the
/// entries of the folder `origin_path`): every entry is keyed by its path
/// relative to `origin_path`, and every file records `origin_path` mapped
/// to its own path.
pub fn vfs_scan(listing: &Vec<ListedEntry>, origin_path: &str) -> (r: VfsNode)
    ensures
        r@ == NodeView::Dir(listing_entries(listing@, origin_path@)),
    decreases listing,
{
    let mut tree = VfsTree::new();
    let n = listing.len();
    let mut i: usize = 0;
    assert(listing@.subrange(0, 0) =~= Seq::<ListedEntry>::empty());
    while i < n
        invariant
            n == listing@.len(),
            i <= n,
            tree@ == listing_entries(listing@.subrange(0, i as int), origin_path@),
        decreases n - i,
    {
        let e = &listing[i];
        let key = crate::paths::pathdiff(e.path.as_str(), origin_path);
        let node = match &e.children {
            Some(c) => {
                proof {
                    assert(decreases_to!(listing => listing@));
                    assert(decreases_to!(listing@ => listing@[i as int]));
                }
                vfs_scan(c, origin_path)
            },
            None => {
                let mut f = VfsFile::new();
                crate::origins::ohm_insert(&mut f.paths, to_owned_string(origin_path), e.path.clone());
                VfsNode::File(f)
            },
        };
        proof {
            assert(node@ == listed_node(listing@[i as int], origin_path@));
        }
        tree = tree.insert(key, node);
        proof {
            let p = listing@.subrange(0, i + 1);
            assert(p.subrange(0, p.len() - 1) =~= listing@.subrange(0, i as int));
            assert(p[p.len() - 1] == listing@[i as int]);
        }
        i = i + 1;
    }
    assert(listing@.subrange(0, n as int) =~= listing@);
    VfsNode::Dir(tree)
}

// ----------------------------------------------------------------------
// Laws of merging
// ----------------------------------------------------------------------

/// The names of a folder's entries, in order.
pub open spec fn names_of(s: Seq<(Seq<char>, NodeView)>) -> Seq<Seq<char>> {
    s.map_values(|e: (Seq<char>, NodeView)| e.0)
}

/// Merging an empty folder into a tree changes nothing.
pub proof fn law_merge_empty(a: Seq<(Seq<char>, NodeView)>)
    ensures
        merge_dir(a, Seq::empty()) == a,
{
}

proof fn lemma_merge_sorted_suffix(b: Seq<(Seq<char>, NodeView)>, i: int)
    requires
        names_sorted(b),
        0 <= i <= b.len(),
    ensures
        merge_dir(b.subrange(0, i), b.subrange(i, b.len() as int)) == b,
    decreases b.len() - i,
{
    if i == b.len() {
        assert(b.subrange(0, i) =~= b);
    } else {
        let p = b.subrange(0, i);
        let k = b[i].0;
        lemma_find_key(p, k);
        lemma_insert_pos(p, k);
        assert forall|j: int| 0 <= j < p.len() implies p[j].0 != k by {
            assert(seq_lt(b[j].0, b[i].0));
            if p[j].0 == k {
                lemma_lt_irreflexive(k);
            }
        }
        assert(find_key(p, k) == -1);
        if insert_pos(p, k) < p.len() {
            let q = insert_pos(p, k);
            assert(seq_lt(b[q].0, b[i].0));
            crate::text::lemma_lt_asymmetric(b[q].0, b[i].0);
        }
        assert(insert_pos(p, k) == p.len());
        assert(merge_entry(p, k, b[i].1) =~= b.subrange(0, i + 1));
        let r = b.subrange(i, b.len() as int);
        assert(r[0] == b[i]);
        assert(r.subrange(1, r.len() as int) =~= b.subrange(i + 1, b.len() as int));
        lemma_merge_sorted_suffix(b, i + 1);
    }
}

/// Merging a folder into an empty tree gives that folder.
pub proof fn law_merge_into_empty(b: Seq<(Seq<char>, NodeView)>)
    requires
        names_sorted(b),
    ensures
        merge_dir(Seq::empty(), b) == b,
{
    lemma_merge_sorted_suffix(b, 0);
    assert(b.subrange(0, 0) =~= Seq::<(Seq<char>, NodeView)>::empty());
    assert(b.subrange(0, b.len() as int) =~= b);
}

proof fn lemma_merge_entry_names(a: Seq<(Seq<char>, NodeView)>, k: Seq<char>, n: NodeView, x: Seq<char>)
    ensures
        names_of(merge_entry(a, k, n)).contains(x) <==> names_of(a).contains(x) || x == k,
{
    lemma_find_key(a, k);
    lemma_insert_pos(a, k);
    let i = find_key(a, k);
    let m = merge_entry(a, k, n);
    if i < 0 {
        let p = insert_pos(a, k);
        assert(names_of(m) =~= names_of(a).insert(p, k));
        if names_of(a).contains(x) {
            let j = choose|j: int| 0 <= j < names_of(a).len() && names_of(a)[j] == x;
            if j < p {
                assert(names_of(m)[j] == x);
            } else {
                assert(names_of(m)[j + 1] == x);
            }
        }
        if x == k {
            assert(names_of(m)[p] == x);
        }
        if names_of(m).contains(x) {
            let j = choose|j: int| 0 <= j < names_of(m).len() && names_of(m)[j] == x;
            if j < p {
                assert(names_of(a)[j] == x);
            } else if j > p {
                assert(names_of(a)[j - 1] == x);
            }
        }
    } else {
        assert(names_of(m) =~= names_of(a)) by {
            assert forall|j: int| 0 <= j < a.len() implies names_of(m)[j] == names_of(a)[j] by {
                assert(m[j].0 == a[j].0);
            }
        }
        assert(names_of(a)[i] == k);
    }
}

/// The names in a merged tree are those of either tree.
pub proof fn law_merge_names(a: Seq<(Seq<char>, NodeView)>, b: Seq<(Seq<char>, NodeView)>, x: Seq<char>)
    ensures
        names_of(merge_dir(a, b)).contains(x) <==> names_of(a).contains(x) || names_of(b).contains(x),
    decreases b.len(),
{
    if b.len() > 0 {
        let rest = b.subrange(1, b.len() as int);
        let m = merge_entry(a, b[0].0, b[0].1);
        law_merge_names(m, rest, x);
        lemma_merge_entry_names(a, b[0].0, b[0].1, x);
        assert(names_of(b) =~= seq![b[0].0] + names_of(rest));
        if names_of(b).contains(x) && x != b[0].0 {
            let j = choose|j: int| 0 <= j < names_of(b).len() && names_of(b)[j] == x;
            assert(names_of(rest)[j - 1] == x);
        }
        if names_of(rest).contains(x) {
            let j = choose|j: int| 0 <= j < names_of(rest).len() && names_of(rest)[j] == x;
            assert(names_of(b)[j + 1] == x);
        }
        if x == b[0].0 {
            assert(names_of(b)[0] == x);
        }
    }
}

/// The node a folder holds under the name `k`, if any.
pub open spec fn lookup(s: Seq<(Seq<char>, NodeView)>, k: Seq<char>) -> Option<NodeView> {
    let i = find_key(s, k);
    if i >= 0 {
        Some(s[i].1)
    } else {
        None
    }
}

proof fn lemma_find_key_at<V>(s: Seq<(Seq<char>, V)>, k: Seq<char>, m: int)
    requires
        0 <= m < s.len(),
        s[m].0 == k,
        forall|j: int| 0 <= j < m ==> s[j].0 != k,
    ensures
        find_key(s, k) == m,
{
    lemma_find_key(s, k);
    let f = find_key(s, k);
    if 0 <= f && f < m {
        assert(s[f].0 == k);
    }
}

/// Extending an origin map with a non-empty one leaves the last pair of
/// the latter last.
proof fn lemma_extend_last(e: Seq<(Seq<char>, Seq<char>)>, o: Seq<(Seq<char>, Seq<char>)>)
    requires
        o.len() > 0,
    ensures
        ohm_extend_spec(e, o).len() > 0,
        ohm_extend_spec(e, o).last() == o.last(),
    decreases o.len(),
{
    let e2 = ohm_insert_spec(e, o[0].0, o[0].1);
    if o.len() == 1 {
        assert(o.drop_first().len() == 0);
        assert(ohm_extend_spec(e, o) == ohm_extend_spec(e2, o.drop_first()));
    } else {
        lemma_extend_last(e2, o.drop_first());
        assert(o.drop_first().last() == o.last());
    }
}

/// Merging an entry of another name leaves what the folder holds under
/// `k` as it was.
proof fn lemma_merge_entry_other(a: Seq<(Seq<char>, NodeView)>, k2: Seq<char>, n: NodeView, k: Seq<char>)
    requires
        k2 != k,
    ensures
        lookup(merge_entry(a, k2, n), k) == lookup(a, k),
{
    lemma_find_key(a, k2);
    lemma_find_key(a, k);
    lemma_insert_pos(a, k2);
    let m = merge_entry(a, k2, n);
    let i = find_key(a, k2);
    let f = find_key(a, k);
    if i < 0 {
        let p = insert_pos(a, k2);
        assert(m == a.insert(p, (k2, n)));
        if f >= 0 {
            if f < p {
                lemma_find_key_at(m, k, f);
            } else {
                assert forall|j: int| 0 <= j < f + 1 implies m[j].0 != k by {
                    if j > p {
                        assert(m[j] == a[j - 1]);
                    }
                }
                assert(m[f + 1] == a[f]);
                lemma_find_key_at(m, k, f + 1);
            }
        } else {
            lemma_find_key(m, k);
            assert forall|j: int| 0 <= j < m.len() implies m[j].0 != k by {
                if j > p {
                    assert(m[j] == a[j - 1]);
                }
            }
        }
    } else {
        assert(m.len() == a.len());
        assert(forall|j: int| 0 <= j < a.len() ==> #[trigger] m[j].0 == a[j].0);
        assert(forall|j: int| 0 <= j < a.len() && j != i ==> #[trigger] m[j] == a[j]);
        if f >= 0 {
            assert(f != i);
            lemma_find_key_at(m, k, f);
        } else {
            lemma_find_key(m, k);
        }
    }
}

/// Merging a folder without an entry named `k` leaves what the tree holds
/// under `k` as it was.
proof fn lemma_merge_dir_other(a: Seq<(Seq<char>, NodeView)>, b: Seq<(Seq<char>, NodeView)>, k: Seq<char>)
    requires
        find_key(b, k) == -1,
    ensures
        lookup(merge_dir(a, b), k) == lookup(a, k),
    decreases b.len(),
{
    if b.len() > 0 {
        lemma_find_key(b, k);
        let rest = b.subrange(1, b.len() as int);
        assert(b[0].0 != k);
        lemma_merge_entry_other(a, b[0].0, b[0].1, k);
        assert forall|j: int| 0 <= j < rest.len() implies rest[j].0 != k by {
            assert(rest[j] == b[j + 1]);
        }
        lemma_find_key(rest, k);
        lemma_merge_dir_other(merge_entry(a, b[0].0, b[0].1), rest, k);
    }
}

/// What a tree holds under a name after one node `n` is merged in under
/// that name, given what it held before (`old`).
pub open spec fn merged_at(old: Option<NodeView>, n: NodeView) -> Option<NodeView> {
    match old {
        None => Some(n),
        Some(NodeView::Dir(x)) => match n {
            NodeView::Dir(y) => Some(NodeView::Dir(merge_dir(x, y))),
            NodeView::File(_) => Some(NodeView::Dir(x)),
        },
        Some(NodeView::File(x)) => match n {
            NodeView::File(y) => Some(NodeView::File(file_merge(x, y))),
            NodeView::Dir(_) => Some(NodeView::File(x)),
        },
    }
}

proof fn lemma_merge_entry_same(a: Seq<(Seq<char>, NodeView)>, k: Seq<char>, n: NodeView)
    ensures
        lookup(merge_entry(a, k, n), k) == merged_at(lookup(a, k), n),
{
    lemma_find_key(a, k);
    lemma_insert_pos(a, k);
    let i = find_key(a, k);
    let m = merge_entry(a, k, n);
    if i < 0 {
        let p = insert_pos(a, k);
        assert(m == a.insert(p, (k, n)));
        lemma_find_key_at(m, k, p);
    } else {
        assert(m.len() == a.len());
        assert(forall|j: int| 0 <= j < a.len() ==> #[trigger] m[j].0 == a[j].0);
        lemma_find_key_at(m, k, i);
    }
}

/// In a folder `b` whose names are sorted, what the merge of `b` into `a`
/// holds under the name of `b`'s entry `j` is that entry merged into what
/// `a` held there; the other entries of `b` do not touch it.
proof fn lemma_merge_dir_at(a: Seq<(Seq<char>, NodeView)>, b: Seq<(Seq<char>, NodeView)>, j: int)
    requires
        names_sorted(b),
        0 <= j < b.len(),
    ensures
        lookup(merge_dir(a, b), b[j].0) == merged_at(lookup(a, b[j].0), b[j].1),
    decreases b.len(),
{
    let k = b[j].0;
    let rest = b.subrange(1, b.len() as int);
    let a2 = merge_entry(a, b[0].0, b[0].1);
    assert(merge_dir(a, b) == merge_dir(a2, rest));
    assert forall|i: int, l: int| 0 <= i < l < rest.len() implies seq_lt(#[trigger] rest[i].0, #[trigger] rest[l].0) by {
        assert(rest[i] == b[i + 1]);
        assert(rest[l] == b[l + 1]);
    }
    if j == 0 {
        lemma_merge_entry_same(a, k, b[0].1);
        assert forall|l: int| 0 <= l < rest.len() implies rest[l].0 != k by {
            assert(rest[l] == b[l + 1]);
            assert(seq_lt(b[0].0, b[l + 1].0));
            if rest[l].0 == k {
                lemma_lt_irreflexive(k);
            }
        }
        lemma_find_key(rest, k);
        lemma_merge_dir_other(a2, rest, k);
    } else {
        assert(seq_lt(b[0].0, b[j].0));
        if b[0].0 == k {
            lemma_lt_irreflexive(k);
        }
        lemma_merge_entry_other(a, b[0].0, b[0].1, k);
        assert(rest[j - 1] == b[j]);
        lemma_merge_dir_at(a2, rest, j - 1);
    }
}

/// The names of the folder and of every folder below it are sorted, as in
/// every `VfsTree`.
pub open spec fn deep_sorted(s: Seq<(Seq<char>, NodeView)>) -> bool
    decreases s,
{
    &&& names_sorted(s)
    &&& forall|i: int| 0 <= i < s.len() ==> match #[trigger] s[i].1 {
        NodeView::Dir(c) => deep_sorted(c),
        NodeView::File(_) => true,
    }
}

/// The node at the path `ks` (one name per level) below the folder `s`.
pub open spec fn lookup_path(s: Seq<(Seq<char>, NodeView)>, ks: Seq<Seq<char>>) -> Option<NodeView>
    decreases ks.len(),
{
    if ks.len() == 0 {
        None
    } else if ks.len() == 1 {
        lookup(s, ks[0])
    } else {
        match lookup(s, ks[0]) {
            Some(NodeView::Dir(c)) => lookup_path(c, ks.drop_first()),
            _ => None,
        }
    }
}

/// Nothing in the tree `a` is in the way of a file at the path `ks`: no
/// file where a folder on the path is, and no folder where the file is.
pub open spec fn open_for_file(a: Seq<(Seq<char>, NodeView)>, ks: Seq<Seq<char>>) -> bool
    decreases ks.len(),
{
    if ks.len() == 0 {
        true
    } else if ks.len() == 1 {
        !(lookup(a, ks[0]) matches Some(NodeView::Dir(_)))
    } else {
        match lookup(a, ks[0]) {
            None => true,
            Some(NodeView::Dir(c)) => open_for_file(c, ks.drop_first()),
            Some(NodeView::File(_)) => false,
        }
    }
}

/// Later mods win: when a mod's folder `b` is merged over a tree `a`, a
/// file that `b` holds at any path ends, in the merged tree, with `b`'s
/// source of it last, the one that is linked; unless something in `a` is
/// in the way (a file where `b` has a folder, or a folder where `b` has the
/// file), which stays.
pub proof fn law_later_mod_wins(
    a: Seq<(Seq<char>, NodeView)>,
    b: Seq<(Seq<char>, NodeView)>,
    ks: Seq<Seq<char>>,
    y: FileView,
)
    requires
        deep_sorted(b),
        lookup_path(b, ks) == Some(NodeView::File(y)),
        y.paths.len() > 0,
        open_for_file(a, ks),
    ensures
        lookup_path(merge_dir(a, b), ks) matches Some(NodeView::File(z)) && z.paths.len() > 0 && z.paths.last()
            == y.paths.last(),
    decreases ks.len(),
{
    let k = ks[0];
    lemma_find_key(b, k);
    let j = find_key(b, k);
    assert(j >= 0);
    lemma_merge_dir_at(a, b, j);
    if ks.len() == 1 {
        match lookup(a, k) {
            Some(NodeView::File(x)) => {
                lemma_extend_last(x.paths, y.paths);
            },
            _ => {},
        }
    } else {
        let rest = ks.drop_first();
        let cb = b[j].1->Dir_0;
        assert(deep_sorted(cb));
        match lookup(a, k) {
            Some(NodeView::Dir(ca)) => {
                law_later_mod_wins(ca, cb, rest, y);
            },
            _ => {},
        }
    }
}

} // verus!
