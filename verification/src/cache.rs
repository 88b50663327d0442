//! Building the virtual file system from the mod order.  The folder of
//! each enabled mod is read once and kept, by mod name, in a cache; the
//! tree is the cached folders merged in the order of the mods.
use vstd::prelude::*;
use crate::organize::ModEntry;
use crate::text::str_eq;
use crate::vfs::{
    VfsNode, VfsTree, NodeView, entries_view, find_key, lemma_find_key, lemma_entries_view,
    merge_dir, merge_vfs_trees, lookup, lookup_path, deep_sorted, open_for_file, law_later_mod_wins, FileView,
};

verus! {

/// The folders read so far, by mod name.
pub struct VfsCache {
    entries: Vec<(String, VfsNode)>,
}

/// The cache with `k` mapped to `n`: replaced where `k` is present, else
/// added.
pub open spec fn cache_put(s: Seq<(Seq<char>, NodeView)>, k: Seq<char>, n: NodeView) -> Seq<(Seq<char>, NodeView)> {
    let i = find_key(s, k);
    if i >= 0 {
        s.update(i, (k, n))
    } else {
        s.push((k, n))
    }
}

/// The cache without the entry for `k`.
pub open spec fn cache_drop(s: Seq<(Seq<char>, NodeView)>, k: Seq<char>) -> Seq<(Seq<char>, NodeView)> {
    let i = find_key(s, k);
    if i >= 0 {
        s.remove(i)
    } else {
        s
    }
}

/// The names of the mods of the order.
pub open spec fn order_names(order: Seq<ModEntry>) -> Seq<Seq<char>> {
    order.map_values(|m: ModEntry| m.name@)
}

/// A folder merged into `acc` (a file adds nothing).
pub open spec fn merge_node(acc: Seq<(Seq<char>, NodeView)>, n: NodeView) -> Seq<(Seq<char>, NodeView)> {
    match n {
        NodeView::Dir(b) => merge_dir(acc, b),
        NodeView::File(_) => acc,
    }
}

/// The tree of the mods named `names`, first to last, from what the cache
/// holds for them (a name the cache does not hold adds nothing).
pub open spec fn assemble(names: Seq<Seq<char>>, cache: Seq<(Seq<char>, NodeView)>) -> Seq<(Seq<char>, NodeView)>
    decreases names.len(),
{
    if names.len() == 0 {
        Seq::empty()
    } else {
        let acc = assemble(names.drop_last(), cache);
        let i = find_key(cache, names.last());
        if i >= 0 {
            merge_node(acc, cache[i].1)
        } else {
            acc
        }
    }
}

impl VfsCache {
    /// What the cache holds: mod names and their folders.
    pub closed spec fn view(&self) -> Seq<(Seq<char>, NodeView)> {
        entries_view(self.entries@)
    }

    /// An empty cache.
    pub fn new() -> (c: VfsCache)
        ensures
            c@ == Seq::<(Seq<char>, NodeView)>::empty(),
    {
        let c = VfsCache { entries: Vec::new() };
        assert(c@ =~= Seq::<(Seq<char>, NodeView)>::empty());
        c
    }

    fn find(&self, k: &str) -> (r: Option<usize>)
        ensures
            match r {
                Some(i) => i as int == find_key(self@, k@),
                None => find_key(self@, k@) == -1,
            },
    {
        proof {
            lemma_entries_view(self.entries@);
        }
        let n = self.entries.len();
        let mut i: usize = 0;
        while i < n
            invariant
                n == self.entries@.len(),
                i <= n,
                self@.len() == n,
                forall|j: int| 0 <= j < n ==> #[trigger] self@[j] == (self.entries@[j].0@, self.entries@[j].1@),
                forall|j: int| 0 <= j < i ==> self@[j].0 != k@,
            decreases n - i,
        {
            if str_eq(self.entries[i].0.as_str(), k) {
                proof {
                    lemma_find_key(self@, k@);
                    let f = find_key(self@, k@);
                    assert(self@[i as int].0 == k@);
                    assert(f == i) by {
                        if f < i {
                        } else if f > i {
                        }
                    }
                }
                return Some(i);
            }
            i = i + 1;
        }
        proof {
            lemma_find_key(self@, k@);
        }
        None
    }

    /// Whether the cache holds the folder of the mod named `name`.
    pub fn contains(&self, name: &str) -> (r: bool)
        ensures
            r == (find_key(self@, name@) >= 0),
    {
        self.find(name).is_some()
    }

    /// Records the folder read for the mod named `name`.
    pub fn insert(&mut self, name: String, node: VfsNode)
        ensures
            final(self)@ == cache_put(old(self)@, name@, node@),
    {
        let ghost s0 = self.entries@;
        proof {
            lemma_entries_view(s0);
            lemma_find_key(old(self)@, name@);
        }
        match self.find(name.as_str()) {
            Some(i) => {
                self.entries.set(i, (name, node));
            },
            None => {
                self.entries.push((name, node));
            },
        }
        proof {
            lemma_entries_view(self.entries@);
            assert(self@ =~= cache_put(old(self)@, name@, node@));
        }
    }

    /// Forgets the folder of the mod named `name`.
    pub fn remove(&mut self, name: &str)
        ensures
            final(self)@ == cache_drop(old(self)@, name@),
    {
        let ghost s0 = self.entries@;
        proof {
            lemma_entries_view(s0);
            lemma_find_key(old(self)@, name@);
        }
        match self.find(name) {
            Some(i) => {
                self.entries.remove(i);
            },
            None => {},
        }
        proof {
            lemma_entries_view(self.entries@);
            assert(self@ =~= cache_drop(old(self)@, name@));
        }
    }
}

/// What one mod of the order does to the cache: an enabled mod the cache
/// does not hold is to be read (its folder is returned, the cache is
/// unchanged until the folder read is inserted); a disabled mod the cache
/// holds is forgotten; anything else changes nothing.
pub fn cache_step(cache: &mut VfsCache, entry: &ModEntry) -> (scan: Option<String>)
    ensures
        find_key(old(cache)@, entry.name@) < 0 ==> final(cache)@ == old(cache)@ && if entry.enabled {
            scan == Some(entry.path)
        } else {
            scan is None
        },
        find_key(old(cache)@, entry.name@) >= 0 ==> scan is None && final(cache)@ == if entry.enabled {
            old(cache)@
        } else {
            cache_drop(old(cache)@, entry.name@)
        },
{
    if !cache.contains(entry.name.as_str()) {
        if entry.enabled {
            Some(entry.path.clone())
        } else {
            None
        }
    } else {
        if !entry.enabled {
            cache.remove(entry.name.as_str());
        }
        None
    }
}

/// Whether some mod of the order is named `name`.
fn order_has_name(order: &Vec<ModEntry>, name: &str) -> (r: bool)
    ensures
        r == order_names(order@).contains(name@),
{
    let n = order.len();
    let mut i: usize = 0;
    while i < n
        invariant
            n == order@.len(),
            i <= n,
            forall|j: int| 0 <= j < i ==> order@[j].name@ != name@,
        decreases n - i,
    {
        if str_eq(order[i].name.as_str(), name) {
            assert(order_names(order@)[i as int] == name@);
            return true;
        }
        i = i + 1;
    }
    proof {
        if order_names(order@).contains(name@) {
            let j = choose|j: int| 0 <= j < order_names(order@).len() && order_names(order@)[j] == name@;
            assert(order@[j].name@ == name@);
        }
    }
    false
}

/// Forgets the folders of mods no longer in the order.
pub fn cache_prune(cache: &mut VfsCache, order: &Vec<ModEntry>)
    ensures
        final(cache)@ == old(cache)@.filter(|e: (Seq<char>, NodeView)| order_names(order@).contains(e.0)),
{
    let ghost keep = |e: (Seq<char>, NodeView)| order_names(order@).contains(e.0);
    let ghost s0 = cache@;
    let mut old_entries: Vec<(String, VfsNode)> = Vec::new();
    std::mem::swap(&mut cache.entries, &mut old_entries);
    proof {
        lemma_entries_view(old_entries@);
    }
    let n = old_entries.len();
    let mut i: usize = 0;
    while i < n
        invariant
            n == old_entries@.len(),
            i <= n,
            entries_view(old_entries@) == s0,
            s0.len() == n,
            forall|j: int| 0 <= j < n ==> #[trigger] s0[j] == (old_entries@[j].0@, old_entries@[j].1@),
            keep == (|e: (Seq<char>, NodeView)| order_names(order@).contains(e.0)),
            cache@ == s0.subrange(0, i as int).filter(keep),
        decreases n - i,
    {
        proof {
            assert(s0.subrange(0, i + 1) =~= s0.subrange(0, i as int).push(s0[i as int]));
            s0.subrange(0, i as int).lemma_filter_push(s0[i as int], keep);
        }
        if order_has_name(order, old_entries[i].0.as_str()) {
            let k = old_entries[i].0.clone();
            let v = old_entries[i].1.deep_clone();
            let ghost before = cache.entries@;
            cache.entries.push((k, v));
            proof {
                lemma_entries_view(before);
                lemma_entries_view(cache.entries@);
                assert(cache@ =~= entries_view(before).push((k@, v@)));
            }
        }
        i = i + 1;
    }
    proof {
        assert(s0.subrange(0, n as int) =~= s0);
    }
}

/// The tree of the order: the folders the cache holds for the mods of the
/// order, merged first to last, so that later mods win.
pub fn gen_vfs_tree(order: &Vec<ModEntry>, cache: &VfsCache) -> (r: VfsTree)
    ensures
        r@ == assemble(order_names(order@), cache@),
{
    let ghost names = order_names(order@);
    let mut tree = VfsTree::new();
    let n = order.len();
    let mut i: usize = 0;
    proof {
        lemma_entries_view(cache.entries@);
    }
    while i < n
        invariant
            n == order@.len(),
            i <= n,
            names == order_names(order@),
            names.len() == n,
            cache@.len() == cache.entries@.len(),
            forall|j: int| 0 <= j < cache@.len() ==> #[trigger] cache@[j] == (cache.entries@[j].0@, cache.entries@[j].1@),
            tree@ == assemble(names.subrange(0, i as int), cache@),
        decreases n - i,
    {
        proof {
            let p = names.subrange(0, i + 1);
            assert(p.drop_last() =~= names.subrange(0, i as int));
            assert(p.last() == order@[i as int].name@);
            lemma_find_key(cache@, order@[i as int].name@);
        }
        match cache.find(order[i].name.as_str()) {
            Some(j) => {
                let node = cache.entries[j].1.deep_clone();
                proof {
                    assert(node@ == cache@[j as int].1);
                }
                tree = merge_vfs_trees(tree, node);
            },
            None => {},
        }
        i = i + 1;
    }
    proof {
        assert(names.subrange(0, n as int) =~= names);
    }
    tree
}

/// The tree of the order does not depend on the order in which the cache
/// took in the folders: two caches that hold the same folder for each mod
/// of the order give the same tree.
pub proof fn law_tree_ignores_cache_order(
    names: Seq<Seq<char>>,
    c1: Seq<(Seq<char>, NodeView)>,
    c2: Seq<(Seq<char>, NodeView)>,
)
    requires
        forall|k: int| 0 <= k < names.len() ==> lookup(c1, #[trigger] names[k]) == lookup(c2, names[k]),
    ensures
        assemble(names, c1) == assemble(names, c2),
    decreases names.len(),
{
    if names.len() > 0 {
        let d = names.drop_last();
        assert forall|k: int| 0 <= k < d.len() implies lookup(c1, #[trigger] d[k]) == lookup(c2, d[k]) by {
            assert(d[k] == names[k]);
        }
        law_tree_ignores_cache_order(d, c1, c2);
        assert(lookup(c1, names[names.len() - 1]) == lookup(c2, names[names.len() - 1]));
        lemma_find_key(c1, names.last());
        lemma_find_key(c2, names.last());
    }
}

/// The mod last in the order wins: a file that its cached folder holds at
/// any path ends, in the tree of the order, with that mod's source last,
/// the one that is linked; unless the tree of the mods before it has
/// something in the way there.
pub proof fn law_last_mod_in_order_wins(
    names: Seq<Seq<char>>,
    cache: Seq<(Seq<char>, NodeView)>,
    b: Seq<(Seq<char>, NodeView)>,
    ks: Seq<Seq<char>>,
    y: FileView,
)
    requires
        names.len() > 0,
        lookup(cache, names.last()) == Some(NodeView::Dir(b)),
        deep_sorted(b),
        lookup_path(b, ks) == Some(NodeView::File(y)),
        y.paths.len() > 0,
        open_for_file(assemble(names.drop_last(), cache), ks),
    ensures
        lookup_path(assemble(names, cache), ks) matches Some(NodeView::File(z)) && z.paths.len() > 0
            && z.paths.last() == y.paths.last(),
{
    lemma_find_key(cache, names.last());
    law_later_mod_wins(assemble(names.drop_last(), cache), b, ks, y);
}

} // verus!
