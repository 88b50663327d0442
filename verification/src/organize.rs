//! The mod order: the installed mods, first to last (later ones win), and
//! the sorted listing shown of it.
use vstd::prelude::*;
use std::cmp::Ordering;
use rayon::slice::ParallelSliceMut;
use crate::text::{seq_lt, str_lt, lemma_lt_asymmetric};

verus! {

/// One installed mod, as the order file records it.
pub struct ModEntry {
    pub enabled: bool,
    pub name: String,
    /// The mod's folder.
    pub path: String,
    pub version: String,
    pub category: String,
    /// The archive it was installed from, kept for reinstalling; empty
    /// when there is none.
    pub archive: String,
}

/// One row of the mod listing.
pub struct OrganizeSortListEntry {
    pub enabled: bool,
    pub name: String,
    pub category: String,
    pub version: String,
    /// The mod's place in the order.
    pub priority: i64,
    pub path: String,
}

/// How the mod listing is sorted.
#[derive(PartialEq, Eq, Structural, Clone, Copy, Debug)]
pub enum OrganizeSort {
    NameAsc,
    NameDesc,
    CategoryAsc,
    CategoryDesc,
    PriorityAsc,
    PriorityDesc,
}

/// A column of the mod listing whose header sorts it.
#[derive(PartialEq, Eq, Structural, Clone, Copy, Debug)]
pub enum SortColumn {
    Name,
    Category,
    Priority,
}

/// The row for the mod at place `i` of the order.
pub open spec fn row_of(m: ModEntry, i: int) -> OrganizeSortListEntry {
    OrganizeSortListEntry {
        enabled: m.enabled,
        name: m.name,
        category: m.category,
        version: m.version,
        priority: i as i64,
        path: m.path,
    }
}

/// The rows of the order, in order.
pub open spec fn rows_in_order(order: Seq<ModEntry>) -> Seq<OrganizeSortListEntry> {
    Seq::new(order.len(), |i: int| row_of(order[i], i))
}

/// Whether row `a` goes strictly before row `b` under `sort`.
pub open spec fn row_before(a: OrganizeSortListEntry, b: OrganizeSortListEntry, sort: OrganizeSort) -> bool {
    match sort {
        OrganizeSort::NameAsc => seq_lt(a.name@, b.name@),
        OrganizeSort::NameDesc => seq_lt(b.name@, a.name@),
        OrganizeSort::CategoryAsc => seq_lt(a.category@, b.category@),
        OrganizeSort::CategoryDesc => seq_lt(b.category@, a.category@),
        OrganizeSort::PriorityAsc => a.priority < b.priority,
        OrganizeSort::PriorityDesc => b.priority < a.priority,
    }
}

/// `rows` is sorted under `sort`, and rows that `sort` ties stay in the
/// order of their priority (the sort is stable).
pub open spec fn sorted_stably(rows: Seq<OrganizeSortListEntry>, sort: OrganizeSort) -> bool {
    &&& forall|i: int, j: int|
        0 <= i < j < rows.len() ==> !row_before(#[trigger] rows[j], #[trigger] rows[i], sort)
    &&& forall|i: int, j: int|
        0 <= i < j < rows.len() && !row_before(#[trigger] rows[i], #[trigger] rows[j], sort)
            ==> rows[i].priority < rows[j].priority
}

/// Compares two rows of the mod listing under `sort`.
pub fn compare_rows(a: &OrganizeSortListEntry, b: &OrganizeSortListEntry, sort: OrganizeSort) -> (r: Ordering)
    ensures
        (r == Ordering::Less) == row_before(*a, *b, sort),
        (r == Ordering::Greater) == row_before(*b, *a, sort),
{
    let (before, after) = match sort {
        OrganizeSort::NameAsc => (str_lt(a.name.as_str(), b.name.as_str()), str_lt(b.name.as_str(), a.name.as_str())),
        OrganizeSort::NameDesc => (str_lt(b.name.as_str(), a.name.as_str()), str_lt(a.name.as_str(), b.name.as_str())),
        OrganizeSort::CategoryAsc => (str_lt(a.category.as_str(), b.category.as_str()), str_lt(b.category.as_str(), a.category.as_str())),
        OrganizeSort::CategoryDesc => (str_lt(b.category.as_str(), a.category.as_str()), str_lt(a.category.as_str(), b.category.as_str())),
        OrganizeSort::PriorityAsc => (a.priority < b.priority, b.priority < a.priority),
        OrganizeSort::PriorityDesc => (b.priority < a.priority, a.priority < b.priority),
    };
    proof {
        lemma_lt_asymmetric(a.name@, b.name@);
        lemma_lt_asymmetric(a.category@, b.category@);
    }
    if before {
        Ordering::Less
    } else if after {
        Ordering::Greater
    } else {
        Ordering::Equal
    }
}

/// rayon's `par_sort_by` with `compare_rows` as the comparator, a total
/// order.  rayon documents the sort as stable; since the rows come in
/// increasing priority, rows that compare equal keep increasing priority.
#[verifier::external_body]
fn par_sort_rows(rows: &mut Vec<OrganizeSortListEntry>, sort: OrganizeSort)
    requires
        forall|i: int, j: int|
            0 <= i < j < old(rows)@.len() ==> #[trigger] old(rows)@[i].priority < #[trigger] old(rows)@[j].priority,
    ensures
        final(rows)@.to_multiset() == old(rows)@.to_multiset(),
        sorted_stably(final(rows)@, sort),
{
    rows.par_sort_by(|a, b| compare_rows(a, b, sort))
}

/// Row `r` shows the mod of the order at its priority: the same enabled
/// flag, name, category, version and folder.
pub open spec fn shows_mod(r: OrganizeSortListEntry, order: Seq<ModEntry>) -> bool {
    &&& 0 <= r.priority < order.len()
    &&& r.enabled == order[r.priority as int].enabled
    &&& r.name@ == order[r.priority as int].name@
    &&& r.category@ == order[r.priority as int].category@
    &&& r.version@ == order[r.priority as int].version@
    &&& r.path@ == order[r.priority as int].path@
}

/// Whether some row of `r` is for the mod at place `j` of the order.
pub open spec fn has_row_for(r: Seq<OrganizeSortListEntry>, j: int) -> bool {
    exists|k: int| 0 <= k < r.len() && r[k].priority == j
}

/// Any arrangement of the rows of the order shows each mod once: every row
/// carries the fields of the mod at its priority, and every mod has a row.
pub proof fn law_listing_shows_the_mods(r: Seq<OrganizeSortListEntry>, order: Seq<ModEntry>)
    requires
        order.len() <= i64::MAX,
        r.to_multiset() == rows_in_order(order).to_multiset(),
    ensures
        r.len() == order.len(),
        forall|k: int| 0 <= k < r.len() ==> shows_mod(#[trigger] r[k], order),
        forall|j: int| 0 <= j < order.len() ==> #[trigger] has_row_for(r, j),
{
    broadcast use vstd::seq_lib::group_to_multiset_ensures;
    let o = rows_in_order(order);
    vstd::seq_lib::to_multiset_len(r);
    vstd::seq_lib::to_multiset_len(o);
    assert forall|k: int| 0 <= k < r.len() implies shows_mod(#[trigger] r[k], order) by {
        assert(r.contains(r[k])) by {
            assert(r[k] == r[k]);
        }
        assert(r.to_multiset().count(r[k]) > 0);
        assert(o.to_multiset().count(r[k]) > 0);
        assert(o.contains(r[k]));
        let j = choose|j: int| 0 <= j < o.len() && o[j] == r[k];
        assert(o[j] == row_of(order[j], j));
        assert(r[k].priority == j);
    }
    assert forall|j: int| 0 <= j < order.len() implies #[trigger] has_row_for(r, j) by {
        assert(o[j] == row_of(order[j], j));
        assert(o.contains(o[j]));
        assert(o.to_multiset().count(o[j]) > 0);
        assert(r.to_multiset().count(o[j]) > 0);
        assert(r.contains(o[j]));
        let k = choose|k: int| 0 <= k < r.len() && r[k] == o[j];
        assert(r[k].priority == j);
    }
}

/// The mod listing: one row per mod, its priority being its place in the
/// order, sorted as `organizesort` asks; the sort is stable, so mods that
/// tie stay in the order.
pub fn sort_organize_data(orderdata: &Vec<ModEntry>, organizesort: OrganizeSort) -> (r: Vec<OrganizeSortListEntry>)
    requires
        orderdata@.len() <= i64::MAX,
    ensures
        r@.to_multiset() == rows_in_order(orderdata@).to_multiset(),
        sorted_stably(r@, organizesort),
        r@.len() == orderdata@.len(),
        forall|k: int| 0 <= k < r@.len() ==> shows_mod(#[trigger] r@[k], orderdata@),
        forall|j: int| 0 <= j < orderdata@.len() ==> #[trigger] has_row_for(r@, j),
{
    let mut rows: Vec<OrganizeSortListEntry> = Vec::new();
    let n = orderdata.len();
    let mut i: usize = 0;
    while i < n
        invariant
            n == orderdata@.len(),
            n <= i64::MAX,
            i <= n,
            rows@ == rows_in_order(orderdata@).subrange(0, i as int),
        decreases n - i,
    {
        let m = &orderdata[i];
        let row = OrganizeSortListEntry {
            enabled: m.enabled,
            name: m.name.clone(),
            category: m.category.clone(),
            version: m.version.clone(),
            priority: i as i64,
            path: m.path.clone(),
        };
        rows.push(row);
        proof {
            assert(rows@ =~= rows_in_order(orderdata@).subrange(0, i + 1));
        }
        i = i + 1;
    }
    proof {
        assert(rows@ =~= rows_in_order(orderdata@));
    }
    par_sort_rows(&mut rows, organizesort);
    proof {
        law_listing_shows_the_mods(rows@, orderdata@);
    }
    rows
}

proof fn lemma_sorted_rows_are_order(r: Seq<OrganizeSortListEntry>, order: Seq<ModEntry>, descending: bool)
    requires
        order.len() <= i64::MAX,
        r.to_multiset() == rows_in_order(order).to_multiset(),
        forall|i: int, j: int| 0 <= i < j < r.len() ==> if descending {
            (#[trigger] r[i]).priority > (#[trigger] r[j]).priority
        } else {
            r[i].priority < r[j].priority
        },
    ensures
        r == if descending { rows_in_order(order).reverse() } else { rows_in_order(order) },
{
    broadcast use vstd::seq_lib::group_to_multiset_ensures;
    let o = rows_in_order(order);
    let n = o.len();
    vstd::seq_lib::to_multiset_len(r);
    vstd::seq_lib::to_multiset_len(o);
    assert(r.len() == n);
    assert forall|i: int| 0 <= i < n implies 0 <= (#[trigger] r[i]).priority < n && exists|k: int|
        0 <= k < n && o[k] == r[i] by {
        vstd::seq_lib::to_multiset_contains(r, r[i]);
        assert(r.contains(r[i])) by {
            assert(r[i] == r[i]);
        }
        assert(r.to_multiset().count(r[i]) > 0);
        assert(o.to_multiset().count(r[i]) > 0);
        assert(o.contains(r[i]));
        let k = choose|k: int| 0 <= k < n && o[k] == r[i];
        assert(o[k].priority == k);
    }
    // strictly monotone priorities in [0, n) of length n are 0..n or n-1..0
    assert forall|i: int| 0 <= i < n implies (#[trigger] r[i]).priority == if descending { n - 1 - i } else { i } by {
        lemma_monotone_fill(r, n as int, descending, i);
    }
    assert forall|i: int| 0 <= i < n implies (#[trigger] r[i]) == if descending { o[n - 1 - i] } else { o[i] } by {
        let k = choose|k: int| 0 <= k < n && o[k] == r[i];
        assert(o[k].priority == k);
    }
    if descending {
        assert(r =~= o.reverse());
    } else {
        assert(r =~= o);
    }
}

proof fn lemma_monotone_fill(r: Seq<OrganizeSortListEntry>, n: int, descending: bool, i: int)
    requires
        r.len() == n,
        0 <= i < n,
        forall|a: int| 0 <= a < n ==> 0 <= (#[trigger] r[a]).priority < n,
        forall|a: int, b: int| 0 <= a < b < r.len() ==> if descending {
            (#[trigger] r[a]).priority > (#[trigger] r[b]).priority
        } else {
            r[a].priority < r[b].priority
        },
    ensures
        r[i].priority == if descending { n - 1 - i } else { i },
{
    lemma_monotone_low(r, n, descending, i);
    lemma_monotone_high(r, n, descending, i);
}

proof fn lemma_monotone_low(r: Seq<OrganizeSortListEntry>, n: int, descending: bool, i: int)
    requires
        r.len() == n,
        0 <= i < n,
        forall|a: int| 0 <= a < n ==> 0 <= (#[trigger] r[a]).priority < n,
        forall|a: int, b: int| 0 <= a < b < r.len() ==> if descending {
            (#[trigger] r[a]).priority > (#[trigger] r[b]).priority
        } else {
            r[a].priority < r[b].priority
        },
    ensures
        if descending { r[i].priority >= n - 1 - i } else { r[i].priority >= i },
    decreases if descending { n - i } else { i },
{
    if descending {
        if i < n - 1 {
            lemma_monotone_low(r, n, descending, i + 1);
            assert(r[i].priority > r[i + 1].priority);
        }
    } else {
        if i > 0 {
            lemma_monotone_low(r, n, descending, i - 1);
            assert(r[i - 1].priority < r[i].priority);
        }
    }
}

proof fn lemma_monotone_high(r: Seq<OrganizeSortListEntry>, n: int, descending: bool, i: int)
    requires
        r.len() == n,
        0 <= i < n,
        forall|a: int| 0 <= a < n ==> 0 <= (#[trigger] r[a]).priority < n,
        forall|a: int, b: int| 0 <= a < b < r.len() ==> if descending {
            (#[trigger] r[a]).priority > (#[trigger] r[b]).priority
        } else {
            r[a].priority < r[b].priority
        },
    ensures
        if descending { r[i].priority <= n - 1 - i } else { r[i].priority <= i },
    decreases if descending { i } else { n - i },
{
    if descending {
        if i > 0 {
            lemma_monotone_high(r, n, descending, i - 1);
            assert(r[i - 1].priority > r[i].priority);
        }
    } else {
        if i < n - 1 {
            lemma_monotone_high(r, n, descending, i + 1);
            assert(r[i].priority < r[i + 1].priority);
        }
    }
}

/// Sorted by priority, the listing shows the order as it is (ascending) or
/// reversed (descending).
pub proof fn law_priority_sort_shows_order(r: Seq<OrganizeSortListEntry>, order: Seq<ModEntry>, sort: OrganizeSort)
    requires
        order.len() <= i64::MAX,
        sort == OrganizeSort::PriorityAsc || sort == OrganizeSort::PriorityDesc,
        r.to_multiset() == rows_in_order(order).to_multiset(),
        sorted_stably(r, sort),
    ensures
        r == if sort == OrganizeSort::PriorityDesc { rows_in_order(order).reverse() } else { rows_in_order(order) },
{
    let descending = sort == OrganizeSort::PriorityDesc;
    assert forall|i: int, j: int| 0 <= i < j < r.len() implies if descending {
        (#[trigger] r[i]).priority > (#[trigger] r[j]).priority
    } else {
        r[i].priority < r[j].priority
    } by {
        if row_before(r[i], r[j], sort) {
        } else {
            assert(r[i].priority < r[j].priority);
            assert(!row_before(r[j], r[i], sort));
        }
    }
    lemma_sorted_rows_are_order(r, order, descending);
}

/// The sort after a click on the header of `column`: a second click on the
/// sorted column reverses the direction, a click on another column sorts
/// by it, ascending.
pub open spec fn next_sort_spec(current: OrganizeSort, column: SortColumn) -> OrganizeSort {
    match column {
        SortColumn::Name => if current == OrganizeSort::NameAsc { OrganizeSort::NameDesc } else { OrganizeSort::NameAsc },
        SortColumn::Category => if current == OrganizeSort::CategoryAsc { OrganizeSort::CategoryDesc } else { OrganizeSort::CategoryAsc },
        SortColumn::Priority => if current == OrganizeSort::PriorityAsc { OrganizeSort::PriorityDesc } else { OrganizeSort::PriorityAsc },
    }
}

/// The column a sort sorts by.
pub open spec fn column_of(sort: OrganizeSort) -> SortColumn {
    match sort {
        OrganizeSort::NameAsc | OrganizeSort::NameDesc => SortColumn::Name,
        OrganizeSort::CategoryAsc | OrganizeSort::CategoryDesc => SortColumn::Category,
        OrganizeSort::PriorityAsc | OrganizeSort::PriorityDesc => SortColumn::Priority,
    }
}

/// Whether a sort lists its column in ascending order.
pub open spec fn is_ascending(sort: OrganizeSort) -> bool {
    sort == OrganizeSort::NameAsc || sort == OrganizeSort::CategoryAsc || sort == OrganizeSort::PriorityAsc
}

/// A click on a column header sorts by that column: ascending when the
/// listing was sorted by another column, in the other direction when it
/// was sorted by this one.
pub proof fn law_header_click(current: OrganizeSort, column: SortColumn)
    ensures
        column_of(next_sort_spec(current, column)) == column,
        column_of(current) != column ==> is_ascending(next_sort_spec(current, column)),
        column_of(current) == column ==> is_ascending(next_sort_spec(current, column)) == !is_ascending(current),
{
}

/// The sort after a click on the header of `column`.
pub fn next_organize_sort(current: OrganizeSort, column: SortColumn) -> (r: OrganizeSort)
    ensures
        r == next_sort_spec(current, column),
        column_of(r) == column,
        column_of(current) != column ==> is_ascending(r),
        column_of(current) == column ==> is_ascending(r) == !is_ascending(current),
{
    match column {
        SortColumn::Name => if current == OrganizeSort::NameAsc { OrganizeSort::NameDesc } else { OrganizeSort::NameAsc },
        SortColumn::Category => if current == OrganizeSort::CategoryAsc { OrganizeSort::CategoryDesc } else { OrganizeSort::CategoryAsc },
        SortColumn::Priority => if current == OrganizeSort::PriorityAsc { OrganizeSort::PriorityDesc } else { OrganizeSort::PriorityAsc },
    }
}

/// Two clicks on the header of the column a listing is sorted by bring the
/// listing back to the sort it had.
pub proof fn law_two_clicks_restore(current: OrganizeSort)
    ensures
        next_sort_spec(next_sort_spec(current, column_of(current)), column_of(current)) == current,
{
}

/// Whether the listing can be reordered by dragging rows: only when it is
/// sorted by priority.
pub fn drag_allowed(sort: OrganizeSort) -> (r: bool)
    ensures
        r == (column_of(sort) == SortColumn::Priority),
{
    sort == OrganizeSort::PriorityAsc || sort == OrganizeSort::PriorityDesc
}

/// The place in the order a row dropped at listing position
/// `insert_row_index` stands for: the position itself, or counted from the
/// end when the listing shows the order reversed.
pub fn drop_position(insert_row_index: usize, order_len: usize, descending: bool) -> (r: usize)
    requires
        descending ==> insert_row_index <= order_len,
    ensures
        r == if descending { order_len - insert_row_index } else { insert_row_index as int },
{
    if descending {
        order_len - insert_row_index
    } else {
        insert_row_index
    }
}

/// The order after the mod at `dragged_index` is taken out and put back
/// where the drop at `insert_index` (counted before taking it out) points.
pub open spec fn moved_spec(order: Seq<ModEntry>, dragged_index: int, insert_index: int) -> Seq<ModEntry> {
    let item = order[dragged_index];
    let rest = order.remove(dragged_index);
    let at = if dragged_index < insert_index { insert_index - 1 } else { insert_index };
    rest.insert(at, item)
}

/// Moves the mod at `dragged_index` to the place a drop at `insert_index`
/// (a position in the order before the move) points to.
pub fn move_mod(order: &mut Vec<ModEntry>, dragged_index: usize, insert_index: usize)
    requires
        dragged_index < old(order)@.len(),
        insert_index <= old(order)@.len(),
    ensures
        final(order)@ == moved_spec(old(order)@, dragged_index as int, insert_index as int),
{
    let item = order.remove(dragged_index);
    let at = if dragged_index < insert_index { insert_index - 1 } else { insert_index };
    order.insert(at, item);
}

/// Moving a mod keeps every mod, and the moved one ends where the drop
/// pointed.
pub proof fn law_move_is_permutation(order: Seq<ModEntry>, dragged_index: int, insert_index: int)
    requires
        0 <= dragged_index < order.len(),
        0 <= insert_index <= order.len(),
    ensures
        moved_spec(order, dragged_index, insert_index).len() == order.len(),
        moved_spec(order, dragged_index, insert_index).to_multiset() == order.to_multiset(),
        moved_spec(order, dragged_index, insert_index)[if dragged_index < insert_index {
            insert_index - 1
        } else {
            insert_index
        }] == order[dragged_index],
{
    broadcast use vstd::multiset::group_multiset_axioms;
    let item = order[dragged_index];
    let rest = order.remove(dragged_index);
    let at = if dragged_index < insert_index { insert_index - 1 } else { insert_index };
    vstd::seq_lib::to_multiset_remove(order, dragged_index);
    vstd::seq_lib::to_multiset_insert(rest, at, item);
    vstd::seq_lib::to_multiset_contains(order, item);
    assert(order.contains(item)) by {
        assert(order[dragged_index] == item);
    }
    assert(order.to_multiset().remove(item).insert(item) =~= order.to_multiset());
}

/// Where an installed mod goes in the order.
#[derive(PartialEq, Eq, Structural, Clone, Copy, Debug)]
pub enum SpecificIndexTarget {
    /// At the end.
    Last,
    /// In place of the mod at the index.
    Replace,
    /// Before the mod at the index.
    Before,
}

/// The order after a newly installed mod is placed.
pub open spec fn placed_spec(order: Seq<ModEntry>, entry: ModEntry, target: SpecificIndexTarget, index: int) -> Seq<ModEntry> {
    match target {
        SpecificIndexTarget::Replace => order.update(index, entry),
        SpecificIndexTarget::Before => order.insert(index, entry),
        SpecificIndexTarget::Last => order.push(entry),
    }
}

/// Places a newly installed mod in the order: at the end, in place of the
/// mod at `index`, or before it.
pub fn place_mod(order: &mut Vec<ModEntry>, entry: ModEntry, target: SpecificIndexTarget, index: usize)
    requires
        target == SpecificIndexTarget::Replace ==> index < old(order)@.len(),
        target == SpecificIndexTarget::Before ==> index <= old(order)@.len(),
    ensures
        final(order)@ == placed_spec(old(order)@, entry, target, index as int),
{
    match target {
        SpecificIndexTarget::Replace => {
            order.set(index, entry);
        },
        SpecificIndexTarget::Before => {
            order.insert(index, entry);
        },
        SpecificIndexTarget::Last => {
            order.push(entry);
        },
    }
}

} // verus!
