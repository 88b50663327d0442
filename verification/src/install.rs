//! Installing a mod from an archive: which archives are read, the listing
//! of an archive's folders the user picks the mod's roots from, the name and
//! version read off the archive's file name, and the entry the mod gets in
//! the order.
use vstd::prelude::*;
use vstd::string::*;
use regex::Regex;
use std::path::Path;
use crate::organize::{ModEntry, SpecificIndexTarget, place_mod, placed_spec};
use crate::paths::{pathdiff, pathdiff_spec, path_extension, std_path_extension};
use crate::text::{join3, replace_char, replace_char_spec, str_eq, to_owned_string, split_segments, path_segments, strings_view, contains_str, without_str};
use crate::vfs::{VfsNode, VfsTree, NodeView, find_key, lemma_find_key};

verus! {

// ----------------------------------------------------------------------
// Archives
// ----------------------------------------------------------------------

/// The kinds of archive a mod can be installed from.
#[derive(PartialEq, Eq, Structural, Clone, Copy, Debug)]
pub enum ArchiveKind {
    Zip,
    Rar,
    SevenZip,
}

/// Why a file cannot be read as an archive.
#[derive(PartialEq, Eq, Structural, Clone, Copy, Debug)]
pub enum ArchiveKindError {
    /// The file name has no extension.
    NoExtension,
    /// The extension is not one of `zip`, `rar`, `7z`, `7zip`.
    Unsupported,
}

/// The kind of archive an extension names.
pub open spec fn kind_of_extension(ext: Seq<char>) -> Option<ArchiveKind> {
    if ext == "zip"@ {
        Some(ArchiveKind::Zip)
    } else if ext == "rar"@ {
        Some(ArchiveKind::Rar)
    } else if ext == "7z"@ || ext == "7zip"@ {
        Some(ArchiveKind::SevenZip)
    } else {
        None
    }
}

/// The kind of archive the file at `path` is, by its extension.
pub fn archive_kind(path: &str) -> (r: Result<ArchiveKind, ArchiveKindError>)
    ensures
        match std_path_extension(path@) {
            None => r == Err::<ArchiveKind, ArchiveKindError>(ArchiveKindError::NoExtension),
            Some(e) => match kind_of_extension(e) {
                Some(k) => r == Ok::<ArchiveKind, ArchiveKindError>(k),
                None => r == Err::<ArchiveKind, ArchiveKindError>(ArchiveKindError::Unsupported),
            },
        },
{
    match path_extension(path) {
        None => Err(ArchiveKindError::NoExtension),
        Some(e) => {
            if str_eq(e.as_str(), "zip") {
                Ok(ArchiveKind::Zip)
            } else if str_eq(e.as_str(), "rar") {
                Ok(ArchiveKind::Rar)
            } else if str_eq(e.as_str(), "7z") || str_eq(e.as_str(), "7zip") {
                Ok(ArchiveKind::SevenZip)
            } else {
                Err(ArchiveKindError::Unsupported)
            }
        },
    }
}

/// An entry name as some archives write it, with `\` separators turned
/// into `/`.
pub fn normalize_separators(name: &str) -> (r: String)
    ensures
        r@ == replace_char_spec(name@, '\\', '/'),
{
    replace_char(name, '\\', '/')
}

// ----------------------------------------------------------------------
// Picking the mod's roots
// ----------------------------------------------------------------------

/// One row of an archive's folder listing.
#[derive(Clone, PartialEq, Eq, Debug)]
pub struct InstallModalListEntry {
    pub name: String,
    /// The entry's path inside the archive.
    pub path: String,
    pub folder: bool,
    pub selected: bool,
}

/// The state of the root picker: the rows shown, the folder shown and the
/// paths picked as roots (`""` is the archive's own root).
#[derive(Clone, PartialEq, Eq, Debug)]
pub struct InstallModalSortData {
    pub list: Vec<InstallModalListEntry>,
    pub current_path: String,
    pub selected_paths: Vec<String>,
}

/// What the root picker holds: nothing yet, or its state.
#[derive(Clone, PartialEq, Eq, Debug)]
pub enum InstallModalInputData {
    Unset,
    SortData(InstallModalSortData),
}

/// What a row of the root picker shows.
pub struct ListRowView {
    pub name: Seq<char>,
    pub path: Seq<char>,
    pub folder: bool,
    pub selected: bool,
}

impl InstallModalListEntry {
    pub open spec fn view(&self) -> ListRowView {
        ListRowView { name: self.name@, path: self.path@, folder: self.folder, selected: self.selected }
    }
}

pub open spec fn list_rows_view(v: Seq<InstallModalListEntry>) -> Seq<ListRowView> {
    v.map_values(|e: InstallModalListEntry| e@)
}

/// The folder reached from `s` by following the names `segs`, if each is
/// a folder.
pub open spec fn descend(s: Seq<(Seq<char>, NodeView)>, segs: Seq<Seq<char>>) -> Option<Seq<(Seq<char>, NodeView)>>
    decreases segs.len(),
{
    if segs.len() == 0 {
        Some(s)
    } else {
        let i = find_key(s, segs[0]);
        if i < 0 {
            None
        } else {
            match s[i].1 {
                NodeView::Dir(c) => descend(c, segs.drop_first()),
                NodeView::File(_) => None,
            }
        }
    }
}

/// The folder of the archive tree `n` at `current_path` (its `/`-separated
/// segments followed from the top), if there is one.
pub open spec fn folder_at(n: NodeView, current_path: Seq<char>) -> Option<Seq<(Seq<char>, NodeView)>> {
    match n {
        NodeView::Dir(s) => descend(s, path_segments(current_path)),
        NodeView::File(_) => None,
    }
}

/// The path of an entry named `k` of the folder at `current`.
pub open spec fn child_path(current: Seq<char>, k: Seq<char>) -> Seq<char> {
    if current.len() == 0 {
        k
    } else {
        current + "/"@ + k
    }
}

/// The row of the root picker for the entry `k` of the folder at `current`.
pub open spec fn list_row(k: Seq<char>, n: NodeView, current: Seq<char>, selected: Seq<Seq<char>>) -> ListRowView {
    ListRowView {
        name: pathdiff_spec(k, current),
        path: child_path(current, k),
        folder: n is Dir,
        selected: selected.contains(child_path(current, k)),
    }
}

/// The rows of the root picker for the folder `s` at `current`.
pub open spec fn list_rows(s: Seq<(Seq<char>, NodeView)>, current: Seq<char>, selected: Seq<Seq<char>>) -> Seq<ListRowView> {
    Seq::new(s.len(), |i: int| list_row(s[i].0, s[i].1, current, selected))
}

fn clone_strings(v: &Vec<String>) -> (r: Vec<String>)
    ensures
        strings_view(r@) == strings_view(v@),
{
    let mut r: Vec<String> = Vec::new();
    let n = v.len();
    let mut i: usize = 0;
    while i < n
        invariant
            n == v@.len(),
            i <= n,
            strings_view(r@) == strings_view(v@).subrange(0, i as int),
        decreases n - i,
    {
        let s = v[i].clone();
        let ghost before = r@;
        r.push(s);
        proof {
            assert(strings_view(r@) =~= strings_view(before).push(s@));
            assert(strings_view(r@) =~= strings_view(v@).subrange(0, i + 1));
        }
        i = i + 1;
    }
    assert(strings_view(v@).subrange(0, n as int) =~= strings_view(v@));
    r
}

/// Follows `segs[at..]` down from the folder `t`.
fn descend_exec(t: VfsTree, segs: &Vec<String>, at: usize) -> (r: Option<VfsTree>)
    requires
        at <= segs@.len(),
    ensures
        match r {
            Some(f) => descend(t@, strings_view(segs@).subrange(at as int, segs@.len() as int)) == Some(f@),
            None => descend(t@, strings_view(segs@).subrange(at as int, segs@.len() as int)) is None,
        },
    decreases segs@.len() - at,
{
    let ghost rest = strings_view(segs@).subrange(at as int, segs@.len() as int);
    if at == segs.len() {
        return Some(t);
    }
    let ghost s = t@;
    let mut entries = t.into_entries();
    proof {
        crate::vfs::lemma_entries_view(entries@);
        lemma_find_key(s, segs@[at as int]@);
        assert(rest[0] == segs@[at as int]@);
        assert(rest.drop_first() =~= strings_view(segs@).subrange(at + 1, segs@.len() as int));
    }
    match find_in(&entries, segs[at].as_str()) {
        None => None,
        Some(i) => {
            let (_, node) = entries.remove(i);
            match node {
                VfsNode::Dir(c) => descend_exec(c, segs, at + 1),
                VfsNode::File(_) => None,
            }
        },
    }
}

fn find_in(s: &Vec<(String, VfsNode)>, k: &str) -> (r: Option<usize>)
    ensures
        match r {
            Some(i) => i as int == find_key(crate::vfs::entries_view(s@), k@),
            None => find_key(crate::vfs::entries_view(s@), k@) == -1,
        },
{
    let ghost v = crate::vfs::entries_view(s@);
    proof {
        crate::vfs::lemma_entries_view(s@);
    }
    let n = s.len();
    let mut i: usize = 0;
    while i < n
        invariant
            n == s@.len(),
            i <= n,
            v == crate::vfs::entries_view(s@),
            v.len() == n,
            forall|j: int| 0 <= j < n ==> #[trigger] v[j] == (s@[j].0@, s@[j].1@),
            forall|j: int| 0 <= j < i ==> v[j].0 != k@,
        decreases n - i,
    {
        if str_eq(s[i].0.as_str(), k) {
            proof {
                lemma_find_key(v, k@);
                let f = find_key(v, k@);
                assert(v[i as int].0 == k@);
                assert(f == i) by {
                    if f < i {
                    } else if f > i {
                    }
                }
            }
            return Some(i);
        }
        i = i + 1;
    }
    proof {
        lemma_find_key(v, k@);
    }
    None
}

/// Whether `current_path` leads to a folder of the archive tree `vfs_data`.
pub fn install_path_resolves(vfs_data: &VfsNode, current_path: &str) -> (r: bool)
    ensures
        r == (folder_at(vfs_data@, current_path@) is Some),
{
    match vfs_data {
        VfsNode::Dir(t) => {
            let segs = split_segments(current_path);
            let c = t.deep_clone();
            proof {
                assert(strings_view(segs@).subrange(0, segs@.len() as int) =~= path_segments(current_path@));
            }
            descend_exec(c, &segs, 0).is_some()
        },
        VfsNode::File(_) => false,
    }
}

/// The root picker shown for the archive tree `vfs_data`: the folder at the
/// picker's current path (the top where it holds nothing yet) listed in
/// name order, each row with its path, whether it is a folder and whether
/// it is picked; the current path and the picks carry over.
pub fn update_install_modal_sort_list(vfs_data: VfsNode, input_data: &InstallModalInputData) -> (r: InstallModalSortData)
    requires
        folder_at(vfs_data@, match input_data {
            InstallModalInputData::SortData(d) => d.current_path@,
            InstallModalInputData::Unset => Seq::<char>::empty(),
        }) is Some,
    ensures
        r.current_path@ == match input_data {
            InstallModalInputData::SortData(d) => d.current_path@,
            InstallModalInputData::Unset => Seq::<char>::empty(),
        },
        strings_view(r.selected_paths@) == match input_data {
            InstallModalInputData::SortData(d) => strings_view(d.selected_paths@),
            InstallModalInputData::Unset => Seq::<Seq<char>>::empty(),
        },
        list_rows_view(r.list@) == list_rows(
            folder_at(vfs_data@, r.current_path@)->0,
            r.current_path@,
            strings_view(r.selected_paths@),
        ),
{
    let (current_path, selected_paths) = match input_data {
        InstallModalInputData::SortData(d) => (d.current_path.clone(), clone_strings(&d.selected_paths)),
        InstallModalInputData::Unset => (String::new(), Vec::new()),
    };
    proof {
        if input_data is Unset {
            assert(strings_view(selected_paths@) =~= Seq::<Seq<char>>::empty());
        }
    }
    let tree = match vfs_data {
        VfsNode::Dir(t) => t,
        VfsNode::File(_) => {
            proof {
                assert(false);
            }
            VfsTree::new()
        },
    };
    let segs = split_segments(current_path.as_str());
    proof {
        assert(strings_view(segs@).subrange(0, segs@.len() as int) =~= path_segments(current_path@));
    }
    let folder = match descend_exec(tree, &segs, 0) {
        Some(f) => f,
        None => {
            proof {
                assert(false);
            }
            VfsTree::new()
        },
    };
    let ghost fs = folder@;
    let ghost sel = strings_view(selected_paths@);
    let entries = folder.into_entries();
    proof {
        crate::vfs::lemma_entries_view(entries@);
    }
    let mut list: Vec<InstallModalListEntry> = Vec::new();
    let n = entries.len();
    let mut i: usize = 0;
    while i < n
        invariant
            n == entries@.len(),
            n == fs.len(),
            i <= n,
            sel == strings_view(selected_paths@),
            forall|j: int| 0 <= j < n ==> #[trigger] fs[j] == (entries@[j].0@, entries@[j].1@),
            list_rows_view(list@) == list_rows(fs, current_path@, sel).subrange(0, i as int),
        decreases n - i,
    {
        let key = &entries[i].0;
        let is_folder = match &entries[i].1 {
            VfsNode::Dir(_) => true,
            VfsNode::File(_) => false,
        };
        let name = pathdiff(key.as_str(), current_path.as_str());
        let path = if current_path.unicode_len() == 0 {
            key.clone()
        } else {
            join3(current_path.as_str(), "/", key.as_str())
        };
        let selected = contains_str(&selected_paths, path.as_str());
        let row = InstallModalListEntry { name, path, folder: is_folder, selected };
        let ghost before = list@;
        list.push(row);
        proof {
            assert(row@ == list_row(fs[i as int].0, fs[i as int].1, current_path@, sel));
            assert(list_rows_view(list@) =~= list_rows_view(before).push(row@));
            assert(list_rows_view(list@) =~= list_rows(fs, current_path@, sel).subrange(0, i + 1));
        }
        i = i + 1;
    }
    proof {
        assert(list_rows(fs, current_path@, sel).subrange(0, n as int) =~= list_rows(fs, current_path@, sel));
    }
    InstallModalSortData { list, current_path, selected_paths }
}

/// Picks `path` as a root.
pub fn select_path(selected_paths: &mut Vec<String>, path: String)
    ensures
        strings_view(final(selected_paths)@) == strings_view(old(selected_paths)@).push(path@),
{
    let ghost before = selected_paths@;
    selected_paths.push(path);
    assert(strings_view(selected_paths@) =~= strings_view(before).push(path@));
}

/// Drops every pick of `path`.
pub fn deselect_path(selected_paths: &mut Vec<String>, path: &str)
    ensures
        strings_view(final(selected_paths)@) == strings_view(old(selected_paths)@).filter(|p: Seq<char>| p != path@),
{
    *selected_paths = without_str(selected_paths, path);
}

/// Picking a root and unpicking it again leaves the picks as they were.
pub proof fn law_pick_then_unpick_restores(selected: Seq<Seq<char>>, path: Seq<char>)
    requires
        !selected.contains(path),
    ensures
        selected.push(path).filter(|p: Seq<char>| p != path) == selected,
{
    crate::sortlist::law_open_then_close_restores(selected, path);
}

// ----------------------------------------------------------------------
// Name and version from the archive's file name
// ----------------------------------------------------------------------

/// What the first match of the regular expression `pattern` in `text`
/// splits it into: the text before the match, the match's first group, and
/// the text after the match (`None` where nothing matches).
pub uninterp spec fn regex_split(pattern: Seq<char>, text: Seq<char>) -> Option<(Seq<char>, Seq<char>, Seq<char>)>;

/// What `Regex::replace_all` makes of `text` with `rep` for each match of
/// `pattern`.
pub uninterp spec fn regex_replaced(pattern: Seq<char>, text: Seq<char>, rep: Seq<char>) -> Seq<char>;

/// Whether `c` has the Unicode property White_Space, by which `str::trim`
/// goes.
pub open spec fn is_white_space(c: char) -> bool {
    let n = c as u32;
    (0x09 <= n && n <= 0x0D) || n == 0x20 || n == 0x85 || n == 0xA0 || n == 0x1680 || (0x2000 <= n && n
        <= 0x200A) || n == 0x2028 || n == 0x2029 || n == 0x202F || n == 0x205F || n == 0x3000
}

/// `text` without its leading white space.
pub open spec fn trim_start_spec(text: Seq<char>) -> Seq<char>
    decreases text.len(),
{
    if text.len() > 0 && is_white_space(text[0]) {
        trim_start_spec(text.drop_first())
    } else {
        text
    }
}

/// `text` without its trailing white space.
pub open spec fn trim_end_spec(text: Seq<char>) -> Seq<char>
    decreases text.len(),
{
    if text.len() > 0 && is_white_space(text.last()) {
        trim_end_spec(text.drop_last())
    } else {
        text
    }
}

/// What `str::trim` leaves of `text`: leading and trailing white space
/// removed.
pub open spec fn trim_spec(text: Seq<char>) -> Seq<char> {
    trim_end_spec(trim_start_spec(text))
}

/// `Regex::new` then `Regex::captures`: the text before the first match,
/// the match's first group (empty where the group did not take part), and
/// the text after it.  An invalid pattern matches nothing.
#[verifier::external_body]
fn regex_captures(pattern: &str, text: &str) -> (r: Option<(String, String, String)>)
    ensures
        match r {
            Some(p) => regex_split(pattern@, text@) == Some((p.0@, p.1@, p.2@)),
            None => regex_split(pattern@, text@) is None,
        },
{
    let re = Regex::new(pattern).ok()?;
    let cap = re.captures(text)?;
    let whole = cap.get(0)?;
    let group = cap.get(1).map_or("", |m| m.as_str());
    Some((text[..whole.start()].to_string(), group.to_string(), text[whole.end()..].to_string()))
}

/// `Regex::new` then `Regex::replace_all`: each match of `pattern` in
/// `text` replaced by `rep`.  An invalid pattern leaves `text` as it is.
#[verifier::external_body]
fn regex_replace_all(pattern: &str, text: &str, rep: &str) -> (r: String)
    ensures
        r@ == regex_replaced(pattern@, text@, rep@),
{
    match Regex::new(pattern) {
        Ok(re) => re.replace_all(text, rep).into_owned(),
        Err(_) => text.to_string(),
    }
}

fn white_space(c: char) -> (r: bool)
    ensures
        r == is_white_space(c),
{
    let n = c as u32;
    (0x09 <= n && n <= 0x0D) || n == 0x20 || n == 0x85 || n == 0xA0 || n == 0x1680 || (0x2000 <= n && n <= 0x200A)
        || n == 0x2028 || n == 0x2029 || n == 0x202F || n == 0x205F || n == 0x3000
}

/// `text` with leading and trailing White_Space characters removed, as
/// `str::trim` leaves it.
fn trim(text: &str) -> (r: String)
    ensures
        r@ == trim_spec(text@),
{
    let n = text.unicode_len();
    let mut start: usize = 0;
    assert(text@.subrange(0, n as int) =~= text@);
    while start < n && white_space(text.get_char(start))
        invariant
            n == text@.len(),
            start <= n,
            trim_start_spec(text@) == trim_start_spec(text@.subrange(start as int, n as int)),
        decreases n - start,
    {
        proof {
            let t = text@.subrange(start as int, n as int);
            assert(t[0] == text@[start as int]);
            assert(t.drop_first() =~= text@.subrange(start + 1, n as int));
        }
        start = start + 1;
    }
    let ghost t1 = text@.subrange(start as int, n as int);
    assert(trim_start_spec(t1) == t1);
    let mut end: usize = n;
    assert(t1.subrange(0, (end - start) as int) =~= t1);
    while end > start && white_space(text.get_char(end - 1))
        invariant
            n == text@.len(),
            start <= end <= n,
            t1 == text@.subrange(start as int, n as int),
            trim_end_spec(t1) == trim_end_spec(text@.subrange(start as int, end as int)),
        decreases end - start,
    {
        proof {
            let u = text@.subrange(start as int, end as int);
            assert(u.last() == text@[end - 1]);
            assert(u.drop_last() =~= text@.subrange(start as int, end - 1));
        }
        end = end - 1;
    }
    proof {
        let u = text@.subrange(start as int, end as int);
        if u.len() > 0 {
            assert(u.last() == text@[end - 1]);
        }
        assert(trim_end_spec(u) == u);
    }
    String::from_str(text.substring_char(start, end))
}

/// The patterns tried on an archive's file name, from "surely a version"
/// to "probably a version".
pub open spec fn version_pattern_spec(i: int) -> Seq<char> {
    if i == 0 {
        r"(?i)v(?:er(?:sion)?)?[._-]?(\d+(?:[._]\d+)+[a-z]?)\b"@
    } else if i == 1 {
        r"(?i)\b(?:update|rev|build)[._-]?(\d+(?:[._]\d+)*)\b"@
    } else if i == 2 {
        r"(?:^|[^\d.])(\d+(?:\.\d+){2,}[a-z]?)\b"@
    } else if i == 3 {
        r"(?:^|[^\d.])(\d+\.\d+[a-z]?)\b"@
    } else {
        r"[._](\d+)$"@
    }
}

fn version_pattern(i: usize) -> (r: &'static str)
    requires
        i < 5,
    ensures
        r@ == version_pattern_spec(i as int),
{
    if i == 0 {
        r"(?i)v(?:er(?:sion)?)?[._-]?(\d+(?:[._]\d+)+[a-z]?)\b"
    } else if i == 1 {
        r"(?i)\b(?:update|rev|build)[._-]?(\d+(?:[._]\d+)*)\b"
    } else if i == 2 {
        r"(?:^|[^\d.])(\d+(?:\.\d+){2,}[a-z]?)\b"
    } else if i == 3 {
        r"(?:^|[^\d.])(\d+\.\d+[a-z]?)\b"
    } else {
        r"[._](\d+)$"
    }
}

/// A name made readable: runs of `.`, `_` and `-` become one space, then
/// the ends are trimmed and runs of white space become one space.
pub open spec fn clean_name_spec(s: Seq<char>) -> Seq<char> {
    trim_spec(regex_replaced(r"\s+"@, trim_spec(regex_replaced(r"[._-]+"@, s, " "@)), " "@))
}

/// A name made readable: runs of `.`, `_` and `-` become one space, the
/// ends are trimmed and runs of white space become one space.
pub fn clean_name(s: &str) -> (r: String)
    ensures
        r@ == clean_name_spec(s@),
{
    let a = regex_replace_all(r"[._-]+", s, " ");
    let b = trim(a.as_str());
    let c = regex_replace_all(r"\s+", b.as_str(), " ");
    trim(c.as_str())
}

/// The first of the patterns from `from` on that matches `stem`.
pub open spec fn first_version_match(stem: Seq<char>, from: int) -> Option<(Seq<char>, Seq<char>, Seq<char>)>
    decreases 5 - from,
{
    if from >= 5 || from < 0 {
        None
    } else {
        match regex_split(version_pattern_spec(from), stem) {
            Some(m) => Some(m),
            None => first_version_match(stem, from + 1),
        }
    }
}

/// The name and version made of a version match in `stem` (the text
/// before the match, the version group, the text after it): the version is
/// the group with `_` read as `.`, the name the rest, made readable; with
/// no match, the whole stem made readable is the name and the version is
/// empty.
pub open spec fn name_from_match(stem: Seq<char>, m: Option<(Seq<char>, Seq<char>, Seq<char>)>) -> (Seq<char>, Seq<char>) {
    match m {
        Some(m) => (clean_name_spec(m.0 + m.2), replace_char_spec(m.1, '_', '.')),
        None => (clean_name_spec(stem), Seq::empty()),
    }
}

/// The name and version read off an archive's file name (without
/// extension): those made of the first pattern that matches.
pub open spec fn archive_name_spec(stem: Seq<char>) -> (Seq<char>, Seq<char>) {
    name_from_match(stem, first_version_match(stem, 0))
}

pub open spec fn match_view(m: Option<(String, String, String)>) -> Option<(Seq<char>, Seq<char>, Seq<char>)> {
    match m {
        Some(m) => Some((m.0@, m.1@, m.2@)),
        None => None,
    }
}

/// The name and version made of the version match `m` found in `stem`
/// (the text before the match, the version group, the text after it), or
/// of `stem` alone where nothing matched.
pub fn archive_name_from_match(stem: &str, m: Option<(String, String, String)>) -> (r: (String, String))
    ensures
        (r.0@, r.1@) == name_from_match(stem@, match_view(m)),
{
    match m {
        Some((before, group, after)) => {
            let version = replace_char(group.as_str(), '_', '.');
            let name = join3(before.as_str(), "", after.as_str());
            proof {
                assert(""@ =~= Seq::<char>::empty()) by {
                    reveal_strlit("");
                }
                assert(name@ =~= before@ + after@);
            }
            (clean_name(name.as_str()), version)
        },
        None => (clean_name(stem), String::new()),
    }
}

/// The version is read with the surest pattern that matches the stem:
/// first a `v`/`ver`/`version` prefix, then `update`/`rev`/`build`, then a
/// version of three or more parts, then one of two parts, then a trailing
/// number after `.` or `_`.  The version is that pattern's group (`_` read
/// as `.`), and the name is the rest of the stem, made readable; where none
/// matches, the whole stem made readable is the name and the version is
/// empty.
pub proof fn law_surer_version_patterns_win(stem: Seq<char>)
    ensures
        match regex_split(r"(?i)v(?:er(?:sion)?)?[._-]?(\d+(?:[._]\d+)+[a-z]?)\b"@, stem) {
            Some(m) => archive_name_spec(stem) == (clean_name_spec(m.0 + m.2), replace_char_spec(m.1, '_', '.')),
            None => match regex_split(r"(?i)\b(?:update|rev|build)[._-]?(\d+(?:[._]\d+)*)\b"@, stem) {
                Some(m) => archive_name_spec(stem) == (clean_name_spec(m.0 + m.2), replace_char_spec(m.1, '_', '.')),
                None => match regex_split(r"(?:^|[^\d.])(\d+(?:\.\d+){2,}[a-z]?)\b"@, stem) {
                    Some(m) => archive_name_spec(stem) == (clean_name_spec(m.0 + m.2), replace_char_spec(m.1, '_', '.')),
                    None => match regex_split(r"(?:^|[^\d.])(\d+\.\d+[a-z]?)\b"@, stem) {
                        Some(m) => archive_name_spec(stem) == (clean_name_spec(m.0 + m.2), replace_char_spec(m.1, '_', '.')),
                        None => match regex_split(r"[._](\d+)$"@, stem) {
                            Some(m) => archive_name_spec(stem) == (clean_name_spec(m.0 + m.2), replace_char_spec(m.1, '_', '.')),
                            None => archive_name_spec(stem) == (clean_name_spec(stem), Seq::<char>::empty()),
                        },
                    },
                },
            },
        },
{
    reveal_with_fuel(first_version_match, 6);
}

/// The name and version read off an archive's file name (without
/// extension).
pub fn parse_archive_name(stem: &str) -> (r: (String, String))
    ensures
        (r.0@, r.1@) == archive_name_spec(stem@),
{
    let mut i: usize = 0;
    while i < 5
        invariant
            i <= 5,
            first_version_match(stem@, 0) == first_version_match(stem@, i as int),
        decreases 5 - i,
    {
        let m = regex_captures(version_pattern(i), stem);
        if m.is_some() {
            proof {
                assert(match_view(m) == first_version_match(stem@, 0));
            }
            return archive_name_from_match(stem, m);
        }
        i = i + 1;
    }
    archive_name_from_match(stem, None)
}

// ----------------------------------------------------------------------
// The installed mod in the order
// ----------------------------------------------------------------------

/// What `Path::join` gives for `base` and `name`, written back as a string.
pub uninterp spec fn std_path_join(base: Seq<char>, name: Seq<char>) -> Seq<char>;

/// `Path::join`, written back with `to_string_lossy`.
#[verifier::external_body]
fn path_join(base: &str, name: &str) -> (r: String)
    ensures
        r@ == std_path_join(base@, name@),
{
    Path::new(base).join(name).to_string_lossy().to_string()
}

/// The folder a mod named `name` is installed into.
pub fn mod_target_path(name: &str) -> (r: String)
    ensures
        r@ == std_path_join("mods"@, name@),
{
    path_join("mods", name)
}

/// Where the archive `file_name` is kept once copied.
pub fn archive_copy_path(file_name: &str) -> (r: String)
    ensures
        r@ == std_path_join("archives"@, file_name@),
{
    path_join("archives", file_name)
}

/// What the user settled on for installing a mod.
#[derive(Clone, PartialEq, Eq, Debug)]
pub struct InstallModalInstallData {
    pub selected_paths: Vec<String>,
    pub copy_archive: bool,
    pub delete_archive: bool,
    pub name: String,
    pub version: String,
    pub category: String,
    pub specific_index_target: SpecificIndexTarget,
    pub specific_index: usize,
}

/// The entry of a newly installed mod: enabled, in its target folder, with
/// the archive copy it was installed from (empty when none was kept).
pub open spec fn installed_entry_spec(data: InstallModalInstallData, archive_path: Seq<char>) -> (Seq<char>, Seq<char>, Seq<char>, Seq<char>, Seq<char>) {
    (data.name@, std_path_join("mods"@, data.name@), data.version@, data.category@, archive_path)
}

/// Puts a newly installed mod into the order: at the end, in place of the
/// mod at the chosen index, or before it.
pub fn add_installed_mod(order: &mut Vec<ModEntry>, data: &InstallModalInstallData, archive_path: String)
    requires
        data.specific_index_target == SpecificIndexTarget::Replace ==> data.specific_index < old(order)@.len(),
        data.specific_index_target == SpecificIndexTarget::Before ==> data.specific_index <= old(order)@.len(),
    ensures
        exists|e: ModEntry| {
            &&& e.enabled
            &&& (e.name@, e.path@, e.version@, e.category@, e.archive@) == installed_entry_spec(*data, archive_path@)
            &&& final(order)@ == placed_spec(old(order)@, e, data.specific_index_target, data.specific_index as int)
        },
{
    let entry = ModEntry {
        enabled: true,
        name: data.name.clone(),
        path: mod_target_path(data.name.as_str()),
        version: data.version.clone(),
        category: data.category.clone(),
        archive: archive_path,
    };
    place_mod(order, entry, data.specific_index_target, data.specific_index);
}

// ----------------------------------------------------------------------
// Extracting the picked folders
// ----------------------------------------------------------------------

/// The prefix an archive entry must start with to lie in the picked folder
/// `dir`: the folder with a `/` after it (nothing for the archive's root).
pub open spec fn extraction_prefix_spec(dir: Seq<char>) -> Seq<char> {
    if dir.len() == 0 || dir.last() == '/' {
        dir
    } else {
        dir + "/"@
    }
}

/// The prefix an archive entry must start with to lie in the picked folder
/// `dir`.
pub fn extraction_prefix(dir: &str) -> (r: String)
    ensures
        r@ == extraction_prefix_spec(dir@),
{
    let n = dir.unicode_len();
    if n == 0 || dir.get_char(n - 1) == '/' {
        to_owned_string(dir)
    } else {
        proof {
            reveal_strlit("");
            assert(dir@ + "/"@ + ""@ =~= dir@ + "/"@);
        }
        join3(dir, "/", "")
    }
}

/// Where an archive entry named `name` goes relative to the picked folder
/// whose prefix is `prefix`: the rest of the name, if it starts with the
/// prefix.
pub fn relative_to_prefix(name: &str, prefix: &str) -> (r: Option<String>)
    ensures
        match r {
            Some(rest) => prefix@.len() <= name@.len() && name@.subrange(0, prefix@.len() as int) == prefix@
                && rest@ == name@.subrange(prefix@.len() as int, name@.len() as int),
            None => !(prefix@.len() <= name@.len() && name@.subrange(0, prefix@.len() as int) == prefix@),
        },
{
    let n = name.unicode_len();
    let m = prefix.unicode_len();
    if m > n {
        return None;
    }
    let mut j: usize = 0;
    while j < m
        invariant
            n == name@.len(),
            m == prefix@.len(),
            m <= n,
            j <= m,
            name@.subrange(0, j as int) == prefix@.subrange(0, j as int),
        decreases m - j,
    {
        if name.get_char(j) != prefix.get_char(j) {
            assert(name@.subrange(0, m as int)[j as int] == name@[j as int]);
            return None;
        }
        proof {
            assert(name@.subrange(0, j + 1) =~= name@.subrange(0, j as int).push(name@[j as int]));
            assert(prefix@.subrange(0, j + 1) =~= prefix@.subrange(0, j as int).push(prefix@[j as int]));
        }
        j = j + 1;
    }
    assert(prefix@.subrange(0, m as int) =~= prefix@);
    Some(name.substring_char(m, n).to_string())
}

/// The rest of `name` after `prefix`, where `name` starts with it.
pub open spec fn rest_after(name: Seq<char>, prefix: Seq<char>) -> Option<Seq<char>> {
    if prefix.len() <= name.len() && name.subrange(0, prefix.len() as int) == prefix {
        Some(name.subrange(prefix.len() as int, name.len() as int))
    } else {
        None
    }
}

/// Where a 7z or rar entry named `name` is written when the folder whose
/// prefix is `prefix` is extracted: the rest of its name below the folder;
/// `None` for an entry outside the folder and for the folder's own entry
/// (nothing left below a non-empty prefix).
pub fn entry_to_extract(name: &str, prefix: &str) -> (r: Option<String>)
    ensures
        match rest_after(name@, prefix@) {
            Some(rest) => if prefix@.len() == 0 || rest.len() > 0 {
                r is Some && r->0@ == rest
            } else {
                r is None
            },
            None => r is None,
        },
{
    match relative_to_prefix(name, prefix) {
        Some(rest) => {
            if prefix.unicode_len() == 0 || rest.unicode_len() > 0 {
                Some(rest)
            } else {
                None
            }
        },
        None => None,
    }
}

/// Where a zip entry named `name` is written when the folder whose prefix
/// is `prefix` is extracted: the rest of its name below the folder; `None`
/// for an entry outside the folder and where nothing is left of the name.
pub fn zip_entry_to_extract(name: &str, prefix: &str) -> (r: Option<String>)
    ensures
        match rest_after(name@, prefix@) {
            Some(rest) => if rest.len() > 0 {
                r is Some && r->0@ == rest
            } else {
                r is None
            },
            None => r is None,
        },
{
    match relative_to_prefix(name, prefix) {
        Some(rest) => {
            if rest.unicode_len() > 0 {
                Some(rest)
            } else {
                None
            }
        },
        None => None,
    }
}

/// The folder of the mod a reinstall replaces, to be removed first: the
/// folder of the mod at `index` when the install replaces it and that
/// folder is set.
pub fn replaced_mod_folder(order: &Vec<ModEntry>, target: SpecificIndexTarget, index: usize) -> (r: Option<String>)
    requires
        target == SpecificIndexTarget::Replace ==> index < order@.len(),
    ensures
        target == SpecificIndexTarget::Replace && order@[index as int].path@.len() > 0 ==> r is Some && r->0@
            == order@[index as int].path@,
        !(target == SpecificIndexTarget::Replace && order@[index as int].path@.len() > 0) ==> r is None,
{
    if target == SpecificIndexTarget::Replace {
        if order[index].path.unicode_len() > 0 {
            return Some(order[index].path.clone());
        }
    }
    None
}

/// The archive kept for the mod a reinstall replaces, to be removed once
/// the new one is kept: that of the mod at `index` when the install
/// replaces it and one is recorded.
pub fn replaced_mod_archive(order: &Vec<ModEntry>, target: SpecificIndexTarget, index: usize) -> (r: Option<String>)
    requires
        target == SpecificIndexTarget::Replace ==> index < order@.len(),
    ensures
        target == SpecificIndexTarget::Replace && order@[index as int].archive@.len() > 0 ==> r is Some && r->0@
            == order@[index as int].archive@,
        !(target == SpecificIndexTarget::Replace && order@[index as int].archive@.len() > 0) ==> r is None,
{
    if target == SpecificIndexTarget::Replace {
        if order[index].archive.unicode_len() > 0 {
            return Some(order[index].archive.clone());
        }
    }
    None
}

} // verus!
