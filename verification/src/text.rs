//! Character-level string helpers: the order in which names are listed,
//! splitting paths into segments and simple replacements.
use vstd::prelude::*;
use vstd::string::*;

verus! {

/// Lexicographic order on character sequences.  For `String`s this is the
/// order of `str`'s `Ord` (UTF-8 byte order agrees with code-point order),
/// which is the order in which a `BTreeMap<String, _>` walks its keys.
pub open spec fn seq_lt(a: Seq<char>, b: Seq<char>) -> bool
    decreases a.len(),
{
    if b.len() == 0 {
        false
    } else if a.len() == 0 {
        true
    } else if a[0] != b[0] {
        (a[0] as int) < (b[0] as int)
    } else {
        seq_lt(a.drop_first(), b.drop_first())
    }
}

pub proof fn lemma_lt_irreflexive(a: Seq<char>)
    ensures
        !seq_lt(a, a),
    decreases a.len(),
{
    if a.len() > 0 {
        lemma_lt_irreflexive(a.drop_first());
    }
}

pub proof fn lemma_lt_asymmetric(a: Seq<char>, b: Seq<char>)
    ensures
        seq_lt(a, b) ==> !seq_lt(b, a),
    decreases a.len(),
{
    if a.len() > 0 && b.len() > 0 && a[0] == b[0] {
        lemma_lt_asymmetric(a.drop_first(), b.drop_first());
    }
}

pub proof fn lemma_lt_transitive(a: Seq<char>, b: Seq<char>, c: Seq<char>)
    ensures
        seq_lt(a, b) && seq_lt(b, c) ==> seq_lt(a, c),
    decreases a.len(),
{
    if a.len() > 0 && b.len() > 0 && c.len() > 0 && a[0] == b[0] && b[0] == c[0] {
        lemma_lt_transitive(a.drop_first(), b.drop_first(), c.drop_first());
    }
}

pub proof fn lemma_lt_total(a: Seq<char>, b: Seq<char>)
    ensures
        a != b ==> seq_lt(a, b) || seq_lt(b, a),
    decreases a.len(),
{
    if a.len() > 0 && b.len() > 0 {
        if a[0] == b[0] {
            lemma_lt_total(a.drop_first(), b.drop_first());
            if a.drop_first() == b.drop_first() {
                assert(a =~= seq![a[0]] + a.drop_first());
                assert(b =~= seq![b[0]] + b.drop_first());
            }
        }
    } else if a.len() == 0 && b.len() == 0 {
        assert(a =~= b);
    }
}

proof fn lemma_lt_common_prefix(a: Seq<char>, b: Seq<char>, i: int)
    requires
        0 <= i <= a.len(),
        i <= b.len(),
        a.subrange(0, i) == b.subrange(0, i),
    ensures
        seq_lt(a, b) == seq_lt(a.subrange(i, a.len() as int), b.subrange(i, b.len() as int)),
    decreases i,
{
    if i > 0 {
        assert(a[0] == a.subrange(0, i)[0]);
        assert(b[0] == b.subrange(0, i)[0]);
        assert(a.drop_first().subrange(0, i - 1) =~= b.drop_first().subrange(0, i - 1)) by {
            assert forall|j: int| 0 <= j < i - 1 implies a.drop_first()[j] == b.drop_first()[j] by {
                assert(a.subrange(0, i)[j + 1] == a[j + 1]);
                assert(b.subrange(0, i)[j + 1] == b[j + 1]);
                assert(a.subrange(0, i)[j + 1] == b.subrange(0, i)[j + 1]);
                assert(a.drop_first()[j] == a[j + 1]);
                assert(b.drop_first()[j] == b[j + 1]);
            }
        }
        lemma_lt_common_prefix(a.drop_first(), b.drop_first(), i - 1);
        assert(a.drop_first().subrange(i - 1, a.len() - 1) =~= a.subrange(i, a.len() as int));
        assert(b.drop_first().subrange(i - 1, b.len() - 1) =~= b.subrange(i, b.len() as int));
    } else {
        assert(a.subrange(0, a.len() as int) =~= a);
        assert(b.subrange(0, b.len() as int) =~= b);
    }
}

/// Whether `a` comes before `b` in the order of `str`.
pub fn str_lt(a: &str, b: &str) -> (r: bool)
    ensures
        r == seq_lt(a@, b@),
{
    let la = a.unicode_len();
    let lb = b.unicode_len();
    let mut i: usize = 0;
    while i < la && i < lb
        invariant
            la == a@.len(),
            lb == b@.len(),
            i <= la,
            i <= lb,
            a@.subrange(0, i as int) == b@.subrange(0, i as int),
        decreases la - i,
    {
        let ca = a.get_char(i);
        let cb = b.get_char(i);
        if ca != cb {
            proof {
                lemma_lt_common_prefix(a@, b@, i as int);
                let sa = a@.subrange(i as int, la as int);
                let sb = b@.subrange(i as int, lb as int);
                assert(sa[0] == ca && sb[0] == cb);
            }
            return (ca as u32) < (cb as u32);
        }
        proof {
            assert(a@.subrange(0, i + 1) =~= a@.subrange(0, i as int).push(ca));
            assert(b@.subrange(0, i + 1) =~= b@.subrange(0, i as int).push(cb));
        }
        i = i + 1;
    }
    proof {
        lemma_lt_common_prefix(a@, b@, i as int);
    }
    i == la && i < lb
}

/// Whether two strings hold the same characters.
pub fn str_eq(a: &str, b: &str) -> (r: bool)
    ensures
        r == (a@ == b@),
{
    let la = a.unicode_len();
    let lb = b.unicode_len();
    if la != lb {
        return false;
    }
    let mut i: usize = 0;
    while i < la
        invariant
            la == a@.len(),
            lb == b@.len(),
            la == lb,
            i <= la,
            a@.subrange(0, i as int) == b@.subrange(0, i as int),
        decreases la - i,
    {
        let ca = a.get_char(i);
        let cb = b.get_char(i);
        if ca != cb {
            return false;
        }
        proof {
            assert(a@.subrange(0, i + 1) =~= a@.subrange(0, i as int).push(ca));
            assert(b@.subrange(0, i + 1) =~= b@.subrange(0, i as int).push(cb));
        }
        i = i + 1;
    }
    assert(a@ =~= a@.subrange(0, la as int));
    assert(b@ =~= b@.subrange(0, la as int));
    true
}

/// `String::push`: appends one character.
#[verifier::external_body]
fn string_push(s: &mut String, c: char)
    ensures
        final(s)@ == old(s)@.push(c),
{
    s.push(c)
}

/// A new string holding the characters of `s`.
pub fn to_owned_string(s: &str) -> (r: String)
    ensures
        r@ == s@,
{
    String::from_str(s)
}

/// `a`, then `sep`, then `b`.
pub fn join3(a: &str, sep: &str, b: &str) -> (r: String)
    ensures
        r@ == a@ + sep@ + b@,
{
    let mut r = String::from_str(a);
    r.append(sep);
    r.append(b);
    r
}

/// `s` with every `from` replaced by `to`.
pub open spec fn replace_char_spec(s: Seq<char>, from: char, to: char) -> Seq<char> {
    s.map_values(|c: char| if c == from { to } else { c })
}

/// `str::replace` with one character for another.
pub fn replace_char(s: &str, from: char, to: char) -> (r: String)
    ensures
        r@ == replace_char_spec(s@, from, to),
{
    let n = s.unicode_len();
    let mut r = String::new();
    let mut i: usize = 0;
    while i < n
        invariant
            n == s@.len(),
            i <= n,
            r@ == replace_char_spec(s@.subrange(0, i as int), from, to),
        decreases n - i,
    {
        let c = s.get_char(i);
        if c == from {
            string_push(&mut r, to);
        } else {
            string_push(&mut r, c);
        }
        proof {
            assert(s@.subrange(0, i + 1) =~= s@.subrange(0, i as int).push(c));
            assert(replace_char_spec(s@.subrange(0, i + 1), from, to) =~= replace_char_spec(
                s@.subrange(0, i as int),
                from,
                to,
            ).push(if c == from { to } else { c }));
        }
        i = i + 1;
    }
    assert(s@.subrange(0, n as int) =~= s@);
    r
}

/// The pieces of `s` between the occurrences of `sep`, as `str::split`
/// gives them: one more piece than there are separators, empty ones kept.
pub open spec fn split_pieces(s: Seq<char>, sep: char) -> Seq<Seq<char>>
    decreases s.len(),
{
    if s.len() == 0 {
        seq![Seq::<char>::empty()]
    } else {
        let p = split_pieces(s.drop_last(), sep);
        if s.last() == sep {
            p.push(Seq::<char>::empty())
        } else {
            p.update(p.len() - 1, p.last().push(s.last()))
        }
    }
}

proof fn lemma_split_pieces_nonempty(s: Seq<char>, sep: char)
    ensures
        split_pieces(s, sep).len() >= 1,
    decreases s.len(),
{
    if s.len() > 0 {
        lemma_split_pieces_nonempty(s.drop_last(), sep);
    }
}

/// The non-empty segments of a `/`-separated path, in order.
pub open spec fn path_segments(s: Seq<char>) -> Seq<Seq<char>> {
    split_pieces(s, '/').filter(|p: Seq<char>| p.len() > 0)
}

/// Splits a `/`-separated path into its non-empty segments.
pub fn split_segments(s: &str) -> (r: Vec<String>)
    ensures
        r@.map_values(|x: String| x@) == path_segments(s@),
{
    let n = s.unicode_len();
    let mut done: Vec<String> = Vec::new();
    let mut cur = String::new();
    let mut i: usize = 0;
    let ghost keep = |p: Seq<char>| p.len() > 0;
    while i < n
        invariant
            n == s@.len(),
            i <= n,
            keep == (|p: Seq<char>| p.len() > 0),
            ({
                let p = split_pieces(s@.subrange(0, i as int), '/');
                &&& p.len() >= 1
                &&& cur@ == p.last()
                &&& done@.map_values(|x: String| x@) == p.drop_last().filter(keep)
            }),
        decreases n - i,
    {
        let c = s.get_char(i);
        let ghost pre = s@.subrange(0, i as int);
        let ghost p = split_pieces(pre, '/');
        proof {
            assert(s@.subrange(0, i + 1).drop_last() =~= pre);
            assert(s@.subrange(0, i + 1).last() == c);
        }
        if c == '/' {
            let ghost before = done@.map_values(|x: String| x@);
            if cur.unicode_len() > 0 {
                let piece = cur;
                done.push(piece);
                proof {
                    assert(done@.map_values(|x: String| x@) =~= before.push(p.last()));
                }
            } else {
                proof {
                    assert(done@.map_values(|x: String| x@) =~= before);
                }
            }
            cur = String::new();
            proof {
                let q = split_pieces(s@.subrange(0, i + 1), '/');
                assert(q == p.push(Seq::<char>::empty()));
                assert(q.drop_last() =~= p);
                assert(p =~= p.drop_last().push(p.last()));
                p.drop_last().lemma_filter_push(p.last(), keep);
            }
        } else {
            string_push(&mut cur, c);
            proof {
                let q = split_pieces(s@.subrange(0, i + 1), '/');
                assert(q == p.update(p.len() - 1, p.last().push(c)));
                assert(q.drop_last() =~= p.drop_last());
            }
        }
        i = i + 1;
    }
    proof {
        let p = split_pieces(s@, '/');
        assert(s@.subrange(0, n as int) =~= s@);
        assert(p =~= p.drop_last().push(p.last()));
        p.drop_last().lemma_filter_push(p.last(), keep);
    }
    if cur.unicode_len() > 0 {
        done.push(cur);
    }
    proof {
        let p = split_pieces(s@, '/');
        assert(done@.map_values(|x: String| x@) =~= p.filter(keep));
    }
    done
}

/// `s` with each occurrence of `pat`, taken left to right without overlap,
/// replaced by `rep` (the behaviour of `str::replace` for a non-empty pattern).
pub open spec fn replace_all_spec(s: Seq<char>, pat: Seq<char>, rep: Seq<char>) -> Seq<char>
    recommends
        pat.len() > 0,
    decreases s.len(),
{
    if s.len() == 0 || pat.len() == 0 {
        s
    } else if pat.len() <= s.len() && s.subrange(0, pat.len() as int) == pat {
        rep + replace_all_spec(s.subrange(pat.len() as int, s.len() as int), pat, rep)
    } else {
        seq![s[0]] + replace_all_spec(s.drop_first(), pat, rep)
    }
}

/// Whether `pat` occurs in `s` at position `i`.
fn matches_at(s: &str, n: usize, pat: &str, m: usize, i: usize) -> (r: bool)
    requires
        n == s@.len(),
        m == pat@.len(),
        i <= n,
    ensures
        r == (i + m <= n && s@.subrange(i as int, i + m) == pat@),
{
    if m > n - i {
        return false;
    }
    let mut j: usize = 0;
    while j < m
        invariant
            n == s@.len(),
            m == pat@.len(),
            i + m <= n,
            j <= m,
            s@.subrange(i as int, i + j) == pat@.subrange(0, j as int),
        decreases m - j,
    {
        if s.get_char(i + j) != pat.get_char(j) {
            assert(s@.subrange(i as int, i + m)[j as int] == s@[i + j]);
            return false;
        }
        proof {
            assert(s@.subrange(i as int, i + j + 1) =~= s@.subrange(i as int, i + j).push(
                s@[i + j],
            ));
            assert(pat@.subrange(0, j + 1) =~= pat@.subrange(0, j as int).push(pat@[j as int]));
        }
        j = j + 1;
    }
    assert(pat@.subrange(0, m as int) =~= pat@);
    true
}

/// `str::replace` for a non-empty pattern.
pub fn replace_all(s: &str, pat: &str, rep: &str) -> (r: String)
    requires
        pat@.len() > 0,
    ensures
        r@ == replace_all_spec(s@, pat@, rep@),
{
    let n = s.unicode_len();
    let m = pat.unicode_len();
    let mut r = String::new();
    let mut i: usize = 0;
    assert(s@.subrange(0, n as int) =~= s@);
    assert(r@ + s@ =~= s@);
    while i < n
        invariant
            n == s@.len(),
            m == pat@.len(),
            m > 0,
            i <= n,
            r@ + replace_all_spec(s@.subrange(i as int, n as int), pat@, rep@)
                == replace_all_spec(s@, pat@, rep@),
        decreases n - i,
    {
        let ghost rest = s@.subrange(i as int, n as int);
        if matches_at(s, n, pat, m, i) {
            proof {
                assert(rest.subrange(0, m as int) =~= s@.subrange(i as int, i + m));
                assert(rest.subrange(m as int, rest.len() as int) =~= s@.subrange(
                    i + m,
                    n as int,
                ));
            }
            r.append(rep);
            proof {
                assert(r@ + replace_all_spec(s@.subrange(i + m, n as int), pat@, rep@)
                    =~= (r@.subrange(0, r@.len() - rep@.len())) + (rep@ + replace_all_spec(
                    s@.subrange(i + m, n as int),
                    pat@,
                    rep@,
                )));
            }
            i = i + m;
        } else {
            let c = s.get_char(i);
            proof {
                if m <= rest.len() {
                    assert(rest.subrange(0, m as int) =~= s@.subrange(i as int, i + m));
                }
                assert(rest.drop_first() =~= s@.subrange(i + 1, n as int));
                assert(rest[0] == c);
            }
            string_push(&mut r, c);
            proof {
                assert(r@ + replace_all_spec(s@.subrange(i + 1, n as int), pat@, rep@)
                    =~= r@.drop_last() + (seq![c] + replace_all_spec(
                    s@.subrange(i + 1, n as int),
                    pat@,
                    rep@,
                )));
            }
            i = i + 1;
        }
    }
    proof {
        assert(s@.subrange(n as int, n as int) =~= Seq::<char>::empty());
        assert(r@ + Seq::<char>::empty() =~= r@);
    }
    r
}

/// The characters of each string of `v`.
pub open spec fn strings_view(v: Seq<String>) -> Seq<Seq<char>> {
    v.map_values(|s: String| s@)
}

/// Whether `name` is one of `list`.
pub fn contains_str(list: &Vec<String>, name: &str) -> (r: bool)
    ensures
        r == strings_view(list@).contains(name@),
{
    let n = list.len();
    let mut i: usize = 0;
    while i < n
        invariant
            n == list@.len(),
            i <= n,
            forall|j: int| 0 <= j < i ==> list@[j]@ != name@,
        decreases n - i,
    {
        if str_eq(list[i].as_str(), name) {
            assert(strings_view(list@)[i as int] == name@);
            return true;
        }
        i = i + 1;
    }
    proof {
        if strings_view(list@).contains(name@) {
            let j = choose|j: int| 0 <= j < strings_view(list@).len() && strings_view(list@)[j] == name@;
            assert(list@[j]@ == name@);
        }
    }
    false
}

/// `list` without any string equal to `name`, the others in order.
pub fn without_str(list: &Vec<String>, name: &str) -> (r: Vec<String>)
    ensures
        strings_view(r@) == strings_view(list@).filter(|p: Seq<char>| p != name@),
{
    let ghost keep = |p: Seq<char>| p != name@;
    let ghost o = strings_view(list@);
    let mut out: Vec<String> = Vec::new();
    let n = list.len();
    let mut i: usize = 0;
    proof {
        assert(o.subrange(0, 0).filter(keep) =~= Seq::<Seq<char>>::empty()) by {
            reveal(Seq::filter);
        }
    }
    while i < n
        invariant
            n == list@.len(),
            o == strings_view(list@),
            i <= n,
            keep == (|p: Seq<char>| p != name@),
            strings_view(out@) == o.subrange(0, i as int).filter(keep),
        decreases n - i,
    {
        proof {
            assert(o.subrange(0, i + 1) =~= o.subrange(0, i as int).push(o[i as int]));
            o.subrange(0, i as int).lemma_filter_push(o[i as int], keep);
        }
        if !str_eq(list[i].as_str(), name) {
            let c = list[i].clone();
            let ghost before = out@;
            out.push(c);
            proof {
                assert(strings_view(out@) =~= strings_view(before).push(c@));
            }
        }
        i = i + 1;
    }
    proof {
        assert(o.subrange(0, n as int) =~= o);
    }
    out
}

} // verus!
