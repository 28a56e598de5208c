//! Paths as text: their order, the photographs among them, and how a
//! photograph's siblings are renamed.

use vstd::prelude::*;
use vstd::multiset::Multiset;

verus! {

broadcast use vstd::seq_lib::group_to_multiset_ensures;

/// The text of each string.
pub open spec fn views(v: Seq<String>) -> Seq<Seq<char>> {
    v.map_values(|s: String| s@)
}

/// Lexicographic order by code point, the order of the path strings.
pub open spec fn lex_le(a: Seq<char>, b: Seq<char>) -> bool
    decreases a.len(),
{
    if a.len() == 0 {
        true
    } else if b.len() == 0 {
        false
    } else if a[0] != b[0] {
        a[0] < b[0]
    } else {
        lex_le(a.skip(1), b.skip(1))
    }
}

pub open spec fn sorted(s: Seq<Seq<char>>) -> bool {
    forall|i: int, j: int| 0 <= i < j < s.len() ==> lex_le(s[i], s[j])
}

/// Any two paths are ordered one way or the other.
pub proof fn lemma_lex_total(a: Seq<char>, b: Seq<char>)
    ensures
        lex_le(a, b) || lex_le(b, a),
    decreases a.len(),
{
    if a.len() > 0 && b.len() > 0 && a[0] == b[0] {
        lemma_lex_total(a.skip(1), b.skip(1));
    }
}

/// The order is transitive.
pub proof fn lemma_lex_trans(a: Seq<char>, b: Seq<char>, c: Seq<char>)
    requires
        lex_le(a, b),
        lex_le(b, c),
    ensures
        lex_le(a, c),
    decreases a.len(),
{
    if a.len() > 0 && b.len() > 0 && c.len() > 0 && a[0] == b[0] && b[0] == c[0] {
        lemma_lex_trans(a.skip(1), b.skip(1), c.skip(1));
    }
}

/// The path's extension is `jpg` in any letter case.
pub open spec fn is_jpg(p: Seq<char>) -> bool {
    let n = p.len();
    &&& n >= 4
    &&& p[n - 4] == '.'
    &&& p[n - 3] == 'j' || p[n - 3] == 'J'
    &&& p[n - 2] == 'p' || p[n - 2] == 'P'
    &&& p[n - 1] == 'g' || p[n - 1] == 'G'
}

pub open spec fn jpg_only(s: Seq<Seq<char>>) -> Seq<Seq<char>> {
    s.filter(|p: Seq<char>| is_jpg(p))
}

/// Whether `a` comes before `b` or equals it.
pub fn path_le(a: &str, b: &str) -> (r: bool)
    ensures
        r == lex_le(a@, b@),
{
    let na = a.unicode_len();
    let nb = b.unicode_len();
    let mut i: usize = 0;
    assert(a@.skip(0) =~= a@ && b@.skip(0) =~= b@);
    while i < na && i < nb && a.get_char(i) == b.get_char(i)
        invariant
            na == a@.len(),
            nb == b@.len(),
            i <= na && i <= nb,
            lex_le(a@, b@) == lex_le(a@.skip(i as int), b@.skip(i as int)),
        decreases na - i,
    {
        assert(a@.skip(i as int).skip(1) =~= a@.skip(i + 1));
        assert(b@.skip(i as int).skip(1) =~= b@.skip(i + 1));
        i = i + 1;
    }
    if i == na {
        true
    } else if i == nb {
        false
    } else {
        a.get_char(i) < b.get_char(i)
    }
}

pub fn is_jpg_path(p: &str) -> (r: bool)
    ensures
        r == is_jpg(p@),
{
    let n = p.unicode_len();
    if n < 4 {
        return false;
    }
    let (d, j, q, g) = (p.get_char(n - 4), p.get_char(n - 3), p.get_char(n - 2), p.get_char(n - 1));
    d == '.' && (j == 'j' || j == 'J') && (q == 'p' || q == 'P') && (g == 'g' || g == 'G')
}

/// Two paths ordered both ways are the same path.
pub proof fn lemma_lex_antisym(a: Seq<char>, b: Seq<char>)
    requires
        lex_le(a, b),
        lex_le(b, a),
    ensures
        a == b,
    decreases a.len(),
{
    if a.len() > 0 && b.len() > 0 {
        lemma_lex_antisym(a.skip(1), b.skip(1));
        assert(a =~= seq![a[0]] + a.skip(1));
        assert(b =~= seq![b[0]] + b.skip(1));
    } else {
        assert(a =~= b);
    }
}

proof fn lemma_sorted_unique(a: Seq<Seq<char>>, b: Seq<Seq<char>>)
    requires
        sorted(a),
        sorted(b),
        a.to_multiset() == b.to_multiset(),
    ensures
        a == b,
    decreases a.len(),
{
    vstd::seq_lib::to_multiset_len(a);
    vstd::seq_lib::to_multiset_len(b);
    if a.len() == 0 {
        assert(a =~= b);
    } else {
        vstd::seq_lib::to_multiset_contains(a, a[0]);
        vstd::seq_lib::to_multiset_contains(b, b[0]);
        assert(a.to_multiset().count(a[0]) > 0);
        assert(b.contains(a[0]));
        assert(a.contains(b[0]));
        let i = choose|i: int| 0 <= i < b.len() && b[i] == a[0];
        let j = choose|j: int| 0 <= j < a.len() && a[j] == b[0];
        if i > 0 {
            assert(lex_le(b[0], b[i]));
        }
        if j > 0 {
            assert(lex_le(a[0], a[j]));
        }
        lemma_lex_total(a[0], a[0]);
        lemma_lex_total(b[0], b[0]);
        assert(lex_le(a[0], b[0]));
        assert(lex_le(b[0], a[0]));
        lemma_lex_antisym(a[0], b[0]);
        vstd::seq_lib::to_multiset_remove(a, 0);
        vstd::seq_lib::to_multiset_remove(b, 0);
        assert(a.remove(0) =~= a.skip(1));
        assert(b.remove(0) =~= b.skip(1));
        lemma_sorted_unique(a.skip(1), b.skip(1));
        assert(a =~= seq![a[0]] + a.skip(1));
        assert(b =~= seq![b[0]] + b.skip(1));
    }
}

proof fn lemma_jpg_count(s: Seq<Seq<char>>, x: Seq<char>)
    ensures
        jpg_only(s).to_multiset().count(x) == if is_jpg(x) {
            s.to_multiset().count(x)
        } else {
            0
        },
    decreases s.len(),
{
    if s.len() == 0 {
        assert(jpg_only(s) =~= seq![]);
        assert(s.to_multiset() =~= Multiset::empty());
        assert(jpg_only(s).to_multiset() =~= Multiset::empty());
    } else {
        let d = s.drop_last();
        lemma_jpg_count(d, x);
        assert(d.push(s.last()) =~= s);
        d.lemma_filter_push(s.last(), |p: Seq<char>| is_jpg(p));
    }
}

/// The photographs collected from a listing do not depend on its order: two
/// listings that hold the same paths give the same result.
pub proof fn lemma_collect_order_free(
    found1: Seq<Seq<char>>,
    found2: Seq<Seq<char>>,
    r1: Seq<Seq<char>>,
    r2: Seq<Seq<char>>,
)
    requires
        found1.to_multiset() == found2.to_multiset(),
        r1.to_multiset() == jpg_only(found1).to_multiset(),
        sorted(r1),
        r2.to_multiset() == jpg_only(found2).to_multiset(),
        sorted(r2),
    ensures
        r1 == r2,
{
    assert forall|x: Seq<char>| #[trigger] r1.to_multiset().count(x) == r2.to_multiset().count(x) by {
        lemma_jpg_count(found1, x);
        lemma_jpg_count(found2, x);
    }
    assert(r1.to_multiset() =~= r2.to_multiset());
    lemma_sorted_unique(r1, r2);
}

proof fn lemma_insert_sorted(s: Seq<Seq<char>>, k: int, x: Seq<char>)
    requires
        sorted(s),
        0 <= k <= s.len(),
        forall|j: int| 0 <= j < k ==> lex_le(#[trigger] s[j], x),
        k < s.len() ==> lex_le(x, s[k]),
    ensures
        sorted(s.insert(k, x)),
{
    let t = s.insert(k, x);
    assert forall|i: int, j: int| 0 <= i < j < t.len() implies lex_le(t[i], t[j]) by {
        if j < k {
        } else if j == k {
        } else if i < k {
            lemma_lex_trans(s[i], x, s[k]);
            if j - 1 > k {
                lemma_lex_trans(s[i], s[k], s[j - 1]);
            }
        } else if i == k {
            if j - 1 > k {
                lemma_lex_trans(x, s[k], s[j - 1]);
            }
        } else {
        }
    }
}

/// The photographs among the paths found under a root: those with a `jpg`
/// extension in any letter case, in ascending order of their text.
pub fn collect(found: Vec<String>) -> (r: Vec<String>)
    ensures
        views(r@).to_multiset() == jpg_only(views(found@)).to_multiset(),
        sorted(views(r@)),
{
    let mut out: Vec<String> = Vec::new();
    let mut i: usize = 0;
    while i < found.len()
        invariant
            i <= found.len(),
            views(out@).to_multiset() == jpg_only(views(found@.subrange(0, i as int))).to_multiset(),
            sorted(views(out@)),
        decreases found.len() - i,
    {
        let p = &found[i];
        assert(views(found@.subrange(0, i + 1)) =~= views(found@.subrange(0, i as int)).push(p@));
        proof {
            views(found@.subrange(0, i as int)).lemma_filter_push(p@, |p: Seq<char>| is_jpg(p));
        }
        if is_jpg_path(p.as_str()) {
            let mut k: usize = 0;
            while k < out.len() && path_le(out[k].as_str(), p.as_str())
                invariant
                    k <= out.len(),
                    forall|j: int| 0 <= j < k ==> lex_le(#[trigger] views(out@)[j], p@),
                decreases out.len() - k,
            {
                k = k + 1;
            }
            proof {
                if k < out.len() {
                    lemma_lex_total(views(out@)[k as int], p@);
                }
                lemma_insert_sorted(views(out@), k as int, p@);
            }
            let ghost before = out@;
            out.insert(k, p.clone());
            assert(views(out@) =~= views(before).insert(k as int, p@));
        }
        i = i + 1;
    }
    assert(found@.subrange(0, i as int) =~= found@);
    out
}

/// One past the last `c` in `s`, or zero where `s` holds none.
pub open spec fn after_last(s: Seq<char>, c: char) -> int
    decreases s.len(),
{
    if s.len() == 0 {
        0
    } else if s.last() == c {
        s.len() as int
    } else {
        after_last(s.drop_last(), c)
    }
}

/// The directory of a path, with its closing `/`.
pub open spec fn dir_of(p: Seq<char>) -> Seq<char> {
    p.subrange(0, after_last(p, '/'))
}

/// The file name of a path.
pub open spec fn name_of(p: Seq<char>) -> Seq<char> {
    p.skip(after_last(p, '/'))
}

/// The name has an extension: a dot that is not its first character.
pub open spec fn has_ext(name: Seq<char>) -> bool {
    after_last(name, '.') > 1
}

/// The name without its extension.
pub open spec fn stem_of(name: Seq<char>) -> Seq<char> {
    if has_ext(name) {
        name.subrange(0, after_last(name, '.') - 1)
    } else {
        name
    }
}

/// The extension of a name, as it is written.
pub open spec fn ext_of(name: Seq<char>) -> Seq<char> {
    name.skip(after_last(name, '.'))
}

/// `e` lies in the directory of `base`, has an extension, and shares the stem
/// of `base`.
pub open spec fn is_sibling(base: Seq<char>, e: Seq<char>) -> bool {
    &&& dir_of(e) == dir_of(base)
    &&& has_ext(name_of(e))
    &&& stem_of(name_of(e)) == stem_of(name_of(base))
}

/// Where `e` goes: the same directory and extension, under the new base name.
pub open spec fn renamed(e: Seq<char>, new_name: Seq<char>) -> Seq<char> {
    dir_of(e) + new_name + seq!['.'] + ext_of(name_of(e))
}

/// The renames for the siblings of `base` among `entries`, in their order.
pub open spec fn sibling_plan(base: Seq<char>, new_name: Seq<char>, entries: Seq<Seq<char>>) -> Seq<
    (Seq<char>, Seq<char>),
>
    decreases entries.len(),
{
    if entries.len() == 0 {
        seq![]
    } else {
        let p = sibling_plan(base, new_name, entries.drop_last());
        let e = entries.last();
        if is_sibling(base, e) {
            p.push((e, renamed(e, new_name)))
        } else {
            p
        }
    }
}

pub open spec fn pair_views(v: Seq<(String, String)>) -> Seq<(Seq<char>, Seq<char>)> {
    v.map_values(|p: (String, String)| (p.0@, p.1@))
}

proof fn lemma_after_last_facts(s: Seq<char>, c: char)
    ensures
        0 <= after_last(s, c) <= s.len(),
        after_last(s, c) > 0 ==> s[after_last(s, c) - 1] == c,
        forall|j: int| after_last(s, c) <= j < s.len() ==> s[j] != c,
    decreases s.len(),
{
    if s.len() > 0 && s.last() != c {
        lemma_after_last_facts(s.drop_last(), c);
        assert forall|j: int| after_last(s, c) <= j < s.len() implies s[j] != c by {
            if j < s.len() - 1 {
                assert(s.drop_last()[j] == s[j]);
            }
        }
    }
}

proof fn lemma_after_last_append(a: Seq<char>, b: Seq<char>, c: char)
    requires
        !b.contains(c),
    ensures
        after_last(a + b, c) == after_last(a, c),
    decreases b.len(),
{
    if b.len() > 0 {
        assert((a + b).drop_last() =~= a + b.drop_last());
        assert((a + b).last() == b.last());
        assert(!b.drop_last().contains(c)) by {
            if b.drop_last().contains(c) {
                let j = choose|j: int| 0 <= j < b.drop_last().len() && b.drop_last()[j] == c;
                assert(b[j] == c);
            }
        }
        lemma_after_last_append(a, b.drop_last(), c);
    } else {
        assert(a + b =~= a);
    }
}

/// With a new name free of `/`, a renamed file stays in its directory and
/// keeps its extension.
pub proof fn lemma_renamed_in_place(e: Seq<char>, new_name: Seq<char>)
    requires
        !new_name.contains('/'),
    ensures
        dir_of(renamed(e, new_name)) == dir_of(e),
        name_of(renamed(e, new_name)) == new_name + seq!['.'] + ext_of(name_of(e)),
{
    let k = after_last(e, '/');
    lemma_after_last_facts(e, '/');
    let dir = dir_of(e);
    let name = name_of(e);
    lemma_after_last_facts(name, '.');
    let ext = ext_of(name);
    let tail = new_name + seq!['.'] + ext;
    assert(!tail.contains('/')) by {
        if tail.contains('/') {
            let j = choose|j: int| 0 <= j < tail.len() && tail[j] == '/';
            if j < new_name.len() {
                assert(new_name[j] == '/');
            } else if j > new_name.len() {
                let q = j - new_name.len() - 1;
                assert(ext[q] == name[q + after_last(name, '.')]);
                assert(name[q + after_last(name, '.')] == e[q + after_last(name, '.') + k]);
            }
        }
    }
    assert(renamed(e, new_name) =~= dir + tail);
    lemma_after_last_append(dir, tail, '/');
    if k > 0 {
        assert(dir.drop_last() =~= e.subrange(0, k - 1));
        assert(after_last(dir, '/') == k);
    } else {
        assert(after_last(dir, '/') == 0);
    }
    assert((dir + tail).subrange(0, k) =~= dir);
    assert((dir + tail).skip(k) =~= tail);
}

/// Whether `c` occurs in `s`.
pub fn contains_char(s: &str, c: char) -> (r: bool)
    ensures
        r == s@.contains(c),
{
    let n = s.unicode_len();
    let mut i: usize = 0;
    while i < n
        invariant
            n == s@.len(),
            i <= n,
            forall|j: int| 0 <= j < i ==> s@[j] != c,
        decreases n - i,
    {
        if s.get_char(i) == c {
            return true;
        }
        i = i + 1;
    }
    false
}

fn after_last_of(s: &str, c: char) -> (r: usize)
    ensures
        r == after_last(s@, c),
        r <= s@.len(),
{
    let n = s.unicode_len();
    let mut j: usize = n;
    assert(s@.subrange(0, n as int) =~= s@);
    while j > 0 && s.get_char(j - 1) != c
        invariant
            n == s@.len(),
            j <= n,
            after_last(s@, c) == after_last(s@.subrange(0, j as int), c),
        decreases j,
    {
        assert(s@.subrange(0, j as int).drop_last() =~= s@.subrange(0, j - 1));
        j = j - 1;
    }
    if j > 0 {
        assert(s@.subrange(0, j as int).last() == c);
    }
    j
}

/// The renames that move every sibling of `base_path` among `entries` (the
/// paths in its directory) to `new_name`, keeping each one's extension. Each
/// file stays in its own directory, so the new name holds no `/`.
pub fn rename_all(base_path: &str, new_name: &str, entries: &Vec<String>) -> (r: Vec<(String, String)>)
    requires
        !new_name@.contains('/'),
    ensures
        pair_views(r@) == sibling_plan(base_path@, new_name@, views(entries@)),
        forall|i: int|
            0 <= i < r@.len() ==> {
                let (old, new) = #[trigger] pair_views(r@)[i];
                &&& is_sibling(base_path@, old)
                &&& dir_of(new) == dir_of(old)
                &&& name_of(new) == new_name@ + seq!['.'] + ext_of(name_of(old))
            },
{
    let bn = base_path.unicode_len();
    let bd = after_last_of(base_path, '/');
    let base_dir = String::from_str(base_path.substring_char(0, bd));
    let base_name = base_path.substring_char(bd, bn);
    assert(base_name@ =~= name_of(base_path@));
    let bdot = after_last_of(base_name, '.');
    let base_stem = if bdot > 1 {
        String::from_str(base_name.substring_char(0, bdot - 1))
    } else {
        String::from_str(base_name)
    };
    assert(base_stem@ =~= stem_of(name_of(base_path@)));
    proof {
        reveal_strlit(".");
    }
    let mut out: Vec<(String, String)> = Vec::new();
    let mut i: usize = 0;
    while i < entries.len()
        invariant
            i <= entries.len(),
            base_dir@ == dir_of(base_path@),
            base_stem@ == stem_of(name_of(base_path@)),
            "."@ == seq!['.'],
            pair_views(out@) == sibling_plan(
                base_path@,
                new_name@,
                views(entries@.subrange(0, i as int)),
            ),
            !new_name@.contains('/'),
            forall|j: int|
                0 <= j < out@.len() ==> {
                    let (old, new) = #[trigger] pair_views(out@)[j];
                    &&& is_sibling(base_path@, old)
                    &&& dir_of(new) == dir_of(old)
                    &&& name_of(new) == new_name@ + seq!['.'] + ext_of(name_of(old))
                },
        decreases entries.len() - i,
    {
        let e = entries[i].as_str();
        let ghost sub = views(entries@.subrange(0, i + 1));
        assert(sub.drop_last() =~= views(entries@.subrange(0, i as int)));
        assert(sub.last() == e@);
        let en = e.unicode_len();
        let ed = after_last_of(e, '/');
        let dir = String::from_str(e.substring_char(0, ed));
        let name = e.substring_char(ed, en);
        assert(name@ =~= name_of(e@));
        let nl = name.unicode_len();
        let dot = after_last_of(name, '.');
        if dot > 1 && dir == base_dir {
            let stem = String::from_str(name.substring_char(0, dot - 1));
            if stem == base_stem {
                let ext = name.substring_char(dot, nl);
                let target = dir.concat(new_name).concat(".").concat(ext);
                assert(target@ =~= renamed(e@, new_name@));
                proof {
                    lemma_renamed_in_place(e@, new_name@);
                }
                let ghost before = out@;
                out.push((String::from_str(e), target));
                assert(pair_views(out@) =~= pair_views(before).push((e@, renamed(e@, new_name@))));
            }
        }
        i = i + 1;
    }
    assert(entries@.subrange(0, i as int) =~= entries@);
    out
}

} // verus!
