//! From a decoder's raw text to a canonical specimen name.

use vstd::prelude::*;

verus! {

/// The search pattern: an accession marker with its digits, and the shortest
/// prefix before it on the same line.
pub const MARKER_PATTERN: &'static str = "(.*?)MGCL\\s?[0-9]{7,8}";

/// Unicode `White_Space`, the set that both `char::is_whitespace` and the
/// regex class `\s` stand for.
pub open spec fn is_ws(c: char) -> bool {
    let u = c as u32;
    (0x9 <= u && u <= 0xD) || u == 0x20 || u == 0x85 || u == 0xA0 || u == 0x1680 || (0x2000 <= u
        && u <= 0x200A) || u == 0x2028 || u == 0x2029 || u == 0x202F || u == 0x205F || u == 0x3000
}

pub open spec fn is_digit(c: char) -> bool {
    '0' <= c && c <= '9'
}

/// Seven decimal digits start at `i`.
pub open spec fn digits_at(s: Seq<char>, i: int) -> bool {
    0 <= i && i + 7 <= s.len() && forall|k: int| i <= k < i + 7 ==> is_digit(#[trigger] s[k])
}

/// `MGCL`, at most one whitespace character, then seven digits, starting at `i`.
pub open spec fn marker_at(s: Seq<char>, i: int) -> bool {
    &&& 0 <= i && i + 4 <= s.len()
    &&& s[i] == 'M' && s[i + 1] == 'G' && s[i + 2] == 'C' && s[i + 3] == 'L'
    &&& digits_at(s, i + 4) || (i + 4 < s.len() && is_ws(s[i + 4]) && digits_at(s, i + 5))
}

pub open spec fn has_marker(s: Seq<char>) -> bool {
    exists|i: int| marker_at(s, i)
}

pub open spec fn is_first_marker(s: Seq<char>, i: int) -> bool {
    marker_at(s, i) && forall|j: int| 0 <= j < i ==> !marker_at(s, j)
}

/// Where the earliest marker of `s` begins.
pub open spec fn marker_start(s: Seq<char>) -> int {
    choose|i: int| is_first_marker(s, i)
}

/// `s` without its leading whitespace.
pub open spec fn trim_start(s: Seq<char>) -> Seq<char>
    decreases s.len(),
{
    if s.len() > 0 && is_ws(s[0]) {
        trim_start(s.skip(1))
    } else {
        s
    }
}

/// `s` without its trailing whitespace.
pub open spec fn trim_end(s: Seq<char>) -> Seq<char>
    decreases s.len(),
{
    if s.len() > 0 && is_ws(s.last()) {
        trim_end(s.drop_last())
    } else {
        s
    }
}

pub open spec fn trimmed(s: Seq<char>) -> Seq<char> {
    trim_end(trim_start(s))
}

/// Newlines dropped, any other whitespace turned into an underscore.
pub open spec fn joined(s: Seq<char>) -> Seq<char>
    decreases s.len(),
{
    if s.len() == 0 {
        s
    } else {
        let p = joined(s.drop_last());
        if s.last() == '\n' {
            p
        } else if is_ws(s.last()) {
            p.push('_')
        } else {
            p.push(s.last())
        }
    }
}

pub open spec fn tag() -> Seq<char> {
    seq!['C', 'O', 'D', 'E', '-', '1', '2', '8', ':']
}

pub open spec fn tag_at(s: Seq<char>, i: int) -> bool {
    0 <= i && i + 9 <= s.len() && s.subrange(i, i + 9) == tag()
}

/// Every `CODE-128:` removed, scanning left to right without overlap.
pub open spec fn untagged(s: Seq<char>) -> Seq<char>
    decreases s.len(),
{
    if s.len() == 0 {
        s
    } else if tag_at(s, 0) {
        untagged(s.skip(9))
    } else {
        seq![s[0]] + untagged(s.skip(1))
    }
}

/// `CODE-128:` removed pass after pass, until no pass removes one.
pub open spec fn stripped(s: Seq<char>) -> Seq<char>
    decreases s.len(),
{
    if untagged(s).len() < s.len() {
        stripped(untagged(s))
    } else {
        s
    }
}

/// The canonical form of the text from the marker on.
pub open spec fn canonical(s: Seq<char>) -> Seq<char> {
    stripped(joined(trimmed(s)))
}

/// The canonical name of a raw payload: empty where it holds no marker.
pub open spec fn normalized(raw: Seq<char>) -> Seq<char> {
    if has_marker(raw) {
        canonical(raw.skip(marker_start(raw)))
    } else {
        Seq::empty()
    }
}

proof fn lemma_joined_plain(s: Seq<char>)
    ensures
        forall|k: int| 0 <= k < joined(s).len() ==> !is_ws(#[trigger] joined(s)[k]),
    decreases s.len(),
{
    if s.len() > 0 {
        lemma_joined_plain(s.drop_last());
        let p = joined(s.drop_last());
        assert forall|k: int| 0 <= k < joined(s).len() implies !is_ws(#[trigger] joined(s)[k]) by {
            if k < p.len() {
                assert(joined(s)[k] == p[k]);
            }
        }
    }
}

proof fn lemma_untagged_from(s: Seq<char>)
    ensures
        forall|k: int| 0 <= k < untagged(s).len() ==> s.contains(#[trigger] untagged(s)[k]),
    decreases s.len(),
{
    if s.len() > 0 {
        if tag_at(s, 0) {
            lemma_untagged_from(s.skip(9));
            assert forall|k: int| 0 <= k < untagged(s).len() implies s.contains(
                #[trigger] untagged(s)[k],
            ) by {
                assert(untagged(s) == untagged(s.skip(9)));
                assert(s.skip(9).contains(untagged(s.skip(9))[k]));
                let j = choose|j: int| 0 <= j < s.skip(9).len() && s.skip(9)[j] == untagged(s)[k];
                assert(s[j + 9] == untagged(s)[k]);
            }
        } else {
            lemma_untagged_from(s.skip(1));
            assert forall|k: int| 0 <= k < untagged(s).len() implies s.contains(
                #[trigger] untagged(s)[k],
            ) by {
                if k == 0 {
                    assert(s[0] == untagged(s)[k]);
                } else {
                    assert(untagged(s)[k] == untagged(s.skip(1))[k - 1]);
                    assert(s.skip(1).contains(untagged(s.skip(1))[k - 1]));
                    let j = choose|j: int|
                        0 <= j < s.skip(1).len() && s.skip(1)[j] == untagged(s.skip(1))[k - 1];
                    assert(s[j + 1] == untagged(s)[k]);
                }
            }
        }
    }
}

proof fn lemma_untagged_shrinks(s: Seq<char>)
    ensures
        untagged(s).len() <= s.len(),
        (exists|i: int| tag_at(s, i)) ==> untagged(s).len() < s.len(),
    decreases s.len(),
{
    if s.len() > 0 {
        if tag_at(s, 0) {
            lemma_untagged_shrinks(s.skip(9));
        } else {
            lemma_untagged_shrinks(s.skip(1));
            if exists|i: int| tag_at(s, i) {
                let i = choose|i: int| tag_at(s, i);
                assert(i != 0);
                assert(s.skip(1).subrange(i - 1, i + 8) =~= s.subrange(i, i + 9));
                assert(tag_at(s.skip(1), i - 1));
            }
        }
    }
}

proof fn lemma_stripped_clean(s: Seq<char>)
    ensures
        forall|i: int| !tag_at(stripped(s), i),
        forall|k: int|
            0 <= k < stripped(s).len() ==> s.contains(#[trigger] stripped(s)[k]),
    decreases s.len(),
{
    lemma_untagged_shrinks(s);
    if untagged(s).len() < s.len() {
        lemma_stripped_clean(untagged(s));
        lemma_untagged_from(s);
        assert forall|k: int| 0 <= k < stripped(s).len() implies s.contains(
            #[trigger] stripped(s)[k],
        ) by {
            assert(untagged(s).contains(stripped(untagged(s))[k]));
            let j = choose|j: int| 0 <= j < untagged(s).len() && untagged(s)[j] == stripped(s)[k];
            assert(s.contains(untagged(s)[j]));
        }
    } else {
        assert forall|k: int| 0 <= k < stripped(s).len() implies s.contains(
            #[trigger] stripped(s)[k],
        ) by {
            assert(s[k] == stripped(s)[k]);
        }
    }
}

/// A canonical name holds no whitespace, newlines among it, and no
/// `CODE-128:`, whatever the raw text.
pub proof fn lemma_normalized_unbroken(raw: Seq<char>)
    ensures
        forall|k: int| 0 <= k < normalized(raw).len() ==> !is_ws(#[trigger] normalized(raw)[k]),
        forall|i: int| !tag_at(normalized(raw), i),
        !normalized(raw).contains('\n'),
        !normalized(raw).contains(' '),
{
    if has_marker(raw) {
        let j = joined(trimmed(raw.skip(marker_start(raw))));
        lemma_joined_plain(trimmed(raw.skip(marker_start(raw))));
        lemma_stripped_clean(j);
        assert forall|k: int| 0 <= k < normalized(raw).len() implies !is_ws(
            #[trigger] normalized(raw)[k],
        ) by {
            assert(j.contains(stripped(j)[k]));
        }
    }
    if normalized(raw).contains('\n') {
        let k = choose|k: int| 0 <= k < normalized(raw).len() && normalized(raw)[k] == '\n';
        assert(!is_ws(normalized(raw)[k]));
    }
    if normalized(raw).contains(' ') {
        let k = choose|k: int| 0 <= k < normalized(raw).len() && normalized(raw)[k] == ' ';
        assert(!is_ws(normalized(raw)[k]));
    }
}

/// Text with no accession marker, the empty text among it, has the empty name.
pub proof fn lemma_unmarked_is_empty(raw: Seq<char>)
    requires
        !has_marker(raw),
    ensures
        normalized(raw) == Seq::<char>::empty(),
        normalized(Seq::<char>::empty()) == Seq::<char>::empty(),
{
}

proof fn lemma_joined_keeps(s: Seq<char>)
    requires
        forall|k: int| 0 <= k < s.len() ==> !is_ws(#[trigger] s[k]),
    ensures
        joined(s) == s,
    decreases s.len(),
{
    if s.len() > 0 {
        lemma_joined_keeps(s.drop_last());
        assert(s.drop_last().push(s.last()) =~= s);
    }
}

proof fn lemma_untagged_keeps(s: Seq<char>)
    requires
        forall|i: int| !tag_at(s, i),
    ensures
        untagged(s) == s,
    decreases s.len(),
{
    if s.len() > 0 {
        assert forall|i: int| !tag_at(s.skip(1), i) by {
            if tag_at(s.skip(1), i) {
                assert(s.skip(1).subrange(i, i + 9) =~= s.subrange(i + 1, i + 10));
                assert(tag_at(s, i + 1));
            }
        }
        assert(!tag_at(s, 0));
        lemma_untagged_keeps(s.skip(1));
        assert(seq![s[0]] + s.skip(1) =~= s);
    }
}

/// A name that starts with its accession marker and holds no whitespace and
/// no `CODE-128:` is left as it is by normalizing it again.
pub proof fn lemma_canonical_is_fixed(n: Seq<char>)
    requires
        marker_at(n, 0),
        forall|k: int| 0 <= k < n.len() ==> !is_ws(#[trigger] n[k]),
        forall|i: int| !tag_at(n, i),
    ensures
        normalized(n) == n,
{
    assert(is_first_marker(n, 0));
    let m = marker_start(n);
    assert(is_first_marker(n, m));
    assert(m == 0);
    assert(n.skip(0) =~= n);
    assert(!is_ws(n[0]));
    assert(trim_start(n) == n);
    assert(!is_ws(n.last()));
    assert(trim_end(n) == n);
    lemma_joined_keeps(n);
    lemma_untagged_keeps(n);
}

/// Relies on `fancy_regex::Regex::new` and `Regex::captures`. The pattern uses
/// no backtracking feature, so the search is handed to regex-automata and
/// returns `Ok`; its leftmost-first match takes the shortest line-bound prefix,
/// so the first group ends where the earliest marker of the text begins.
#[verifier::external_body]
fn text_from_marker(pattern: &str, text: &str) -> (r: Option<String>)
    requires
        pattern@ == MARKER_PATTERN@,
    ensures
        r is None <==> !has_marker(text@),
        r matches Some(t) ==> t@ == text@.skip(marker_start(text@)),
{
    let re = match fancy_regex::Regex::new(pattern) {
        Ok(re) => re,
        Err(_) => return None,
    };
    match re.captures(text) {
        Ok(Some(caps)) => caps.get(1).map(|m| text[m.end()..].to_string()),
        _ => None,
    }
}

pub fn is_whitespace(c: char) -> (r: bool)
    ensures
        r == is_ws(c),
{
    let u = c as u32;
    (0x9 <= u && u <= 0xD) || u == 0x20 || u == 0x85 || u == 0xA0 || u == 0x1680 || (0x2000 <= u
        && u <= 0x200A) || u == 0x2028 || u == 0x2029 || u == 0x202F || u == 0x205F || u == 0x3000
}

/// The text without leading or trailing whitespace.
pub fn trim(s: &str) -> (r: String)
    ensures
        r@ == trimmed(s@),
{
    let n = s.unicode_len();
    let mut lo: usize = 0;
    assert(s@.skip(0) =~= s@);
    while lo < n && is_whitespace(s.get_char(lo))
        invariant
            n == s@.len(),
            lo <= n,
            trim_start(s@) == trim_start(s@.skip(lo as int)),
        decreases n - lo,
    {
        assert(s@.skip(lo as int).skip(1) =~= s@.skip(lo + 1));
        lo = lo + 1;
    }
    let mut hi: usize = n;
    assert(s@.skip(lo as int) =~= s@.subrange(lo as int, n as int));
    while hi > lo && is_whitespace(s.get_char(hi - 1))
        invariant
            n == s@.len(),
            lo <= hi <= n,
            trim_start(s@) == s@.subrange(lo as int, n as int),
            trimmed(s@) == trim_end(s@.subrange(lo as int, hi as int)),
        decreases hi,
    {
        assert(s@.subrange(lo as int, hi as int).drop_last() =~= s@.subrange(lo as int, hi - 1));
        hi = hi - 1;
    }
    String::from_str(s.substring_char(lo, hi))
}

/// Drops newlines and turns any other whitespace into underscores.
pub fn join_words(s: &str) -> (r: String)
    ensures
        r@ == joined(s@),
{
    let n = s.unicode_len();
    let mut out = String::new();
    let mut i: usize = 0;
    while i < n
        invariant
            n == s@.len(),
            i <= n,
            out@ == joined(s@.subrange(0, i as int)),
        decreases n - i,
    {
        let c = s.get_char(i);
        let ghost pre = s@.subrange(0, i + 1);
        assert(pre.drop_last() =~= s@.subrange(0, i as int));
        assert(pre.last() == c);
        if c == '\n' {
        } else if is_whitespace(c) {
            proof {
                reveal_strlit("_");
            }
            assert("_"@ =~= seq!['_']);
            out.append("_");
        } else {
            out.append(s.substring_char(i, i + 1));
            assert(s@.subrange(i as int, i + 1) =~= seq![c]);
        }
        assert(out@ =~= joined(pre));
        i = i + 1;
    }
    assert(s@.subrange(0, n as int) =~= s@);
    out
}

fn has_tag_at(s: &str, n: usize, i: usize) -> (r: bool)
    requires
        n == s@.len(),
        i <= n,
    ensures
        r == tag_at(s@, i as int),
{
    if n - i < 9 {
        return false;
    }
    let r = s.get_char(i) == 'C' && s.get_char(i + 1) == 'O' && s.get_char(i + 2) == 'D'
        && s.get_char(i + 3) == 'E' && s.get_char(i + 4) == '-' && s.get_char(i + 5) == '1'
        && s.get_char(i + 6) == '2' && s.get_char(i + 7) == '8' && s.get_char(i + 8) == ':';
    if r {
        assert(s@.subrange(i as int, i + 9) =~= tag());
    } else {
        proof {
            let w = s@.subrange(i as int, i + 9);
            if w == tag() {
                assert(w[0] == tag()[0] && w[1] == tag()[1] && w[2] == tag()[2]);
                assert(w[3] == tag()[3] && w[4] == tag()[4] && w[5] == tag()[5]);
                assert(w[6] == tag()[6] && w[7] == tag()[7] && w[8] == tag()[8]);
            }
        }
    }
    r
}

/// Removes every `CODE-128:`, left to right.
pub fn strip_tags(s: &str) -> (r: String)
    ensures
        r@ == untagged(s@),
{
    let n = s.unicode_len();
    let mut out = String::new();
    let mut i: usize = 0;
    assert(s@.skip(0) =~= s@);
    assert(out@ + untagged(s@) =~= untagged(s@));
    while i < n
        invariant
            n == s@.len(),
            i <= n,
            out@ + untagged(s@.skip(i as int)) == untagged(s@),
        decreases n - i,
    {
        let ghost rest = s@.skip(i as int);
        if has_tag_at(s, n, i) {
            assert(rest.subrange(0, 9) =~= s@.subrange(i as int, i + 9));
            assert(rest.skip(9) =~= s@.skip(i + 9));
            i = i + 9;
        } else {
            assert(!tag_at(rest, 0)) by {
                if tag_at(rest, 0) {
                    assert(rest.subrange(0, 9) =~= s@.subrange(i as int, i + 9));
                }
            }
            assert(rest.skip(1) =~= s@.skip(i + 1));
            let c = s.substring_char(i, i + 1);
            assert(c@ =~= seq![rest[0]]);
            let ghost before = out@;
            out.append(c);
            assert(out@ + untagged(s@.skip(i + 1)) =~= before + (seq![rest[0]] + untagged(
                rest.skip(1),
            )));
            i = i + 1;
        }
    }
    assert(s@.skip(n as int) =~= Seq::<char>::empty());
    out
}

/// Removes `CODE-128:` pass after pass, until none is left.
pub fn strip_all_tags(s: &str) -> (r: String)
    ensures
        r@ == stripped(s@),
{
    let mut cur = String::from_str(s);
    loop
        invariant
            stripped(cur@) == stripped(s@),
        decreases cur@.len(),
    {
        let next = strip_tags(cur.as_str());
        if next.as_str().unicode_len() < cur.as_str().unicode_len() {
            cur = next;
        } else {
            return cur;
        }
    }
}

/// The canonical specimen name in a decoder's raw output: the text from the
/// earliest accession marker on, trimmed, with newlines dropped, any other
/// whitespace made an underscore and `CODE-128:` removed until none is left.
/// Empty where the text holds no marker.
pub fn normalize(raw: &str) -> (r: String)
    ensures
        r@ == normalized(raw@),
        forall|k: int| 0 <= k < r@.len() ==> !is_ws(#[trigger] r@[k]),
        forall|i: int| !tag_at(r@, i),
{
    proof {
        lemma_normalized_unbroken(raw@);
    }
    match text_from_marker(MARKER_PATTERN, raw) {
        None => String::new(),
        Some(t) => {
            let a = trim(t.as_str());
            let b = join_words(a.as_str());
            strip_all_tags(b.as_str())
        },
    }
}

} // verus!
