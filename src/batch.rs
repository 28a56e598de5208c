//! The state of one batch: which specimens were seen under which names, the
//! renames made, and the files that could not be read.

use vstd::prelude::*;
use crate::name::{normalize, normalized};
use crate::paths::{contains_char, pair_views, views};

verus! {

/// The map that a sequence of (key, value) pairs writes, later pairs over
/// earlier ones.
pub open spec fn table<K, V>(s: Seq<(K, V)>) -> Map<K, V>
    decreases s.len(),
{
    if s.len() == 0 {
        Map::empty()
    } else {
        table(s.drop_last()).insert(s.last().0, s.last().1)
    }
}

pub open spec fn keys_unique<K, V>(s: Seq<(K, V)>) -> bool {
    forall|i: int, j: int| 0 <= i < j < s.len() ==> s[i].0 != s[j].0
}

proof fn lemma_table_absent<K, V>(s: Seq<(K, V)>, k: K)
    requires
        forall|i: int| 0 <= i < s.len() ==> s[i].0 != k,
    ensures
        !table(s).contains_key(k),
    decreases s.len(),
{
    if s.len() > 0 {
        lemma_table_absent(s.drop_last(), k);
    }
}

proof fn lemma_table_update<K, V>(s: Seq<(K, V)>, i: int, v: V)
    requires
        keys_unique(s),
        0 <= i < s.len(),
    ensures
        table(s.update(i, (s[i].0, v))) == table(s).insert(s[i].0, v),
    decreases s.len(),
{
    let t = s.update(i, (s[i].0, v));
    if i == s.len() - 1 {
        assert(t.drop_last() =~= s.drop_last());
        assert(table(t) =~= table(s).insert(s[i].0, v));
    } else {
        assert(t.drop_last() =~= s.drop_last().update(i, (s[i].0, v)));
        lemma_table_update(s.drop_last(), i, v);
        assert(table(t) =~= table(s).insert(s[i].0, v));
    }
}

proof fn lemma_table_len<K, V>(s: Seq<(K, V)>)
    requires
        keys_unique(s),
    ensures
        table(s).len() == s.len(),
        table(s).dom().finite(),
    decreases s.len(),
{
    if s.len() > 0 {
        let d = s.drop_last();
        assert(keys_unique(d));
        lemma_table_len(d);
        lemma_table_absent(d, s.last().0);
    }
}

/// The suffix of a specimen's capture, from how many captures came before it.
pub open spec fn suffix_for(count: nat) -> Seq<char> {
    if count == 0 {
        seq!['_', 'D']
    } else if count == 1 {
        seq!['_', 'V']
    } else {
        seq!['_', 'M', 'A', 'N', 'U', 'A', 'L']
    }
}

proof fn lemma_suffix_plain(count: nat)
    ensures
        forall|k: int| 0 <= k < suffix_for(count).len() ==> #[trigger] suffix_for(count)[k] != '/',
{
}

/// The paths registered under `name`, in the order they came.
pub open spec fn occurrences(reg: Seq<(Seq<char>, Seq<char>)>, name: Seq<char>) -> Seq<Seq<char>>
    decreases reg.len(),
{
    if reg.len() == 0 {
        seq![]
    } else {
        let p = occurrences(reg.drop_last(), name);
        if reg.last().0 == name {
            p.push(reg.last().1)
        } else {
            p
        }
    }
}

/// Three captures of one specimen, registered in turn from a state that has
/// none, take the suffixes `_D`, `_V` and `_MANUAL`; any later one takes
/// `_MANUAL` too.
pub proof fn lemma_captures_in_turn(
    reg: Seq<(Seq<char>, Seq<char>)>,
    name: Seq<char>,
    p1: Seq<char>,
    p2: Seq<char>,
    p3: Seq<char>,
)
    requires
        occurrences(reg, name).len() == 0,
    ensures
        suffix_for(occurrences(reg, name).len()) == seq!['_', 'D'],
        suffix_for(occurrences(reg.push((name, p1)), name).len()) == seq!['_', 'V'],
        suffix_for(occurrences(reg.push((name, p1)).push((name, p2)), name).len()) == seq![
            '_',
            'M',
            'A',
            'N',
            'U',
            'A',
            'L',
        ],
        suffix_for(
            occurrences(reg.push((name, p1)).push((name, p2)).push((name, p3)), name).len(),
        ) == suffix_for(occurrences(reg.push((name, p1)).push((name, p2)), name).len()),
{
    let r1 = reg.push((name, p1));
    let r2 = r1.push((name, p2));
    let r3 = r2.push((name, p3));
    assert(r1.drop_last() == reg);
    assert(r2.drop_last() == r1);
    assert(r3.drop_last() == r2);
    assert(occurrences(r1, name).len() == 1);
    assert(occurrences(r2, name).len() == 2);
    assert(occurrences(r3, name).len() == 3);
}

/// The ledger after the renames of `pairs` were entered one by one.
pub open spec fn merged(ledger: Map<Seq<char>, Seq<char>>, pairs: Seq<(Seq<char>, Seq<char>)>) -> Map<
    Seq<char>,
    Seq<char>,
>
    decreases pairs.len(),
{
    if pairs.len() == 0 {
        ledger
    } else {
        merged(ledger, pairs.drop_last()).insert(pairs.last().0, pairs.last().1)
    }
}

/// What a batch knows: every (name, path) registration in order, the ledger
/// from old path to new path, and the paths that could not be read.
pub struct BatchModel {
    pub registrations: Seq<(Seq<char>, Seq<char>)>,
    pub ledger: Map<Seq<char>, Seq<char>>,
    pub failures: Seq<Seq<char>>,
}

pub open spec fn fresh_model() -> BatchModel {
    BatchModel { registrations: seq![], ledger: Map::empty(), failures: seq![] }
}

/// The read gave text whose name can rename a file in place: one without `/`.
pub open spec fn names_file(out: Seq<char>) -> bool {
    out.len() > 0 && !normalized(out).contains('/')
}

/// The model after a decoder's output `out` for `path` came back.
pub open spec fn after_read(
    m: BatchModel,
    path: Seq<char>,
    out: Seq<char>,
    from_matrix: bool,
    include_barcodes: bool,
) -> BatchModel {
    if names_file(out) {
        BatchModel { registrations: m.registrations.push((normalized(out), path)), ..m }
    } else if out.len() == 0 && from_matrix && include_barcodes {
        m
    } else {
        BatchModel { failures: m.failures.push(path), ..m }
    }
}

/// The model after a run in which no decoder read any of `files`.
pub open spec fn unreadable_run(m: BatchModel, files: Seq<Seq<char>>, include_barcodes: bool) -> BatchModel
    decreases files.len(),
{
    if files.len() == 0 {
        m
    } else {
        let m0 = unreadable_run(m, files.drop_last(), include_barcodes);
        let f = files.last();
        let m1 = after_read(m0, f, seq![], true, include_barcodes);
        if include_barcodes {
            after_read(m1, f, seq![], false, include_barcodes)
        } else {
            m1
        }
    }
}

/// A run in which every file fails to decode, by each method tried, lists
/// every file as failed, in order, and registers and renames nothing. With
/// no files at all, everything stays empty.
pub proof fn lemma_unreadable_run(files: Seq<Seq<char>>, include_barcodes: bool)
    ensures
        unreadable_run(fresh_model(), files, include_barcodes) == (BatchModel {
            registrations: seq![],
            ledger: Map::empty(),
            failures: files,
        }),
    decreases files.len(),
{
    let m = unreadable_run(fresh_model(), files, include_barcodes);
    if files.len() > 0 {
        lemma_unreadable_run(files.drop_last(), include_barcodes);
        assert(files.drop_last().push(files.last()) =~= files);
        assert(m.failures =~= files);
    } else {
        assert(m.failures =~= files);
    }
}

/// What a decoder returned for the file at hand.
pub enum Read {
    Matrix(String),
    Barcode(String),
}

impl Read {
    pub open spec fn text(self) -> Seq<char> {
        match self {
            Read::Matrix(s) => s@,
            Read::Barcode(s) => s@,
        }
    }
}

/// What the caller does next for the file at hand.
pub enum Action {
    /// Run the barcode decoder on it.
    ReadBarcode,
    /// Rename it and its siblings to this base name, then report the renames.
    Rename(String),
    /// Nothing: it is recorded as failed.
    Skip,
}

/// The state of one batch.
pub struct Batch {
    registrations: Vec<(String, String)>,
    edits: Vec<(String, String)>,
    failures: Vec<String>,
}

impl Batch {
    pub closed spec fn model(&self) -> BatchModel {
        BatchModel {
            registrations: pair_views(self.registrations@),
            ledger: table(pair_views(self.edits@)),
            failures: self.failures@.map_values(|s: String| s@),
        }
    }

    /// The ledger holds each old path once.
    pub closed spec fn wf(&self) -> bool {
        keys_unique(pair_views(self.edits@))
    }

    pub closed spec fn ledger_rows(&self) -> Seq<(Seq<char>, Seq<char>)> {
        pair_views(self.edits@)
    }

    pub fn new() -> (r: Batch)
        ensures
            r.wf(),
            r.model() == fresh_model(),
    {
        let r = Batch { registrations: Vec::new(), edits: Vec::new(), failures: Vec::new() };
        assert(r.model().registrations =~= seq![]);
        assert(r.model().failures =~= seq![]);
        assert(r.model().ledger =~= Map::empty());
        r
    }

    /// How many paths are registered under `name`.
    pub fn count_of(&self, name: &str) -> (r: usize)
        ensures
            r == occurrences(self.model().registrations, name@).len(),
    {
        let name = String::from_str(name);
        let mut n: usize = 0;
        let mut i: usize = 0;
        while i < self.registrations.len()
            invariant
                i <= self.registrations.len(),
                n <= i,
                n == occurrences(pair_views(self.registrations@.subrange(0, i as int)), name@).len(),
            decreases self.registrations.len() - i,
        {
            let ghost sub = pair_views(self.registrations@.subrange(0, i + 1));
            assert(sub.drop_last() =~= pair_views(self.registrations@.subrange(0, i as int)));
            if self.registrations[i].0 == name {
                n = n + 1;
            }
            i = i + 1;
        }
        assert(self.registrations@.subrange(0, i as int) =~= self.registrations@);
        n
    }

    /// Registers `path` under `name` and returns the full name it takes: the
    /// name with `_D` for its first capture, `_V` for the second and
    /// `_MANUAL` for any later one.
    pub fn register(&mut self, name: &str, path: &str) -> (r: String)
        requires
            old(self).wf(),
        ensures
            final(self).wf(),
            final(self).model() == (BatchModel {
                registrations: old(self).model().registrations.push((name@, path@)),
                ..old(self).model()
            }),
            r@ == name@ + suffix_for(occurrences(old(self).model().registrations, name@).len()),
    {
        let count = self.count_of(name);
        let suffix = if count == 0 {
            "_D"
        } else if count == 1 {
            "_V"
        } else {
            "_MANUAL"
        };
        proof {
            reveal_strlit("_D");
            reveal_strlit("_V");
            reveal_strlit("_MANUAL");
        }
        assert(suffix@ =~= suffix_for(count as nat));
        let full = String::from_str(name).concat(suffix);
        let ghost before = self.registrations@;
        self.registrations.push((String::from_str(name), String::from_str(path)));
        assert(pair_views(self.registrations@) =~= pair_views(before).push((name@, path@)));
        full
    }

    /// Records that no decoder could read `path`.
    pub fn record_failure(&mut self, path: &str)
        requires
            old(self).wf(),
        ensures
            final(self).wf(),
            final(self).model() == (BatchModel {
                failures: old(self).model().failures.push(path@),
                ..old(self).model()
            }),
    {
        let ghost before = self.failures@;
        self.failures.push(String::from_str(path));
        assert(self.failures@.map_values(|s: String| s@) =~= before.map_values(|s: String| s@).push(
            path@,
        ));
    }

    /// Enters one rename in the ledger, over any earlier one of the same path.
    pub fn record_edit(&mut self, from: String, to: String)
        requires
            old(self).wf(),
        ensures
            final(self).wf(),
            final(self).model() == (BatchModel {
                ledger: old(self).model().ledger.insert(from@, to@),
                ..old(self).model()
            }),
    {
        let ghost before = pair_views(self.edits@);
        let mut i: usize = 0;
        while i < self.edits.len() && !(self.edits[i].0 == from)
            invariant
                i <= self.edits.len(),
                before == pair_views(self.edits@),
                forall|j: int| 0 <= j < i ==> before[j].0 != from@,
            decreases self.edits.len() - i,
        {
            i = i + 1;
        }
        if i < self.edits.len() {
            let ghost k = from@;
            self.edits.set(i, (from, to));
            proof {
                lemma_table_update(before, i as int, to@);
                assert(pair_views(self.edits@) =~= before.update(i as int, (k, to@)));
            }
        } else {
            proof {
                lemma_table_absent(before, from@);
            }
            self.edits.push((from, to));
            assert(pair_views(self.edits@) =~= before.push((from@, to@)));
            assert(before.push((from@, to@)).drop_last() =~= before);
        }
    }

    /// Enters the renames of one file, in order.
    pub fn record_edits(&mut self, pairs: Vec<(String, String)>)
        requires
            old(self).wf(),
        ensures
            final(self).wf(),
            final(self).model() == (BatchModel {
                ledger: merged(old(self).model().ledger, pair_views(pairs@)),
                ..old(self).model()
            }),
    {
        let ghost start = self.model();
        let mut i: usize = 0;
        while i < pairs.len()
            invariant
                self.wf(),
                i <= pairs.len(),
                self.model() == (BatchModel {
                    ledger: merged(start.ledger, pair_views(pairs@.subrange(0, i as int))),
                    ..start
                }),
            decreases pairs.len() - i,
        {
            let ghost sub = pair_views(pairs@.subrange(0, i + 1));
            assert(sub.drop_last() =~= pair_views(pairs@.subrange(0, i as int)));
            let from = pairs[i].0.clone();
            let to = pairs[i].1.clone();
            self.record_edit(from, to);
            i = i + 1;
        }
        assert(pairs@.subrange(0, i as int) =~= pairs@);
    }
    /// Takes a decoder's output for `path`. Text from either decoder is
    /// normalized and registered, and the file is to be renamed; this holds
    /// also where the text normalizes to the empty name. A name holding `/`
    /// would move the file out of its directory: that read records the file
    /// as failed. An empty matrix read asks for the barcode decoder where it
    /// is enabled; any other empty read records the file as failed.
    pub fn read(&mut self, path: &str, read: Read, include_barcodes: bool) -> (r: Action)
        requires
            old(self).wf(),
        ensures
            final(self).wf(),
            final(self).model() == after_read(
                old(self).model(),
                path@,
                read.text(),
                read is Matrix,
                include_barcodes,
            ),
            match r {
                Action::ReadBarcode => read.text().len() == 0 && read is Matrix && include_barcodes,
                Action::Skip => !names_file(read.text()) && !(read.text().len() == 0 && read is Matrix
                    && include_barcodes),
                Action::Rename(full) => names_file(read.text()) && !full@.contains('/') && full@
                    == normalized(read.text())
                    + suffix_for(
                    occurrences(old(self).model().registrations, normalized(read.text())).len(),
                ),
            },
    {
        let (text, from_matrix) = match read {
            Read::Matrix(s) => (s, true),
            Read::Barcode(s) => (s, false),
        };
        let name = normalize(text.as_str());
        if text.as_str().unicode_len() > 0 && !contains_char(name.as_str(), '/') {
            let full = self.register(name.as_str(), path);
            proof {
                lemma_suffix_plain(occurrences(self.model().registrations.drop_last(), name@).len());
                assert(!full@.contains('/')) by {
                    if full@.contains('/') {
                        let j = choose|j: int| 0 <= j < full@.len() && full@[j] == '/';
                        if j < name@.len() {
                            assert(name@[j] == '/');
                        } else {
                            assert(suffix_for(
                                occurrences(self.model().registrations.drop_last(), name@).len(),
                            )[j - name@.len()] == '/');
                        }
                    }
                }
            }
            Action::Rename(full)
        } else if text.as_str().unicode_len() == 0 && from_matrix && include_barcodes {
            Action::ReadBarcode
        } else {
            self.record_failure(path);
            Action::Skip
        }
    }

    /// The rows of the audit log: the header, then each ledger entry once.
    pub fn audit_log(&self) -> (r: Vec<(String, String)>)
        requires
            self.wf(),
        ensures
            pair_views(r@).len() >= 1,
            pair_views(r@)[0] == ("Old Path"@, "New Path"@),
            keys_unique(pair_views(r@).skip(1)),
            table(pair_views(r@).skip(1)) == self.model().ledger,
            pair_views(r@).len() == self.model().ledger.len() + 1,
    {
        let mut r: Vec<(String, String)> = Vec::new();
        r.push((String::from_str("Old Path"), String::from_str("New Path")));
        let mut i: usize = 0;
        while i < self.edits.len()
            invariant
                i <= self.edits.len(),
                pair_views(r@).len() == i + 1,
                pair_views(r@)[0] == ("Old Path"@, "New Path"@),
                pair_views(r@).skip(1) == pair_views(self.edits@.subrange(0, i as int)),
            decreases self.edits.len() - i,
        {
            let from = self.edits[i].0.clone();
            let to = self.edits[i].1.clone();
            let ghost before = pair_views(r@);
            r.push((from, to));
            assert(pair_views(r@) =~= before.push((from@, to@)));
            assert(pair_views(self.edits@.subrange(0, i + 1)) =~= pair_views(
                self.edits@.subrange(0, i as int),
            ).push((from@, to@)));
            assert(pair_views(r@).skip(1) =~= pair_views(self.edits@.subrange(0, i + 1)));
            i = i + 1;
        }
        assert(self.edits@.subrange(0, i as int) =~= self.edits@);
        proof {
            lemma_table_len(pair_views(self.edits@));
        }
        r
    }
    /// The paths that no decoder could read, in the order they came.
    pub fn failed(&self) -> (r: &Vec<String>)
        ensures
            views(r@) == self.model().failures,
    {
        &self.failures
    }
}

} // verus!
