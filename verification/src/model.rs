//! The index model: per-document term-frequency tables, the corpus-wide
//! document-frequency table, and the exact arithmetic of the two scoring
//! primitives.
//!
//! A table is a vector of `(token, count)` pairs with pairwise-distinct keys
//! and positive counts; its view is the abstract sequence of
//! `(token characters, count)` pairs.  Scores are kept as exact fractions
//! `(numerator, denominator)`: `compute_tf` yields `count / total` and
//! `compute_idf` yields the argument `N / max(1, document frequency)` of the
//! logarithm, so a caller owns the single lossy step.

use vstd::prelude::*;

verus! {

/// Some entry of `es` has key `k`.
pub open spec fn has_key(es: Seq<(Seq<char>, nat)>, k: Seq<char>) -> bool {
    exists|i: int| 0 <= i < es.len() && (#[trigger] es[i]).0 == k
}

/// The index of the entry with key `k` (meaningful only when `has_key`).
pub open spec fn key_index(es: Seq<(Seq<char>, nat)>, k: Seq<char>) -> int {
    choose|i: int| 0 <= i < es.len() && (#[trigger] es[i]).0 == k
}

/// The count stored under `k`, or 0 when `k` is absent.
pub open spec fn count_of(es: Seq<(Seq<char>, nat)>, k: Seq<char>) -> nat {
    if has_key(es, k) {
        es[key_index(es, k)].1
    } else {
        0
    }
}

/// The sum of all counts of `es`.
pub open spec fn total_of(es: Seq<(Seq<char>, nat)>) -> int
    decreases es.len(),
{
    if es.len() == 0 {
        0
    } else {
        total_of(es.drop_last()) + es.last().1
    }
}

/// Keys are pairwise distinct.
pub open spec fn uniq_keys(es: Seq<(Seq<char>, nat)>) -> bool {
    forall|i: int, j: int|
        0 <= i < j < es.len() ==> (#[trigger] es[i]).0 != (#[trigger] es[j]).0
}

/// The exact term frequency of `k` in a document table: `count / total`,
/// guarded to `0 / 1` for an empty document.
pub open spec fn spec_tf(es: Seq<(Seq<char>, nat)>, k: Seq<char>) -> (int, int) {
    if total_of(es) == 0 {
        (0, 1)
    } else {
        (count_of(es, k) as int, total_of(es))
    }
}

/// The exact argument of the logarithm in the inverse document frequency:
/// `n / max(1, document frequency of k)`.
pub open spec fn spec_idf(es: Seq<(Seq<char>, nat)>, n: int, k: Seq<char>) -> (int, int) {
    (n, if count_of(es, k) == 0 {
        1
    } else {
        count_of(es, k) as int
    })
}

pub proof fn lemma_total_nonneg(es: Seq<(Seq<char>, nat)>)
    ensures
        total_of(es) >= 0,
    decreases es.len(),
{
    if es.len() > 0 {
        lemma_total_nonneg(es.drop_last());
    }
}

/// The total dominates every single entry.
pub proof fn lemma_total_ge_entry(es: Seq<(Seq<char>, nat)>, j: int)
    requires
        0 <= j < es.len(),
    ensures
        total_of(es) >= es[j].1,
    decreases es.len(),
{
    lemma_total_nonneg(es.drop_last());
    if j < es.len() - 1 {
        lemma_total_ge_entry(es.drop_last(), j);
    }
}

/// A count never exceeds the total.
pub proof fn lemma_count_le_total(es: Seq<(Seq<char>, nat)>, k: Seq<char>)
    ensures
        count_of(es, k) <= total_of(es),
{
    lemma_total_nonneg(es);
    if has_key(es, k) {
        lemma_total_ge_entry(es, key_index(es, k));
    }
}

/// Under distinct keys, the entry at `j` is what `count_of` finds for its key.
pub proof fn lemma_count_at(es: Seq<(Seq<char>, nat)>, j: int)
    requires
        uniq_keys(es),
        0 <= j < es.len(),
    ensures
        has_key(es, es[j].0),
        key_index(es, es[j].0) == j,
        count_of(es, es[j].0) == es[j].1,
{
    assert(0 <= j < es.len() && es[j].0 == es[j].0);
    let i = key_index(es, es[j].0);
    assert(0 <= i < es.len() && es[i].0 == es[j].0);
    if i != j {
        assert(false);
    }
}

proof fn lemma_total_update(es: Seq<(Seq<char>, nat)>, j: int, p: (Seq<char>, nat))
    requires
        0 <= j < es.len(),
    ensures
        total_of(es.update(j, p)) == total_of(es) - es[j].1 + p.1,
    decreases es.len(),
{
    if j == es.len() - 1 {
        assert(es.update(j, p).drop_last() =~= es.drop_last());
        assert(es.update(j, p).last() == p);
    } else {
        assert(es.update(j, p).drop_last() =~= es.drop_last().update(j, p));
        lemma_total_update(es.drop_last(), j, p);
        assert(es.update(j, p).last() == es.last());
    }
}

proof fn lemma_total_take_step(es: Seq<(Seq<char>, nat)>, i: int)
    requires
        0 <= i < es.len(),
    ensures
        total_of(es.take(i + 1)) == total_of(es.take(i)) + es[i].1,
{
    assert(es.take(i + 1).drop_last() =~= es.take(i));
    assert(es.take(i + 1).last() == es[i]);
}

proof fn lemma_total_take_le(es: Seq<(Seq<char>, nat)>, i: int)
    requires
        0 <= i <= es.len(),
    ensures
        total_of(es.take(i)) <= total_of(es),
    decreases es.len() - i,
{
    if i == es.len() {
        assert(es.take(i) =~= es);
    } else {
        lemma_total_take_step(es, i);
        lemma_total_take_le(es, i + 1);
    }
}

/// A term-frequency table: token -> positive occurrence count, keys distinct.
/// (The same shape serves as the document-frequency table.)
pub struct TermFreq {
    entries: Vec<(String, usize)>,
}

/// The corpus-wide document-frequency table: token -> number of documents in
/// which it occurs.
pub type DocFreq = TermFreq;

/// One term-frequency table per document, in insertion order.
pub type TermFreqPerDoc = Vec<(String, TermFreq)>;

/// The abstract contents of a list of `(token, count)` pairs.
pub open spec fn table_view(es: Seq<(String, usize)>) -> Seq<(Seq<char>, nat)> {
    es.map_values(|p: (String, usize)| (p.0@, p.1 as nat))
}

/// What a raw entry list must satisfy to be a table: distinct keys, positive
/// counts, and a total that fits a `usize`.
pub open spec fn valid_entries(es: Seq<(String, usize)>) -> bool {
    &&& uniq_keys(table_view(es))
    &&& forall|i: int| 0 <= i < es.len() ==> (#[trigger] table_view(es)[i]).1 >= 1
    &&& total_of(table_view(es)) <= usize::MAX
}

impl View for TermFreq {
    type V = Seq<(Seq<char>, nat)>;

    closed spec fn view(&self) -> Seq<(Seq<char>, nat)> {
        table_view(self.entries@)
    }
}

impl TermFreq {
    /// Distinct keys, positive counts.
    pub open spec fn wf(&self) -> bool {
        &&& uniq_keys(self@)
        &&& forall|i: int| 0 <= i < self@.len() ==> (#[trigger] self@[i]).1 >= 1
    }

    pub fn new() -> (t: Self)
        ensures
            t.wf(),
            t@ == Seq::<(Seq<char>, nat)>::empty(),
    {
        let t = TermFreq { entries: Vec::new() };
        proof {
            assert(t@ =~= Seq::<(Seq<char>, nat)>::empty());
        }
        t
    }

    pub fn len(&self) -> (n: usize)
        ensures
            n == self@.len(),
    {
        self.entries.len()
    }

    pub fn key_at(&self, i: usize) -> (k: &String)
        requires
            i < self@.len(),
        ensures
            k@ == self@[i as int].0,
    {
        &self.entries[i].0
    }

    pub fn count_at(&self, i: usize) -> (c: usize)
        requires
            i < self@.len(),
        ensures
            c == self@[i as int].1,
    {
        self.entries[i].1
    }

    /// An equal table: same keys, same counts, same order.
    pub fn duplicate(&self) -> (t: TermFreq)
        ensures
            t@ == self@,
    {
        let mut v: Vec<(String, usize)> = Vec::new();
        let mut i: usize = 0;
        while i < self.entries.len()
            invariant
                i <= self.entries@.len(),
                v@.len() == i,
                forall|j: int|
                    0 <= j < i ==> (#[trigger] v@[j]).0@ == self.entries@[j].0@ && v@[j].1
                        == self.entries@[j].1,
            decreases self.entries@.len() - i,
        {
            v.push((self.entries[i].0.clone(), self.entries[i].1));
            i = i + 1;
        }
        let t = TermFreq { entries: v };
        proof {
            assert(t@ =~= self@);
        }
        t
    }

    /// The position of `t`'s entry, or the length when `t` is unknown.
    fn position_of(&self, t: &String) -> (i: usize)
        ensures
            i <= self@.len(),
            forall|j: int| 0 <= j < i ==> (#[trigger] self@[j]).0 != t@,
            i < self@.len() ==> self@[i as int].0 == t@,
            i == self@.len() ==> !has_key(self@, t@),
    {
        let mut i: usize = 0;
        loop
            invariant
                i <= self@.len(),
                forall|j: int| 0 <= j < i ==> (#[trigger] self@[j]).0 != t@,
            ensures
                i <= self@.len(),
                forall|j: int| 0 <= j < i ==> (#[trigger] self@[j]).0 != t@,
                i < self@.len() ==> self@[i as int].0 == t@,
                i == self@.len() ==> !has_key(self@, t@),
            decreases self@.len() - i,
        {
            if i >= self.entries.len() {
                proof {
                    if has_key(self@, t@) {
                        let w = key_index(self@, t@);
                        assert(self@[w].0 == t@);
                    }
                }
                break;
            }
            if self.entries[i].0 == *t {
                break;
            }
            i = i + 1;
        }
        i
    }

    /// The count stored for `t`, or 0 when `t` is unknown.
    pub fn get(&self, t: &String) -> (c: usize)
        requires
            self.wf(),
        ensures
            c == count_of(self@, t@),
    {
        let i = self.position_of(t);
        if i < self.entries.len() {
            proof {
                lemma_count_at(self@, i as int);
            }
            self.entries[i].1
        } else {
            0
        }
    }

    /// The sum of all counts.
    pub fn total(&self) -> (s: usize)
        requires
            total_of(self@) <= usize::MAX,
        ensures
            s == total_of(self@),
    {
        let mut s: usize = 0;
        let mut i: usize = 0;
        proof {
            assert(self@.take(0) =~= Seq::<(Seq<char>, nat)>::empty());
        }
        while i < self.entries.len()
            invariant
                i <= self@.len(),
                total_of(self@) <= usize::MAX,
                s == total_of(self@.take(i as int)),
            decreases self@.len() - i,
        {
            proof {
                lemma_total_take_step(self@, i as int);
                lemma_total_take_le(self@, i as int + 1);
                lemma_total_nonneg(self@.take(i as int));
            }
            s = s + self.entries[i].1;
            i = i + 1;
        }
        proof {
            assert(self@.take(self@.len() as int) =~= self@);
        }
        s
    }

    /// Count one more occurrence of `t`, inserting it at count 1 when new.
    pub fn increment(&mut self, t: &String)
        requires
            old(self).wf(),
            count_of(old(self)@, t@) < usize::MAX,
        ensures
            final(self).wf(),
            count_of(final(self)@, t@) == count_of(old(self)@, t@) + 1,
            forall|k: Seq<char>|
                k != t@ ==> #[trigger] count_of(final(self)@, k) == count_of(old(self)@, k),
            forall|k: Seq<char>|
                #[trigger] has_key(final(self)@, k) <==> has_key(old(self)@, k) || k == t@,
            total_of(final(self)@) == total_of(old(self)@) + 1,
    {
        let ghost es = self@;
        let i = self.position_of(t);
        if i < self.entries.len() {
            proof {
                lemma_count_at(es, i as int);
            }
            let c = self.entries[i].1;
            let k = self.entries[i].0.clone();
            self.entries.set(i, (k, c + 1));
            proof {
                assert(self@ =~= es.update(i as int, (t@, (c + 1) as nat)));
                lemma_total_update(es, i as int, (t@, (c + 1) as nat));
                assert forall|k2: Seq<char>|
                    #[trigger] has_key(self@, k2) <==> has_key(es, k2) || k2 == t@ by {
                    if has_key(es, k2) {
                        let w = key_index(es, k2);
                        assert(self@[w].0 == k2);
                    }
                    if k2 == t@ {
                        assert(self@[i as int].0 == k2);
                    }
                    if has_key(self@, k2) {
                        let w = key_index(self@, k2);
                        assert(es[w].0 == k2);
                    }
                }
                lemma_count_at(self@, i as int);
                assert forall|k2: Seq<char>|
                    k2 != t@ implies #[trigger] count_of(self@, k2) == count_of(es, k2) by {
                    if has_key(es, k2) {
                        let w = key_index(es, k2);
                        assert(es[w].0 == k2);
                        assert(w != i);
                        lemma_count_at(es, w);
                        assert(self@[w].0 == k2);
                        lemma_count_at(self@, w);
                    }
                }
            }
        } else {
            self.entries.push((t.clone(), 1));
            proof {
                assert(self@ =~= es.push((t@, 1nat)));
                assert(self@.drop_last() =~= es);
                assert forall|i2: int, j2: int|
                    0 <= i2 < j2 < self@.len() implies (#[trigger] self@[i2]).0 != (
                #[trigger] self@[j2]).0 by {
                    if j2 < es.len() {
                    } else {
                        assert(self@[j2].0 == t@);
                        assert(es[i2].0 != t@);
                    }
                }
                lemma_count_at(self@, es.len() as int);
                assert forall|k2: Seq<char>|
                    #[trigger] has_key(self@, k2) <==> has_key(es, k2) || k2 == t@ by {
                    if has_key(es, k2) {
                        let w = key_index(es, k2);
                        assert(self@[w].0 == k2);
                    }
                    if has_key(self@, k2) && k2 != t@ {
                        let w = key_index(self@, k2);
                        assert(w < es.len());
                        assert(es[w].0 == k2);
                    }
                }
                assert forall|k2: Seq<char>|
                    k2 != t@ implies #[trigger] count_of(self@, k2) == count_of(es, k2) by {
                    if has_key(es, k2) {
                        let w = key_index(es, k2);
                        assert(es[w].0 == k2);
                        lemma_count_at(es, w);
                        assert(self@[w].0 == k2);
                        lemma_count_at(self@, w);
                    }
                }
            }
        }
    }
}

impl TermFreq {
    /// Rebuild a table from raw `(token, count)` pairs, as a deserializer
    /// hands them over: accepted exactly when the pairs form a valid table,
    /// and then held verbatim, in the given order.
    pub fn from_entries(entries: Vec<(String, usize)>) -> (r: Option<TermFreq>)
        ensures
            r is Some <==> valid_entries(entries@),
            r matches Some(t) ==> t@ == table_view(entries@) && t.wf() && total_of(t@)
                <= usize::MAX,
    {
        let ghost ev = table_view(entries@);
        let n = entries.len();
        let mut s: usize = 0;
        let mut i: usize = 0;
        proof {
            assert(ev.take(0) =~= Seq::<(Seq<char>, nat)>::empty());
        }
        while i < n
            invariant
                n == entries@.len(),
                i <= n,
                ev == table_view(entries@),
                forall|x: int| 0 <= x < i ==> (#[trigger] ev[x]).1 >= 1,
                s == total_of(ev.take(i as int)),
            decreases n - i,
        {
            let c = entries[i].1;
            proof {
                lemma_total_take_step(ev, i as int);
            }
            if c == 0 {
                return None;
            }
            if c > usize::MAX - s {
                proof {
                    lemma_total_take_le(ev, i as int + 1);
                }
                return None;
            }
            s = s + c;
            i = i + 1;
        }
        proof {
            assert(ev.take(ev.len() as int) =~= ev);
        }
        let mut i: usize = 0;
        while i < n
            invariant
                n == entries@.len(),
                i <= n,
                ev == table_view(entries@),
                forall|x: int, y: int|
                    0 <= x < y < n && x < i ==> (#[trigger] ev[x]).0 != (#[trigger] ev[y]).0,
            decreases n - i,
        {
            let mut j: usize = i + 1;
            while j < n
                invariant
                    n == entries@.len(),
                    i < n,
                    i < j <= n,
                    ev == table_view(entries@),
                    forall|y: int| i < y < j ==> (#[trigger] ev[y]).0 != ev[i as int].0,
                decreases n - j,
            {
                if entries[i].0 == entries[j].0 {
                    proof {
                        assert(ev[i as int].0 == entries@[i as int].0@);
                        assert(ev[j as int].0 == entries@[j as int].0@);
                        assert(!uniq_keys(ev));
                    }
                    return None;
                }
                j = j + 1;
            }
            i = i + 1;
        }
        Some(TermFreq { entries })
    }
}

/// The exact term-frequency fraction for `t` in the document table `d`:
/// occurrences of `t` over the total occurrence count, or `0 / 1` for an
/// empty document.
pub fn compute_tf(t: &String, d: &TermFreq) -> (r: (usize, usize))
    requires
        d.wf(),
        total_of(d@) <= usize::MAX,
    ensures
        r.0 == spec_tf(d@, t@).0,
        r.1 == spec_tf(d@, t@).1,
        r.0 <= r.1,
        r.1 >= 1,
{
    let a = d.get(t);
    let b = d.total();
    proof {
        lemma_count_le_total(d@, t@);
    }
    if b == 0 {
        (0, 1)
    } else {
        (a, b)
    }
}

/// The exact fraction whose base-10 logarithm is the inverse document
/// frequency of `t`: the document count `n` over the document frequency of
/// `t`, floored at 1 so unseen tokens weigh as much as the rarest ones.
pub fn compute_idf(t: &String, n: usize, df: &DocFreq) -> (r: (usize, usize))
    requires
        df.wf(),
    ensures
        r.0 == spec_idf(df@, n as int, t@).0,
        r.1 == spec_idf(df@, n as int, t@).1,
        r.1 >= 1,
{
    let m = df.get(t);
    if m == 0 {
        (n, 1)
    } else {
        (n, m)
    }
}

/// How many documents of `docs` contain the token `k`.
pub open spec fn df_of(docs: Seq<(String, TermFreq)>, k: Seq<char>) -> int
    decreases docs.len(),
{
    if docs.len() == 0 {
        0
    } else {
        df_of(docs.drop_last(), k) + if has_key(docs.last().1@, k) {
            1int
        } else {
            0int
        }
    }
}

/// The document names of `docs` are pairwise distinct.
pub open spec fn distinct_names(docs: Seq<(String, TermFreq)>) -> bool {
    forall|i: int, j: int|
        0 <= i < j < docs.len() ==> (#[trigger] docs[i]).0@ != (#[trigger] docs[j]).0@
}

/// Some document of `docs` is named `name`.
pub open spec fn has_doc(docs: Seq<(String, TermFreq)>, name: Seq<char>) -> bool {
    exists|i: int| 0 <= i < docs.len() && (#[trigger] docs[i]).0@ == name
}

/// Law: a document frequency lies between 0 and the number of documents;
/// together with a model's well-formedness this bounds every entry of the
/// document-frequency table by the corpus size.
pub proof fn lemma_df_bounds(docs: Seq<(String, TermFreq)>, k: Seq<char>)
    ensures
        0 <= df_of(docs, k) <= docs.len(),
    decreases docs.len(),
{
    if docs.len() > 0 {
        lemma_df_bounds(docs.drop_last(), k);
    }
}

/// Law: a token has a positive document frequency exactly when some indexed
/// document contains it; with a model's well-formedness, this is the
/// invariant of the document-frequency table.
pub proof fn lemma_df_positive_iff(docs: Seq<(String, TermFreq)>, k: Seq<char>)
    ensures
        df_of(docs, k) >= 1 <==> exists|i: int|
            0 <= i < docs.len() && has_key((#[trigger] docs[i]).1@, k),
    decreases docs.len(),
{
    lemma_df_bounds(docs, k);
    if docs.len() > 0 {
        lemma_df_positive_iff(docs.drop_last(), k);
        lemma_df_bounds(docs.drop_last(), k);
        if has_key(docs.last().1@, k) {
            assert(docs[docs.len() - 1] == docs.last());
        } else {
            if df_of(docs, k) >= 1 {
                let w = choose|i: int|
                    0 <= i < docs.drop_last().len() && has_key(
                        (#[trigger] docs.drop_last()[i]).1@,
                        k,
                    );
                assert(docs[w] == docs.drop_last()[w]);
            }
            if exists|i: int| 0 <= i < docs.len() && has_key((#[trigger] docs[i]).1@, k) {
                let w = choose|i: int| 0 <= i < docs.len() && has_key((#[trigger] docs[i]).1@, k);
                assert(w < docs.len() - 1);
                assert(docs.drop_last()[w] == docs[w]);
            }
        }
    }
}

proof fn lemma_df_push(docs: Seq<(String, TermFreq)>, d: (String, TermFreq), k: Seq<char>)
    ensures
        df_of(docs.push(d), k) == df_of(docs, k) + if has_key(d.1@, k) {
            1int
        } else {
            0int
        },
{
    assert(docs.push(d).drop_last() =~= docs);
    assert(docs.push(d).last() == d);
}

/// Number of occurrences of `k` in the token sequence `toks`.
pub open spec fn occurrences(toks: Seq<Seq<char>>, k: Seq<char>) -> int
    decreases toks.len(),
{
    if toks.len() == 0 {
        0
    } else {
        occurrences(toks.drop_last(), k) + if toks.last() == k {
            1int
        } else {
            0int
        }
    }
}

/// The index: one term-frequency table per document, plus the shared
/// document-frequency table.
pub struct Model {
    /// Term frequencies per document, in insertion order.
    pub tfpd: TermFreqPerDoc,
    /// How many documents each term occurs in.
    pub df: DocFreq,
}

impl Model {
    /// Document names are distinct, every table is well formed with a total
    /// that fits a `usize`, and the document-frequency table counts exactly
    /// the documents containing each token.
    pub open spec fn wf(&self) -> bool {
        &&& self.df.wf()
        &&& forall|i: int, j: int|
            0 <= i < j < self.tfpd@.len() ==> (#[trigger] self.tfpd@[i]).0@ != (
            #[trigger] self.tfpd@[j]).0@
        &&& forall|i: int| 0 <= i < self.tfpd@.len() ==> (#[trigger] self.tfpd@[i]).1.wf()
        &&& forall|i: int|
            0 <= i < self.tfpd@.len() ==> total_of((#[trigger] self.tfpd@[i]).1@) <= usize::MAX
        &&& forall|k: Seq<char>| #[trigger] count_of(self.df@, k) == df_of(self.tfpd@, k)
    }

    pub fn new() -> (m: Model)
        ensures
            m.wf(),
            m.tfpd@.len() == 0,
            m.df@.len() == 0,
    {
        let m = Model { tfpd: Vec::new(), df: TermFreq::new() };
        proof {
            assert forall|k: Seq<char>| #[trigger] count_of(m.df@, k) == df_of(m.tfpd@, k) by {
                assert(!has_key(m.df@, k));
            }
        }
        m
    }

    /// Feed one document: lex its content, record its term-frequency table,
    /// and raise the document frequency of each of its distinct tokens by
    /// exactly one.
    pub fn add_document(&mut self, name: String, content: &[char])
        requires
            old(self).wf(),
            !has_doc(old(self).tfpd@, name@),
            old(self).tfpd@.len() < usize::MAX,
        ensures
            final(self).wf(),
            final(self).tfpd@.len() == old(self).tfpd@.len() + 1,
            forall|i: int|
                0 <= i < old(self).tfpd@.len() ==> #[trigger] final(self).tfpd@[i] == old(
                    self,
                ).tfpd@[i],
            final(self).tfpd@.last().0@ == name@,
            forall|k: Seq<char>|
                #[trigger] count_of(final(self).tfpd@.last().1@, k) == occurrences(
                    crate::lexer::spec_tokens(content@),
                    k,
                ),
            total_of(final(self).tfpd@.last().1@) == crate::lexer::spec_tokens(content@).len(),
    {
        let ghost toksv = crate::lexer::spec_tokens(content@);
        let tokens = crate::lexer::tokenize(content);
        let mut tf = TermFreq::new();
        let mut i: usize = 0;
        proof {
            assert(toksv.take(0) =~= Seq::<Seq<char>>::empty());
        }
        while i < tokens.len()
            invariant
                i <= tokens@.len(),
                tokens@.len() == toksv.len(),
                forall|j: int| 0 <= j < tokens@.len() ==> tokens@[j]@ == toksv[j],
                tf.wf(),
                total_of(tf@) == i,
                forall|k: Seq<char>|
                    #[trigger] count_of(tf@, k) == occurrences(toksv.take(i as int), k),
            decreases tokens@.len() - i,
        {
            let ghost before = tf@;
            proof {
                lemma_count_le_total(tf@, tokens@[i as int]@);
            }
            tf.increment(&tokens[i]);
            proof {
                assert(toksv.take(i + 1).drop_last() =~= toksv.take(i as int));
                assert(toksv.take(i + 1).last() == toksv[i as int]);
                assert forall|k: Seq<char>|
                    #[trigger] count_of(tf@, k) == occurrences(toksv.take(i + 1), k) by {
                    if k == toksv[i as int] {
                    } else {
                        assert(count_of(tf@, k) == count_of(before, k));
                    }
                }
            }
            i = i + 1;
        }
        proof {
            assert(toksv.take(toksv.len() as int) =~= toksv);
        }
        self.insert_table(name, tf);
    }

    /// Build an index from whole documents, lexing and accumulating each in
    /// turn: accepted exactly when the document names are distinct.
    pub fn build_index(documents: &Vec<(String, Vec<char>)>) -> (r: Option<Model>)
        requires
            documents@.len() < usize::MAX,
        ensures
            r is Some <==> (forall|i: int, j: int|
                0 <= i < j < documents@.len() ==> (#[trigger] documents@[i]).0@ != (
                #[trigger] documents@[j]).0@),
            r matches Some(m) ==> {
                &&& m.wf()
                &&& m.tfpd@.len() == documents@.len()
                &&& forall|i: int|
                    0 <= i < documents@.len() ==> (#[trigger] m.tfpd@[i]).0@ == documents@[i].0@
                &&& forall|i: int, k: Seq<char>|
                    #![trigger count_of(m.tfpd@[i].1@, k)]
                    0 <= i < documents@.len() ==> count_of(m.tfpd@[i].1@, k) == occurrences(
                        crate::lexer::spec_tokens(documents@[i].1@),
                        k,
                    )
            },
    {
        let mut m = Model::new();
        let mut idx: usize = 0;
        while idx < documents.len()
            invariant
                documents@.len() < usize::MAX,
                m.wf(),
                idx <= documents@.len(),
                m.tfpd@.len() == idx,
                forall|i: int| 0 <= i < idx ==> (#[trigger] m.tfpd@[i]).0@ == documents@[i].0@,
                forall|i: int, k: Seq<char>|
                    #![trigger count_of(m.tfpd@[i].1@, k)]
                    0 <= i < idx ==> count_of(m.tfpd@[i].1@, k) == occurrences(
                        crate::lexer::spec_tokens(documents@[i].1@),
                        k,
                    ),
            decreases documents@.len() - idx,
        {
            let name = documents[idx].0.clone();
            if m.find_doc(&name) {
                proof {
                    let w = choose|w: int|
                        0 <= w < m.tfpd@.len() && (#[trigger] m.tfpd@[w]).0@ == name@;
                    assert(documents@[w].0@ == m.tfpd@[w].0@);
                    assert(documents@[w].0@ == documents@[idx as int].0@);
                    assert(0 <= w < idx < documents@.len());
                }
                return None;
            }
            m.add_document(name, documents[idx].1.as_slice());
            proof {
                assert(m.tfpd@.last() == m.tfpd@[idx as int]);
            }
            idx = idx + 1;
        }
        proof {
            assert forall|i: int, j: int|
                0 <= i < j < documents@.len() implies (#[trigger] documents@[i]).0@ != (
            #[trigger] documents@[j]).0@ by {
                assert(m.tfpd@[i].0@ == documents@[i].0@);
                assert(m.tfpd@[j].0@ == documents@[j].0@);
            }
        }
        Some(m)
    }

    /// Record a prebuilt document table under `name`, raising the document
    /// frequency of each of its distinct keys by one.
    fn insert_table(&mut self, name: String, tf: TermFreq)
        requires
            old(self).wf(),
            !has_doc(old(self).tfpd@, name@),
            old(self).tfpd@.len() < usize::MAX,
            tf.wf(),
            total_of(tf@) <= usize::MAX,
        ensures
            final(self).wf(),
            final(self).tfpd@ == old(self).tfpd@.push((name, tf)),
    {
        let mut j: usize = 0;
        proof {
            assert(tf@.take(0) =~= Seq::<(Seq<char>, nat)>::empty());
        }
        while j < tf.len()
            invariant
                j <= tf@.len(),
                tf.wf(),
                old(self).wf(),
                old(self).tfpd@.len() < usize::MAX,
                self.tfpd == old(self).tfpd,
                self.df.wf(),
                forall|k: Seq<char>|
                    #[trigger] count_of(self.df@, k) == count_of(old(self).df@, k) + if has_key(
                        tf@.take(j as int),
                        k,
                    ) {
                        1int
                    } else {
                        0int
                    },
            decreases tf@.len() - j,
        {
            let ghost kj = tf@[j as int].0;
            let ghost dfbefore = self.df@;
            proof {
                assert forall|x: int| 0 <= x < j implies (#[trigger] tf@.take(j as int)[x]).0 != kj
                    by {
                    assert(tf@.take(j as int)[x] == tf@[x]);
                }
                if has_key(tf@.take(j as int), kj) {
                    let w = key_index(tf@.take(j as int), kj);
                    assert(tf@.take(j as int)[w].0 == kj);
                }
                lemma_df_bounds(old(self).tfpd@, kj);
                assert(!has_key(tf@.take(j as int), kj));
                assert(count_of(self.df@, kj) == count_of(old(self).df@, kj));
                assert(count_of(old(self).df@, kj) == df_of(old(self).tfpd@, kj));
                assert(count_of(self.df@, kj) < usize::MAX);
            }
            let kref = tf.key_at(j);
            self.df.increment(kref);
            proof {
                assert(tf@.take(j + 1).drop_last() =~= tf@.take(j as int));
                assert(tf@.take(j + 1)[j as int] == tf@[j as int]);
                assert forall|k: Seq<char>|
                    #[trigger] count_of(self.df@, k) == count_of(old(self).df@, k) + if has_key(
                        tf@.take(j + 1),
                        k,
                    ) {
                        1int
                    } else {
                        0int
                    } by {
                    if k == kj {
                        assert(has_key(tf@.take(j + 1), k));
                        assert(count_of(self.df@, k) == count_of(dfbefore, k) + 1);
                    } else {
                        assert(count_of(self.df@, k) == count_of(dfbefore, k));
                        if has_key(tf@.take(j + 1), k) {
                            let w = key_index(tf@.take(j + 1), k);
                            assert(tf@.take(j + 1)[w].0 == k);
                            assert(w != j);
                            assert(tf@.take(j as int)[w].0 == k);
                            assert(has_key(tf@.take(j as int), k));
                        }
                        if has_key(tf@.take(j as int), k) {
                            let w = key_index(tf@.take(j as int), k);
                            assert(tf@.take(j as int)[w].0 == k);
                            assert(tf@.take(j + 1)[w].0 == k);
                            assert(has_key(tf@.take(j + 1), k));
                        }
                    }
                }
            }
            j = j + 1;
        }
        proof {
            assert(tf@.take(tf@.len() as int) =~= tf@);
        }
        let ghost newdoc_tf = tf@;
        self.tfpd.push((name, tf));
        proof {
            let docs = old(self).tfpd@;
            let newdocs = self.tfpd@;
            assert(newdocs == docs.push(newdocs.last()));
            assert forall|i2: int, j2: int|
                0 <= i2 < j2 < newdocs.len() implies (#[trigger] newdocs[i2]).0@ != (
            #[trigger] newdocs[j2]).0@ by {
                if j2 == newdocs.len() - 1 {
                    assert(newdocs[j2].0@ == name@);
                    assert(!(0 <= i2 < docs.len() && docs[i2].0@ == name@));
                }
            }
            assert forall|k: Seq<char>| #[trigger] count_of(self.df@, k) == df_of(newdocs, k) by {
                lemma_df_push(docs, newdocs.last(), k);
                assert(has_key(tf@.take(tf@.len() as int), k) == has_key(newdoc_tf, k));
            }
        }
    }
    /// Whether a document named `name` is already indexed.
    fn find_doc(&self, name: &String) -> (b: bool)
        ensures
            b == has_doc(self.tfpd@, name@),
    {
        let mut i: usize = 0;
        loop
            invariant
                i <= self.tfpd@.len(),
                forall|j: int| 0 <= j < i ==> (#[trigger] self.tfpd@[j]).0@ != name@,
            ensures
                i <= self.tfpd@.len(),
                forall|j: int| 0 <= j < i ==> (#[trigger] self.tfpd@[j]).0@ != name@,
                i < self.tfpd@.len() ==> self.tfpd@[i as int].0@ == name@,
                i == self.tfpd@.len() ==> !has_doc(self.tfpd@, name@),
            decreases self.tfpd@.len() - i,
        {
            if i >= self.tfpd.len() {
                proof {
                    if has_doc(self.tfpd@, name@) {
                        let w = choose|w: int|
                            0 <= w < self.tfpd@.len() && (#[trigger] self.tfpd@[w]).0@ == name@;
                        assert(self.tfpd@[w].0@ == name@);
                    }
                }
                break;
            }
            if self.tfpd[i].0 == *name {
                break;
            }
            i = i + 1;
        }
        i < self.tfpd.len()
    }

    /// Rebuild an index from per-document tables, as a deserializer hands
    /// them over: the tables are kept in order, key for key and count for
    /// count, and the document-frequency table is recounted from them, so a
    /// well-formed index comes back exactly when the document names are
    /// distinct.
    pub fn from_tables(docs: &Vec<(String, TermFreq)>) -> (r: Option<Model>)
        requires
            forall|i: int| 0 <= i < docs@.len() ==> (#[trigger] docs@[i]).1.wf(),
            forall|i: int| 0 <= i < docs@.len() ==> total_of((#[trigger] docs@[i]).1@) <= usize::MAX,
            docs@.len() < usize::MAX,
        ensures
            r is Some <==> distinct_names(docs@),
            r matches Some(m) ==> {
                &&& m.wf()
                &&& m.tfpd@.len() == docs@.len()
                &&& forall|i: int|
                    0 <= i < docs@.len() ==> (#[trigger] m.tfpd@[i]).0@ == docs@[i].0@
                        && m.tfpd@[i].1@ == docs@[i].1@
            },
    {
        let mut m = Model::new();
        let mut k: usize = 0;
        while k < docs.len()
            invariant
                forall|i: int| 0 <= i < docs@.len() ==> (#[trigger] docs@[i]).1.wf(),
                forall|i: int|
                    0 <= i < docs@.len() ==> total_of((#[trigger] docs@[i]).1@) <= usize::MAX,
                docs@.len() < usize::MAX,
                m.wf(),
                k <= docs@.len(),
                m.tfpd@.len() == k,
                forall|i: int|
                    0 <= i < k ==> (#[trigger] m.tfpd@[i]).0@ == docs@[i].0@ && m.tfpd@[i].1@
                        == docs@[i].1@,
            decreases docs@.len() - k,
        {
            let name = docs[k].0.clone();
            if m.find_doc(&name) {
                proof {
                    let w = choose|w: int|
                        0 <= w < m.tfpd@.len() && (#[trigger] m.tfpd@[w]).0@ == name@;
                    assert(docs@[w].0@ == m.tfpd@[w].0@);
                    assert(docs@[w].0@ == docs@[k as int].0@);
                    assert(!distinct_names(docs@));
                }
                return None;
            }
            let tf = docs[k].1.duplicate();
            m.insert_table(name, tf);
            k = k + 1;
        }
        proof {
            assert forall|i: int, j: int|
                0 <= i < j < docs@.len() implies (#[trigger] docs@[i]).0@ != (
            #[trigger] docs@[j]).0@ by {
                assert(m.tfpd@[i].0@ == docs@[i].0@);
                assert(m.tfpd@[j].0@ == docs@[j].0@);
            }
        }
        Some(m)
    }
}

impl Default for Model {
    /// An empty index.
    fn default() -> (m: Model)
        ensures
            m.wf(),
            m.tfpd@.len() == 0,
            m.df@.len() == 0,
    {
        Model::new()
    }
}

/// The exact score components of every document against a query: for
/// document `i` and query token `j`, the term-frequency fraction and the
/// idf fraction whose base-10 logarithm weighs that token.  Documents keep
/// the index order, one result per document whatever its score; the caller
/// forms `sum(tf * log10(idf))` per document and sorts by it descending.
pub fn search_terms(model: &Model, query: &[char]) -> (res: Vec<
    (String, Vec<((usize, usize), (usize, usize))>),
>)
    requires
        model.wf(),
    ensures
        res@.len() == model.tfpd@.len(),
        forall|i: int| 0 <= i < res@.len() ==> (#[trigger] res@[i]).0@ == model.tfpd@[i].0@,
        forall|i: int|
            0 <= i < res@.len() ==> (#[trigger] res@[i]).1@.len() == crate::lexer::spec_tokens(
                query@,
            ).len(),
        forall|i: int, j: int|
            #![trigger res@[i].1@[j]]
            0 <= i < res@.len() && 0 <= j < crate::lexer::spec_tokens(query@).len() ==> {
                &&& res@[i].1@[j].0.0 == spec_tf(
                    model.tfpd@[i].1@,
                    crate::lexer::spec_tokens(query@)[j],
                ).0
                &&& res@[i].1@[j].0.1 == spec_tf(
                    model.tfpd@[i].1@,
                    crate::lexer::spec_tokens(query@)[j],
                ).1
                &&& res@[i].1@[j].1.0 == spec_idf(
                    model.df@,
                    model.tfpd@.len() as int,
                    crate::lexer::spec_tokens(query@)[j],
                ).0
                &&& res@[i].1@[j].1.1 == spec_idf(
                    model.df@,
                    model.tfpd@.len() as int,
                    crate::lexer::spec_tokens(query@)[j],
                ).1
            },
{
    let ghost q = crate::lexer::spec_tokens(query@);
    let tokens = crate::lexer::tokenize(query);
    let n = model.tfpd.len();
    let mut res: Vec<(String, Vec<((usize, usize), (usize, usize))>)> = Vec::new();
    let mut i: usize = 0;
    while i < model.tfpd.len()
        invariant
            model.wf(),
            n == model.tfpd@.len(),
            tokens@.len() == q.len(),
            forall|y: int| 0 <= y < tokens@.len() ==> tokens@[y]@ == q[y],
            i <= model.tfpd@.len(),
            res@.len() == i,
            forall|x: int| 0 <= x < i ==> (#[trigger] res@[x]).0@ == model.tfpd@[x].0@,
            forall|x: int| 0 <= x < i ==> (#[trigger] res@[x]).1@.len() == q.len(),
            forall|x: int, y: int|
                #![trigger res@[x].1@[y]]
                0 <= x < i && 0 <= y < q.len() ==> {
                    &&& res@[x].1@[y].0.0 == spec_tf(model.tfpd@[x].1@, q[y]).0
                    &&& res@[x].1@[y].0.1 == spec_tf(model.tfpd@[x].1@, q[y]).1
                    &&& res@[x].1@[y].1.0 == spec_idf(model.df@, n as int, q[y]).0
                    &&& res@[x].1@[y].1.1 == spec_idf(model.df@, n as int, q[y]).1
                },
        decreases model.tfpd@.len() - i,
    {
        let mut terms: Vec<((usize, usize), (usize, usize))> = Vec::new();
        let mut j: usize = 0;
        while j < tokens.len()
            invariant
                model.wf(),
                n == model.tfpd@.len(),
                i < model.tfpd@.len(),
                tokens@.len() == q.len(),
                forall|y: int| 0 <= y < tokens@.len() ==> tokens@[y]@ == q[y],
                j <= tokens@.len(),
                terms@.len() == j,
                forall|y: int|
                    #![trigger terms@[y]]
                    0 <= y < j ==> {
                        &&& terms@[y].0.0 == spec_tf(model.tfpd@[i as int].1@, q[y]).0
                        &&& terms@[y].0.1 == spec_tf(model.tfpd@[i as int].1@, q[y]).1
                        &&& terms@[y].1.0 == spec_idf(model.df@, n as int, q[y]).0
                        &&& terms@[y].1.1 == spec_idf(model.df@, n as int, q[y]).1
                    },
            decreases tokens@.len() - j,
        {
            let tfr = compute_tf(&tokens[j], &model.tfpd[i].1);
            let idfr = compute_idf(&tokens[j], n, &model.df);
            terms.push((tfr, idfr));
            j = j + 1;
        }
        res.push((model.tfpd[i].0.clone(), terms));
        i = i + 1;
    }
    res
}

/// The sum, over the keys listed in `ks`, of the term-frequency numerators
/// taken from the table `es`.
pub open spec fn sum_tf_nums(ks: Seq<(Seq<char>, nat)>, es: Seq<(Seq<char>, nat)>) -> int
    decreases ks.len(),
{
    if ks.len() == 0 {
        0
    } else {
        sum_tf_nums(ks.drop_last(), es) + spec_tf(es, ks.last().0).0
    }
}

proof fn lemma_sum_take(es: Seq<(Seq<char>, nat)>, m: int)
    requires
        uniq_keys(es),
        total_of(es) != 0,
        0 <= m <= es.len(),
    ensures
        sum_tf_nums(es.take(m), es) == total_of(es.take(m)),
    decreases m,
{
    if m > 0 {
        lemma_sum_take(es, m - 1);
        assert(es.take(m).drop_last() =~= es.take(m - 1));
        assert(es.take(m).last() == es[m - 1]);
        lemma_count_at(es, m - 1);
        lemma_total_take_step(es, m - 1);
    }
}

/// Law: term frequencies form a distribution.  Over a well-formed document
/// table, the `compute_tf` numerators of the table's distinct tokens sum to
/// the shared denominator, so the term frequencies themselves sum to one
/// (and an empty document contributes nothing at all).
pub proof fn lemma_tf_distribution(d: TermFreq)
    requires
        d.wf(),
    ensures
        sum_tf_nums(d@, d@) == total_of(d@),
{
    if total_of(d@) == 0 {
        if d@.len() > 0 {
            lemma_total_nonneg(d@.drop_last());
            assert(d@.last().1 >= 1);
            assert(false);
        }
    } else {
        lemma_sum_take(d@, d@.len() as int);
        assert(d@.take(d@.len() as int) =~= d@);
    }
}

/// Law: well-formed scores are never negative.  Every term-frequency
/// fraction lies between 0 and 1, and as soon as one document is indexed
/// every idf fraction is at least 1, so its logarithm — and with it each
/// summed score — is nonnegative.
pub proof fn lemma_score_components_nonnegative(m: Model, k: Seq<char>, i: int)
    requires
        m.wf(),
        0 <= i < m.tfpd@.len(),
    ensures
        0 <= spec_tf(m.tfpd@[i].1@, k).0 <= spec_tf(m.tfpd@[i].1@, k).1,
        spec_idf(m.df@, m.tfpd@.len() as int, k).0 >= spec_idf(
            m.df@,
            m.tfpd@.len() as int,
            k,
        ).1 >= 1,
{
    lemma_count_le_total(m.tfpd@[i].1@, k);
    lemma_df_bounds(m.tfpd@, k);
}

/// Law: rarer terms weigh more.  With the corpus size `n` fixed, a token
/// with a strictly smaller document frequency has a strictly larger idf
/// fraction `n / df`; since the base-10 logarithm is strictly increasing,
/// its inverse document frequency is strictly larger as well.  Stated by
/// cross-multiplying the two exact fractions.
pub proof fn lemma_idf_monotone(df: DocFreq, n: int, a: Seq<char>, b: Seq<char>)
    requires
        df.wf(),
        has_key(df@, a),
        has_key(df@, b),
        count_of(df@, a) < count_of(df@, b),
        count_of(df@, b) <= n,
    ensures
        spec_idf(df@, n, a).0 * spec_idf(df@, n, b).1 > spec_idf(df@, n, b).0 * spec_idf(
            df@,
            n,
            a,
        ).1,
{
    let ia = key_index(df@, a);
    assert(0 <= ia < df@.len() && df@[ia].0 == a);
    assert(df@[ia].1 >= 1);
    let ca = count_of(df@, a) as int;
    let cb = count_of(df@, b) as int;
    assert(ca >= 1);
    assert(n * cb > n * ca) by (nonlinear_arith)
        requires
            1 <= ca,
            ca < cb,
            cb <= n,
    ;
}

} // verus!
