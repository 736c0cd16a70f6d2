//! The inverted index: the build-side accumulator (`IndexWriter`), the
//! query-side read-only structure (`Index`), and the postings map from
//! normalized terms to the identifiers of the documents containing them.

use vstd::prelude::*;

use crate::analysis::{dedup_strings, AnalyzedDocument};
use crate::text::{lower_of, lowercase, unicode_word_list, unicode_words_of};

verus! {

/// An indexed document: its content, kept verbatim.
#[derive(Debug, PartialEq)]
pub struct Document {
    pub content: String,
}

impl View for Document {
    type V = Seq<char>;

    open spec fn view(&self) -> Seq<char> {
        self.content@
    }
}

/// The mathematical shape shared by the build-side and query-side index:
/// the document contents in insertion order, and the postings as a sequence
/// of (term, document-identifier list) pairs.
pub struct IndexModel {
    pub docs: Seq<Seq<char>>,
    pub postings: Seq<(Seq<char>, Seq<usize>)>,
}

impl IndexModel {
    /// The model of a freshly constructed index: nothing in it.
    pub open spec fn empty() -> IndexModel {
        IndexModel { docs: Seq::empty(), postings: Seq::empty() }
    }

    /// Every document identifier in every posting list points at a document.
    pub open spec fn ids_in_range(self) -> bool {
        forall|a: int, j: int|
            0 <= a < self.postings.len() && 0 <= j < self.postings[a].1.len() ==> (
            #[trigger] self.postings[a].1[j]) < self.docs.len()
    }

    /// What the query path relies on.
    pub open spec fn wf(self) -> bool {
        self.ids_in_range()
    }

    /// No term owns two posting lists.
    pub open spec fn terms_distinct(self) -> bool {
        forall|a: int, b: int|
            0 <= a < b < self.postings.len() ==> (#[trigger] self.postings[a].0) != (
            #[trigger] self.postings[b].0)
    }

    /// Each posting list is strictly increasing: identifiers appear in
    /// document insertion order and at most once per term.
    pub open spec fn lists_strictly_increasing(self) -> bool {
        forall|a: int, j: int, k: int|
            0 <= a < self.postings.len() && 0 <= j < k < self.postings[a].1.len() ==> (
            #[trigger] self.postings[a].1[j]) < (#[trigger] self.postings[a].1[k])
    }

    /// The invariant the build side maintains.
    pub open spec fn writer_wf(self) -> bool {
        self.wf() && self.terms_distinct() && self.lists_strictly_increasing()
    }
}

/// Looks a term up in a postings sequence: the list of the first pair
/// carrying the term, if any pair does.
pub open spec fn spec_lookup(ps: Seq<(Seq<char>, Seq<usize>)>, t: Seq<char>) -> Option<Seq<usize>>
    decreases ps.len(),
{
    if ps.len() == 0 {
        None
    } else if ps[0].0 == t {
        Some(ps[0].1)
    } else {
        spec_lookup(ps.skip(1), t)
    }
}

/// Posts one document identifier under one term: appends it to the first
/// pair carrying the term, or appends a new pair at the end.
pub open spec fn spec_insert_posting(
    ps: Seq<(Seq<char>, Seq<usize>)>,
    t: Seq<char>,
    id: usize,
) -> Seq<(Seq<char>, Seq<usize>)>
    decreases ps.len(),
{
    if ps.len() == 0 {
        seq![(t, seq![id])]
    } else if ps[0].0 == t {
        seq![(ps[0].0, ps[0].1.push(id))] + ps.skip(1)
    } else {
        seq![ps[0]] + spec_insert_posting(ps.skip(1), t, id)
    }
}

/// Posts one document identifier under each term of a term sequence, in
/// order.
pub open spec fn spec_add_terms(
    ps: Seq<(Seq<char>, Seq<usize>)>,
    terms: Seq<Seq<char>>,
    id: usize,
) -> Seq<(Seq<char>, Seq<usize>)>
    decreases terms.len(),
{
    if terms.len() == 0 {
        ps
    } else {
        spec_add_terms(spec_insert_posting(ps, terms[0], id), terms.skip(1), id)
    }
}

/// What adding one analyzed document does to an index model: the document
/// gets the next identifier and is appended, and that identifier is posted
/// under each of its terms.
pub open spec fn spec_add(m: IndexModel, terms: Seq<Seq<char>>, content: Seq<char>) -> IndexModel {
    IndexModel {
        docs: m.docs.push(content),
        postings: spec_add_terms(m.postings, terms, m.docs.len() as usize),
    }
}

/// The postings map: term to list of identifiers of the documents that
/// contain the term, one pair per distinct term, in first-posting order.
#[derive(Debug, PartialEq)]
pub struct Postings {
    pub entries: Vec<(String, Vec<usize>)>,
}

/// The model of a raw postings entry sequence.
pub open spec fn entries_model(es: Seq<(String, Vec<usize>)>) -> Seq<(Seq<char>, Seq<usize>)> {
    Seq::new(es.len(), |i: int| (es[i].0@, es[i].1@))
}

/// The model of a document sequence: the contents, in order.
pub open spec fn docs_model(ds: Seq<Document>) -> Seq<Seq<char>> {
    Seq::new(ds.len(), |i: int| ds[i]@)
}

impl View for Postings {
    type V = Seq<(Seq<char>, Seq<usize>)>;

    open spec fn view(&self) -> Seq<(Seq<char>, Seq<usize>)> {
        entries_model(self.entries@)
    }
}

impl Postings {
    /// An empty postings map.
    pub fn new() -> (r: Postings)
        ensures
            r@ == Seq::<(Seq<char>, Seq<usize>)>::empty(),
    {
        let r = Postings { entries: Vec::new() };
        proof {
            assert(r@ =~= Seq::<(Seq<char>, Seq<usize>)>::empty());
        }
        r
    }

    /// The position of the first pair carrying `term`, if any does.
    fn position(&self, term: &String) -> (r: Option<usize>)
        ensures
            match r {
                Some(j) => j < self@.len() && self@[j as int].0 == term@ && forall|k: int|
                    0 <= k < j ==> (#[trigger] self@[k].0) != term@,
                None => forall|k: int| 0 <= k < self@.len() ==> (#[trigger] self@[k].0) != term@,
            },
    {
        let mut j: usize = 0;
        while j < self.entries.len()
            invariant
                j <= self@.len(),
                forall|k: int| 0 <= k < j ==> (#[trigger] self@[k].0) != term@,
            decreases self.entries.len() - j,
        {
            if self.entries[j].0 == *term {
                return Some(j);
            }
            j += 1;
        }
        None
    }

    /// Appends `id` to the list at position `j`.
    fn push_id(&mut self, j: usize, id: usize)
        requires
            j < old(self)@.len(),
        ensures
            final(self)@ == old(self)@.update(
                j as int,
                (old(self)@[j as int].0, old(self)@[j as int].1.push(id)),
            ),
    {
        let ghost before = self@;
        let entry = &mut self.entries[j];
        entry.1.push(id);
        proof {
            assert(self@ =~= before.update(j as int, (before[j as int].0, before[j as int].1.push(id))));
        }
    }

    /// Appends a new pair for a term that has no list yet.
    fn push_entry(&mut self, term: String, id: usize)
        ensures
            final(self)@ == old(self)@.push((term@, seq![id])),
    {
        let ghost before = self@;
        let mut ids: Vec<usize> = Vec::new();
        ids.push(id);
        self.entries.push((term, ids));
        proof {
            assert(self@ =~= before.push((self.entries@.last().0@, seq![id])));
        }
    }

    /// The posting list recorded for `term`, if the term was ever posted.
    pub fn get<'a>(&'a self, term: &str) -> (r: Option<&'a Vec<usize>>)
        ensures
            match r {
                Some(ids) => spec_lookup(self@, term@) == Some(ids@),
                None => spec_lookup(self@, term@) is None,
            },
    {
        let owned = term.to_owned();
        match self.position(&owned) {
            Some(j) => {
                proof {
                    lemma_lookup_at_first(self@, term@, j as int);
                }
                Some(&self.entries[j].1)
            },
            None => {
                proof {
                    lemma_lookup_absent(self@, term@);
                }
                None
            },
        }
    }
}

/// If the first pair carrying `t` sits at position `j`, looking `t` up
/// yields exactly that pair's list.
proof fn lemma_lookup_at_first(ps: Seq<(Seq<char>, Seq<usize>)>, t: Seq<char>, j: int)
    requires
        0 <= j < ps.len(),
        ps[j].0 == t,
        forall|k: int| 0 <= k < j ==> (#[trigger] ps[k].0) != t,
    ensures
        spec_lookup(ps, t) == Some(ps[j].1),
    decreases j,
{
    if j > 0 {
        lemma_lookup_at_first(ps.skip(1), t, j - 1);
    }
}

/// If no pair carries `t`, looking `t` up yields nothing.
proof fn lemma_lookup_absent(ps: Seq<(Seq<char>, Seq<usize>)>, t: Seq<char>)
    requires
        forall|k: int| 0 <= k < ps.len() ==> (#[trigger] ps[k].0) != t,
    ensures
        spec_lookup(ps, t) is None,
    decreases ps.len(),
{
    if ps.len() > 0 {
        lemma_lookup_absent(ps.skip(1), t);
    }
}

/// Inserting at the position of the first pair carrying `t` updates that
/// pair in place.
proof fn lemma_insert_posting_found(
    ps: Seq<(Seq<char>, Seq<usize>)>,
    t: Seq<char>,
    id: usize,
    j: int,
)
    requires
        0 <= j < ps.len(),
        ps[j].0 == t,
        forall|k: int| 0 <= k < j ==> (#[trigger] ps[k].0) != t,
    ensures
        spec_insert_posting(ps, t, id) == ps.update(j, (ps[j].0, ps[j].1.push(id))),
    decreases j,
{
    if j == 0 {
        assert(spec_insert_posting(ps, t, id) =~= ps.update(0, (ps[0].0, ps[0].1.push(id))));
    } else {
        lemma_insert_posting_found(ps.skip(1), t, id, j - 1);
        assert(seq![ps[0]] + ps.skip(1).update(j - 1, (ps[j].0, ps[j].1.push(id))) =~= ps.update(
            j,
            (ps[j].0, ps[j].1.push(id)),
        ));
    }
}

/// Inserting a term no pair carries appends a fresh pair.
proof fn lemma_insert_posting_absent(ps: Seq<(Seq<char>, Seq<usize>)>, t: Seq<char>, id: usize)
    requires
        forall|k: int| 0 <= k < ps.len() ==> (#[trigger] ps[k].0) != t,
    ensures
        spec_insert_posting(ps, t, id) == ps.push((t, seq![id])),
    decreases ps.len(),
{
    if ps.len() == 0 {
        assert(spec_insert_posting(ps, t, id) =~= ps.push((t, seq![id])));
    } else {
        lemma_insert_posting_absent(ps.skip(1), t, id);
        assert(seq![ps[0]] + ps.skip(1).push((t, seq![id])) =~= ps.push((t, seq![id])));
    }
}

/// The loop invariant of `IndexWriter::add`, on the postings only: what has
/// to hold after the identifier `id` was posted under `processed` terms,
/// starting from a well-formed writer whose next identifier is `id`.
spec fn add_partial_wf(
    ps: Seq<(Seq<char>, Seq<usize>)>,
    processed: Seq<Seq<char>>,
    id: usize,
) -> bool {
    &&& (forall|a: int, b: int|
        0 <= a < b < ps.len() ==> (#[trigger] ps[a].0) != (#[trigger] ps[b].0))
    &&& (forall|a: int, j: int, k: int|
        0 <= a < ps.len() && 0 <= j < k < ps[a].1.len() ==> (#[trigger] ps[a].1[j]) < (
        #[trigger] ps[a].1[k]))
    &&& (forall|a: int, j: int|
        0 <= a < ps.len() && 0 <= j < ps[a].1.len() ==> (#[trigger] ps[a].1[j]) <= id)
    &&& (forall|a: int|
        0 <= a < ps.len() && ps[a].1.len() > 0 && ps[a].1.last() == id
            ==> processed.contains(#[trigger] ps[a].0))
}

/// The build-side index: accumulates analyzed documents, assigning
/// identifiers by insertion order.
#[derive(Debug, PartialEq)]
pub struct IndexWriter {
    pub docs: Vec<Document>,
    pub postings: Postings,
}

impl View for IndexWriter {
    type V = IndexModel;

    open spec fn view(&self) -> IndexModel {
        IndexModel { docs: docs_model(self.docs@), postings: self.postings@ }
    }
}

impl Default for IndexWriter {
    /// A writer holding no documents and no postings.
    fn default() -> (r: IndexWriter)
        ensures
            r@ == IndexModel::empty(),
            r@.writer_wf(),
    {
        let r = IndexWriter { docs: Vec::new(), postings: Postings::new() };
        proof {
            assert(r@.docs =~= Seq::<Seq<char>>::empty());
            assert(r@ == IndexModel::empty());
        }
        r
    }
}

impl IndexWriter {
    /// Adds one analyzed document: it gets the identifier `docs.len()` and
    /// that identifier is posted under each of its terms, in term order.
    /// Never fails. Starting from a well-formed writer and an analyzed
    /// document, well-formedness is kept.
    pub fn add(&mut self, doc: AnalyzedDocument)
        ensures
            final(self)@ == spec_add(old(self)@, doc.terms_view(), doc.content_view()),
            old(self)@.writer_wf() && doc.wf() ==> final(self)@.writer_wf(),
    {
        let ghost m0 = old(self)@;
        let ghost tv = doc.terms_view();
        let ghost keep_wf = m0.writer_wf() && doc.wf();
        let doc_id = self.docs.len();
        let AnalyzedDocument { terms, content } = doc;
        proof {
            assert(tv.skip(0) =~= tv);
            if keep_wf {
                assert forall|a: int|
                    0 <= a < m0.postings.len() && m0.postings[a].1.len() > 0
                        && m0.postings[a].1.last() == doc_id implies tv.take(0).contains(
                    #[trigger] m0.postings[a].0,
                ) by {
                    assert(m0.postings[a].1[m0.postings[a].1.len() - 1] < m0.docs.len());
                }
            }
        }
        let mut i: usize = 0;
        while i < terms.len()
            invariant
                i <= terms.len(),
                terms.deep_view() == tv,
                self.docs == old(self).docs,
                self.docs@.len() == doc_id,
                spec_add_terms(self.postings@, tv.skip(i as int), doc_id) == spec_add_terms(
                    m0.postings,
                    tv,
                    doc_id,
                ),
                keep_wf ==> add_partial_wf(self.postings@, tv.take(i as int), doc_id),
            decreases terms.len() - i,
        {
            let ghost cur = self.postings@;
            let ghost rest = tv.skip(i as int);
            proof {
                assert(rest[0] == tv[i as int]);
                assert(rest.skip(1) =~= tv.skip(i as int + 1));
                assert(tv[i as int] == terms.deep_view()[i as int]);
            }
            let t = terms[i].clone();
            match self.postings.position(&t) {
                Some(j) => {
                    proof {
                        lemma_insert_posting_found(cur, t@, doc_id, j as int);
                        if keep_wf {
                            // The matched list cannot already end in `doc_id`:
                            // that would mean the same term occurred earlier
                            // in this document's term sequence.
                            if cur[j as int].1.len() > 0 && cur[j as int].1.last() == doc_id {
                                assert(tv.take(i as int).contains(cur[j as int].0));
                                let k = tv.take(i as int).lemma_contains_to_index(
                                    cur[j as int].0,
                                );
                                assert(tv.take(i as int)[k] == tv[k]);
                                assert(tv[k] == tv[i as int]);
                                assert(false);
                            }
                        }
                    }
                    self.postings.push_id(j, doc_id);
                },
                None => {
                    proof {
                        lemma_insert_posting_absent(cur, t@, doc_id);
                    }
                    self.postings.push_entry(t, doc_id);
                },
            }
            proof {
                assert(self.postings@ == spec_insert_posting(cur, tv[i as int], doc_id));
                assert(spec_add_terms(cur, rest, doc_id) == spec_add_terms(
                    self.postings@,
                    tv.skip(i as int + 1),
                    doc_id,
                ));
                if keep_wf {
                    assert(tv.take(i as int + 1).drop_last() =~= tv.take(i as int));
                    assert(tv.take(i as int + 1).last() == tv[i as int]);
                    assert forall|x: Seq<char>| tv.take(i as int).contains(x) implies tv.take(
                        i as int + 1,
                    ).contains(x) by {
                        let k = choose|k: int| 0 <= k < i && tv.take(i as int)[k] == x;
                        assert(tv.take(i as int + 1)[k] == x);
                    }
                    assert(tv.take(i as int + 1).contains(tv[i as int]));
                    assert(add_partial_wf(self.postings@, tv.take(i as int + 1), doc_id));
                }
            }
            i += 1;
        }
        proof {
            assert(tv.skip(tv.len() as int) =~= Seq::<Seq<char>>::empty());
        }
        self.docs.push(Document { content });
        proof {
            assert(self@.docs =~= m0.docs.push(content@));
            assert(self@ == spec_add(m0, tv, content@));
            if keep_wf {
                assert(self@.writer_wf());
            }
        }
    }
}

/// The distinct tokens of a query, normalized as search normalizes them:
/// the whole query lowercased, then segmented into Unicode words, first
/// occurrence of each token kept.
pub open spec fn query_terms(q: Seq<char>) -> Seq<Seq<char>> {
    unicode_words_of(lower_of(q)).remove_duplicates(Seq::empty())
}

/// The identifiers one term contributes to a search: its posting list, or
/// nothing for a term the index never saw.
pub open spec fn posting_ids(m: IndexModel, t: Seq<char>) -> Seq<usize> {
    match spec_lookup(m.postings, t) {
        Some(ids) => ids,
        None => Seq::empty(),
    }
}

/// The posting lists of a term sequence, concatenated in order.
pub open spec fn gathered_ids(m: IndexModel, terms: Seq<Seq<char>>) -> Seq<usize>
    decreases terms.len(),
{
    if terms.len() == 0 {
        Seq::empty()
    } else {
        posting_ids(m, terms[0]) + gathered_ids(m, terms.skip(1))
    }
}

/// The identifiers a query matches: the union, over the query's distinct
/// terms, of their posting lists — gathered in traversal order, each
/// identifier kept once at its first occurrence.
pub open spec fn matched_ids(m: IndexModel, q: Seq<char>) -> Seq<usize> {
    gathered_ids(m, query_terms(q)).remove_duplicates(Seq::empty())
}

/// Two queries with the same distinct normalized tokens match the same
/// identifiers: repeating a term in a query changes nothing.
pub proof fn lemma_search_depends_on_distinct_terms(m: IndexModel, q1: Seq<char>, q2: Seq<char>)
    requires
        query_terms(q1) == query_terms(q2),
    ensures
        matched_ids(m, q1) == matched_ids(m, q2),
{
}

/// Deduplicating a concatenation deduplicates the halves in order.
proof fn lemma_remove_duplicates_concat<A>(a: Seq<A>, b: Seq<A>, seen: Seq<A>)
    ensures
        (a + b).remove_duplicates(seen) == b.remove_duplicates(a.remove_duplicates(seen)),
    decreases a.len(),
{
    if a.len() == 0 {
        assert(a + b =~= b);
    } else {
        assert((a + b)[0] == a[0]);
        assert((a + b).skip(1) =~= a.skip(1) + b);
        if seen.contains(a[0]) {
            lemma_remove_duplicates_concat(a.skip(1), b, seen);
        } else {
            lemma_remove_duplicates_concat(a.skip(1), b, seen + seq![a[0]]);
        }
    }
}

/// A successful lookup hands back identifiers below the given bound if all
/// posting lists stay below it.
proof fn lemma_lookup_in_range(ps: Seq<(Seq<char>, Seq<usize>)>, t: Seq<char>, bound: int)
    requires
        forall|a: int, j: int|
            0 <= a < ps.len() && 0 <= j < ps[a].1.len() ==> (#[trigger] ps[a].1[j]) < bound,
    ensures
        spec_lookup(ps, t) matches Some(l) ==> forall|j: int| 0 <= j < l.len() ==> l[j] < bound,
    decreases ps.len(),
{
    if ps.len() > 0 && ps[0].0 != t {
        lemma_lookup_in_range(ps.skip(1), t, bound);
    }
}

/// Whether `v` holds `x`.
fn contains_id(v: &Vec<usize>, x: usize) -> (r: bool)
    ensures
        r == v@.contains(x),
{
    let mut i: usize = 0;
    while i < v.len()
        invariant
            i <= v.len(),
            forall|j: int| 0 <= j < i ==> v@[j] != x,
        decreases v.len() - i,
    {
        if v[i] == x {
            return true;
        }
        i += 1;
    }
    false
}

/// The query-side index: immutable, answers keyword searches. Produced by
/// freezing an `IndexWriter` or by decoding a persisted index.
#[derive(Debug, PartialEq)]
pub struct Index {
    pub docs: Vec<Document>,
    pub postings: Postings,
}

impl View for Index {
    type V = IndexModel;

    open spec fn view(&self) -> IndexModel {
        IndexModel { docs: docs_model(self.docs@), postings: self.postings@ }
    }
}

impl From<IndexWriter> for Index {
    /// Freezes a writer into the query-side structure: a pure data move.
    fn from(writer: IndexWriter) -> (r: Index) {
        Index { docs: writer.docs, postings: writer.postings }
    }
}

impl vstd::std_specs::convert::FromSpecImpl<IndexWriter> for Index {
    open spec fn obeys_from_spec() -> bool {
        true
    }

    open spec fn from_spec(w: IndexWriter) -> Index {
        Index { docs: w.docs, postings: w.postings }
    }
}

impl Index {
    /// Decides whether every posting entry points only at documents the
    /// index holds, which is what `search` relies on.
    pub fn is_well_formed(&self) -> (r: bool)
        ensures
            r == self@.wf(),
    {
        let n = self.docs.len();
        let mut a: usize = 0;
        while a < self.postings.entries.len()
            invariant
                a <= self@.postings.len(),
                forall|x: int, j: int|
                    0 <= x < a && 0 <= j < self@.postings[x].1.len() ==> (
                    #[trigger] self@.postings[x].1[j]) < n,
            decreases self.postings.entries.len() - a,
        {
            let ids = &self.postings.entries[a].1;
            let mut j: usize = 0;
            while j < ids.len()
                invariant
                    j <= ids@.len(),
                    ids@ == self@.postings[a as int].1,
                    forall|k: int| 0 <= k < j ==> ids@[k] < n,
                decreases ids.len() - j,
            {
                if ids[j] >= n {
                    assert(!self@.ids_in_range());
                    return false;
                }
                j += 1;
            }
            a += 1;
        }
        true
    }

    /// Answers a keyword query: normalizes and deduplicates the query's
    /// tokens exactly as document analysis does, takes the union of the
    /// matched posting lists, and hands back each matched document once,
    /// in first-match order.
    pub fn search<'a>(&'a self, query: &str) -> (r: Vec<&'a Document>)
        requires
            self@.wf(),
        ensures
            r@.len() == matched_ids(self@, query@).len(),
            forall|k: int|
                0 <= k < r@.len() ==> (#[trigger] r@[k])@ == self@.docs[matched_ids(
                    self@,
                    query@,
                )[k] as int],
            query@.len() == 0 ==> r@.len() == 0,
    {
        let ghost target = matched_ids(self@, query@);
        let lowered = lowercase(query);
        let toks = unicode_word_list(lowered.as_str());
        let qterms = dedup_strings(&toks);
        let ghost qt = query_terms(query@);
        proof {
            assert(qterms.deep_view() == qt);
            assert(qt.skip(0) =~= qt);
        }
        let mut ids: Vec<usize> = Vec::new();
        let mut i: usize = 0;
        while i < qterms.len()
            invariant
                i <= qterms.len(),
                gathered_ids(self@, qt.skip(i as int)).remove_duplicates(ids@) == target,
                ids@.no_duplicates(),
                forall|x: int| 0 <= x < ids@.len() ==> (#[trigger] ids@[x]) < self@.docs.len(),
            decreases qterms.len() - i,
        {
            let ghost rest = qt.skip(i as int);
            let ghost ids0 = ids@;
            proof {
                assert(rest[0] == qt[i as int]);
                assert(rest.skip(1) =~= qt.skip(i as int + 1));
                assert(gathered_ids(self@, rest) == posting_ids(self@, qt[i as int])
                    + gathered_ids(self@, qt.skip(i as int + 1)));
                lemma_remove_duplicates_concat(
                    posting_ids(self@, qt[i as int]),
                    gathered_ids(self@, qt.skip(i as int + 1)),
                    ids0,
                );
            }
            match self.postings.get(qterms[i].as_str()) {
                Some(list) => {
                    proof {
                        assert(posting_ids(self@, qt[i as int]) == list@);
                        lemma_lookup_in_range(self@.postings, qt[i as int], self@.docs.len() as int);
                        assert(list@.skip(0) =~= list@);
                    }
                    let mut k: usize = 0;
                    while k < list.len()
                        invariant
                            k <= list@.len(),
                            list@.skip(k as int).remove_duplicates(ids@) == list@.remove_duplicates(
                                ids0,
                            ),
                            ids@.no_duplicates(),
                            forall|x: int|
                                0 <= x < ids@.len() ==> (#[trigger] ids@[x]) < self@.docs.len(),
                        decreases list.len() - k,
                    {
                        let ghost lrest = list@.skip(k as int);
                        let ghost seen = ids@;
                        proof {
                            assert(lrest[0] == list@[k as int]);
                            assert(lrest.skip(1) =~= list@.skip(k as int + 1));
                        }
                        let id = list[k];
                        if !contains_id(&ids, id) {
                            ids.push(id);
                            proof {
                                assert(ids@ =~= seen + seq![id]);
                                assert forall|x: int, y: int|
                                    0 <= x < ids@.len() && 0 <= y < ids@.len() && x
                                        != y implies ids@[x] != ids@[y] by {
                                    if x == seen.len() {
                                        assert(!seen.contains(ids@[x]));
                                    } else if y == seen.len() {
                                        assert(!seen.contains(ids@[y]));
                                    }
                                }
                            }
                        } else {
                            assert(seen.contains(lrest[0]));
                        }
                        k += 1;
                    }
                    proof {
                        assert(list@.skip(list@.len() as int) =~= Seq::<usize>::empty());
                    }
                },
                None => {
                    proof {
                        assert(posting_ids(self@, qt[i as int]) =~= Seq::<usize>::empty());
                        assert(posting_ids(self@, qt[i as int]) + gathered_ids(
                            self@,
                            qt.skip(i as int + 1),
                        ) =~= gathered_ids(self@, qt.skip(i as int + 1)));
                    }
                },
            }
            i += 1;
        }
        proof {
            assert(qt.skip(qt.len() as int) =~= Seq::<Seq<char>>::empty());
            assert(ids@ == target);
        }
        let mut out: Vec<&Document> = Vec::new();
        let mut k: usize = 0;
        while k < ids.len()
            invariant
                k <= ids@.len(),
                out@.len() == k,
                forall|x: int| 0 <= x < k ==> (#[trigger] out@[x])@ == self@.docs[ids@[x] as int],
            decreases ids.len() - k,
        {
            let id = ids[k];
            out.push(&self.docs[id]);
            k += 1;
        }
        out
    }
}

} // verus!
