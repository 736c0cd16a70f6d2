//! Document analysis: Unicode word segmentation of the content, lowercasing
//! of each token, and per-document deduplication of the resulting terms.

use vstd::prelude::*;

use crate::text::{lower_of, lowercase, unicode_word_list, unicode_words_of};

verus! {

/// The terms the analyzer extracts from a document: the content's Unicode
/// word segments, each lowercased, first occurrence kept, later repeats
/// dropped.
pub open spec fn analyzed_terms(content: Seq<char>) -> Seq<Seq<char>> {
    unicode_words_of(content).map_values(|w: Seq<char>| lower_of(w)).remove_duplicates(
        Seq::empty(),
    )
}

/// A document that has passed through the analyzer: its normalized term set
/// together with the original content, kept verbatim.
pub struct AnalyzedDocument {
    pub terms: Vec<String>,
    pub content: String,
}

impl AnalyzedDocument {
    /// The analyzer's term sequence, as character sequences.
    pub open spec fn terms_view(&self) -> Seq<Seq<char>> {
        self.terms.deep_view()
    }

    /// The retained content, as a character sequence.
    pub open spec fn content_view(&self) -> Seq<char> {
        self.content@
    }

    /// The analyzer never hands the same term out twice for one document.
    pub open spec fn wf(&self) -> bool {
        self.terms_view().no_duplicates()
    }
}

/// Whether some element of `v` has the same characters as `s`.
pub(crate) fn contains_string(v: &Vec<String>, s: &String) -> (r: bool)
    ensures
        r == v.deep_view().contains(s@),
{
    let mut i: usize = 0;
    while i < v.len()
        invariant
            i <= v.len(),
            forall|j: int| 0 <= j < i ==> v.deep_view()[j] != s@,
        decreases v.len() - i,
    {
        if v[i] == *s {
            assert(v.deep_view()[i as int] == s@);
            return true;
        }
        i += 1;
    }
    false
}

/// Copies `words` keeping only the first occurrence of each distinct
/// character sequence, in order.
pub(crate) fn dedup_strings(words: &Vec<String>) -> (r: Vec<String>)
    ensures
        r.deep_view() == words.deep_view().remove_duplicates(Seq::empty()),
        r.deep_view().no_duplicates(),
{
    let ghost dv = words.deep_view();
    let mut kept: Vec<String> = Vec::new();
    assert(dv.skip(0) =~= dv);
    let mut i: usize = 0;
    while i < words.len()
        invariant
            i <= words.len(),
            dv == words.deep_view(),
            dv.skip(i as int).remove_duplicates(kept.deep_view()) == dv.remove_duplicates(
                Seq::empty(),
            ),
            kept.deep_view().no_duplicates(),
        decreases words.len() - i,
    {
        let ghost rest = dv.skip(i as int);
        assert(rest[0] == dv[i as int]);
        assert(rest.skip(1) =~= dv.skip(i as int + 1));
        let ghost seen = kept.deep_view();
        if !contains_string(&kept, &words[i]) {
            let w = words[i].clone();
            kept.push(w);
            assert(kept.deep_view() =~= seen + seq![rest[0]]);
            assert forall|a: int, b: int|
                0 <= a < kept.deep_view().len() && 0 <= b < kept.deep_view().len() && a
                    != b implies kept.deep_view()[a] != kept.deep_view()[b] by {
                if a < seen.len() && b < seen.len() {
                } else if a == seen.len() {
                    assert(!seen.contains(kept.deep_view()[a]));
                } else if b == seen.len() {
                    assert(!seen.contains(kept.deep_view()[b]));
                }
            }
        } else {
            assert(seen.contains(rest[0]));
        }
        i += 1;
    }
    assert(dv.skip(words.deep_view().len() as int) =~= Seq::empty());
    kept
}

/// Analyzes raw document text: splits it into Unicode word segments,
/// lowercases each one, drops repeats, and keeps the content verbatim.
/// Always succeeds; empty input yields an empty term set.
pub fn analyze(content: String) -> (r: AnalyzedDocument)
    ensures
        r.wf(),
        r.content_view() == content@,
        r.terms_view() == analyzed_terms(content@),
        content@.len() == 0 ==> r.terms_view().len() == 0,
{
    let words = unicode_word_list(content.as_str());
    let ghost wv = unicode_words_of(content@);
    let mut lowered: Vec<String> = Vec::new();
    let mut i: usize = 0;
    while i < words.len()
        invariant
            i <= words.len(),
            words.deep_view() == wv,
            lowered.len() == i,
            forall|j: int| 0 <= j < i ==> lowered.deep_view()[j] == lower_of(wv[j]),
        decreases words.len() - i,
    {
        let low = lowercase(words[i].as_str());
        let ghost prev = lowered.deep_view();
        lowered.push(low);
        assert forall|j: int| 0 <= j < i + 1 implies lowered.deep_view()[j] == lower_of(
            wv[j],
        ) by {
            if j < i {
                assert(lowered.deep_view()[j] == prev[j]);
            } else {
                assert(lowered.deep_view()[j] == low@);
                assert(wv[j] == words.deep_view()[j]);
            }
        }
        i += 1;
    }
    assert(lowered.deep_view() =~= wv.map_values(|w: Seq<char>| lower_of(w)));
    let terms = dedup_strings(&lowered);
    AnalyzedDocument { terms, content }
}

} // verus!
