//! The build pipeline's sequential core. Enumerating candidate paths,
//! extracting document bodies and running workers in parallel live with the
//! caller; what is verified here is the accumulation stage: every analyzed
//! document the workers hand over is indexed exactly once, in the order
//! given, which fixes the document identifiers.

use vstd::prelude::*;
use vstd::string::StrSliceExecFns;

use crate::analysis::AnalyzedDocument;
use crate::index::{spec_add, IndexModel, IndexWriter};

verus! {

/// The default size of the parallel fetch-and-analyze worker pool.
pub const DEFAULT_WORKER_COUNT: usize = 20;

/// Folding one `add` per analyzed document over a model, in order.
pub open spec fn spec_build(m: IndexModel, docs: Seq<AnalyzedDocument>) -> IndexModel
    decreases docs.len(),
{
    if docs.len() == 0 {
        m
    } else {
        spec_build(spec_add(m, docs[0].terms_view(), docs[0].content_view()), docs.skip(1))
    }
}

/// Accumulates analyzed documents into a fresh writer, one at a time and
/// in the order given: the document at position `i` gets identifier `i`.
pub fn build_index(docs: Vec<AnalyzedDocument>) -> (w: IndexWriter)
    ensures
        w@ == spec_build(IndexModel::empty(), docs@),
        (forall|i: int| 0 <= i < docs@.len() ==> (#[trigger] docs@[i]).wf()) ==> w@.writer_wf(),
{
    let ghost dv = docs@;
    let ghost all_wf = forall|i: int| 0 <= i < dv.len() ==> (#[trigger] dv[i]).wf();
    let mut remaining = docs;
    let mut w = IndexWriter::default();
    while remaining.len() > 0
        invariant
            spec_build(w@, remaining@) == spec_build(IndexModel::empty(), dv),
            all_wf ==> w@.writer_wf(),
            all_wf ==> forall|i: int| 0 <= i < remaining@.len() ==> (
            #[trigger] remaining@[i]).wf(),
        decreases remaining.len(),
    {
        let ghost before = remaining@;
        let d = remaining.remove(0);
        proof {
            assert(remaining@ =~= before.skip(1));
        }
        w.add(d);
    }
    proof {
        assert(remaining@.len() == 0);
    }
    w
}

/// Whether a file name marks a hidden directory entry: its first character
/// is a dot. The corpus enumerator excludes such entries.
pub fn is_hidden_name(name: &str) -> (r: bool)
    ensures
        r == (name@.len() > 0 && name@[0] == '.'),
{
    if name.unicode_len() == 0 {
        false
    } else {
        name.get_char(0) == '.'
    }
}

} // verus!
