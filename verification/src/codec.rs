//! The binary codec for persisted indexes.
//!
//! Wire format, all integers big-endian and fixed width:
//! a `u32` count of distinct terms; for each term a `u16` byte length, the
//! term's UTF-8 bytes, a `u32` count of document identifiers and that many
//! `u32` identifiers; then a `u32` count of documents; for each document a
//! `u32` byte length and the content's UTF-8 bytes.

use vstd::prelude::*;

use crate::index::{docs_model, entries_model, Document, Index, IndexModel, IndexWriter, Postings};
use crate::text::string_from_utf8;
use vstd::slice::{slice_index_get, slice_subrange, slice_to_vec};
use vstd::utf8::{decode_utf8, encode_utf8, valid_utf8};

verus! {

/// The `u16` written big-endian as two bytes.
pub open spec fn be_u16_bytes(x: u16) -> Seq<u8> {
    seq![(x >> 8) as u8, x as u8]
}

/// The `u32` written big-endian as four bytes.
pub open spec fn be_u32_bytes(x: u32) -> Seq<u8> {
    seq![(x >> 24) as u8, (x >> 16) as u8, (x >> 8) as u8, x as u8]
}

/// The `u16` read back from two big-endian bytes.
pub open spec fn be_u16(b: Seq<u8>) -> u16
    recommends
        b.len() == 2,
{
    ((b[0] as u16) << 8) | (b[1] as u16)
}

/// The `u32` read back from four big-endian bytes.
pub open spec fn be_u32(b: Seq<u8>) -> u32
    recommends
        b.len() == 4,
{
    ((b[0] as u32) << 24) | ((b[1] as u32) << 16) | ((b[2] as u32) << 8) | (b[3] as u32)
}

/// Reading two big-endian bytes gives back the `u16` they came from.
proof fn lemma_be_u16_round_trip(x: u16)
    ensures
        be_u16(be_u16_bytes(x)) == x,
{
    assert(((((x >> 8) as u8) as u16) << 8) | (((x as u8)) as u16) == x) by (bit_vector);
}

/// Reading four big-endian bytes gives back the `u32` they came from.
proof fn lemma_be_u32_round_trip(x: u32)
    ensures
        be_u32(be_u32_bytes(x)) == x,
{
    assert(((((x >> 24) as u8) as u32) << 24) | ((((x >> 16) as u8) as u32) << 16) | ((((x
        >> 8) as u8) as u32) << 8) | (((x as u8)) as u32) == x) by (bit_vector);
}

/// Reads the big-endian `u16` at `pos`; fails exactly when fewer than two
/// bytes remain there.
pub fn read_u16(bytes: &[u8], pos: usize) -> (r: Option<u16>)
    ensures
        r is Some <==> pos + 2 <= bytes@.len(),
        r matches Some(x) ==> x == be_u16(bytes@.subrange(pos as int, pos as int + 2)),
{
    if bytes.len() >= 2 && pos <= bytes.len() - 2 {
        let b0 = *slice_index_get(bytes, pos);
        let b1 = *slice_index_get(bytes, pos + 1);
        let x = ((b0 as u16) << 8u16) | (b1 as u16);
        proof {
            let b = bytes@.subrange(pos as int, pos as int + 2);
            assert(b[0] == b0 && b[1] == b1);
        }
        Some(x)
    } else {
        None
    }
}

/// Reads the big-endian `u32` at `pos`; fails exactly when fewer than four
/// bytes remain there.
pub fn read_u32(bytes: &[u8], pos: usize) -> (r: Option<u32>)
    ensures
        r is Some <==> pos + 4 <= bytes@.len(),
        r matches Some(x) ==> x == be_u32(bytes@.subrange(pos as int, pos as int + 4)),
{
    if bytes.len() >= 4 && pos <= bytes.len() - 4 {
        let b0 = *slice_index_get(bytes, pos);
        let b1 = *slice_index_get(bytes, pos + 1);
        let b2 = *slice_index_get(bytes, pos + 2);
        let b3 = *slice_index_get(bytes, pos + 3);
        let x = ((b0 as u32) << 24u32) | ((b1 as u32) << 16u32) | ((b2 as u32) << 8u32) | (
        b3 as u32);
        proof {
            let b = bytes@.subrange(pos as int, pos as int + 4);
            assert(b[0] == b0 && b[1] == b1 && b[2] == b2 && b[3] == b3);
        }
        Some(x)
    } else {
        None
    }
}

/// Appends the two big-endian bytes of `x`.
fn push_u16_be(out: &mut Vec<u8>, x: u16)
    ensures
        final(out)@ == old(out)@ + be_u16_bytes(x),
{
    out.push(#[verifier::truncate] ((x >> 8u16) as u8));
    out.push(#[verifier::truncate] (x as u8));
    proof {
        assert(out@ =~= old(out)@ + be_u16_bytes(x));
    }
}

/// Appends the four big-endian bytes of `x`.
fn push_u32_be(out: &mut Vec<u8>, x: u32)
    ensures
        final(out)@ == old(out)@ + be_u32_bytes(x),
{
    out.push(#[verifier::truncate] ((x >> 24u32) as u8));
    out.push(#[verifier::truncate] ((x >> 16u32) as u8));
    out.push(#[verifier::truncate] ((x >> 8u32) as u8));
    out.push(#[verifier::truncate] (x as u8));
    proof {
        assert(out@ =~= old(out)@ + be_u32_bytes(x));
    }
}

/// A decode failure: each read step of the wire format that can fail has
/// its own kind, carrying the context needed to attribute the failure
/// without re-scanning the input.
#[derive(Debug, PartialEq)]
pub enum IndexError {
    UnableToReadPostingListSize,
    UnableToReadTermSize { term_id: u32 },
    UnableToReadTerm { term_id: u32 },
    UnableToReadNumberOfDocIds { term: String, term_id: u32 },
    UnableToReadDocId { term: String, term_id: u32, doc_index: u32 },
    UnableToReadNumberOfDocs,
    UnableToReadDocSize { doc_id: u32 },
    UnableToReadDocContent { doc_id: u32 },
}

/// The ghost shape of a decode failure, with the term context as a
/// character sequence.
pub enum IndexErrorModel {
    PostingListSize,
    TermSize { term_id: u32 },
    Term { term_id: u32 },
    NumberOfDocIds { term: Seq<char>, term_id: u32 },
    DocId { term: Seq<char>, term_id: u32, doc_index: u32 },
    NumberOfDocs,
    DocSize { doc_id: u32 },
    DocContent { doc_id: u32 },
}

impl View for IndexError {
    type V = IndexErrorModel;

    open spec fn view(&self) -> IndexErrorModel {
        match self {
            IndexError::UnableToReadPostingListSize => IndexErrorModel::PostingListSize,
            IndexError::UnableToReadTermSize { term_id } => IndexErrorModel::TermSize {
                term_id: *term_id,
            },
            IndexError::UnableToReadTerm { term_id } => IndexErrorModel::Term {
                term_id: *term_id,
            },
            IndexError::UnableToReadNumberOfDocIds { term, term_id } => {
                IndexErrorModel::NumberOfDocIds { term: term@, term_id: *term_id }
            },
            IndexError::UnableToReadDocId { term, term_id, doc_index } => {
                IndexErrorModel::DocId {
                    term: term@,
                    term_id: *term_id,
                    doc_index: *doc_index,
                }
            },
            IndexError::UnableToReadNumberOfDocs => IndexErrorModel::NumberOfDocs,
            IndexError::UnableToReadDocSize { doc_id } => IndexErrorModel::DocSize {
                doc_id: *doc_id,
            },
            IndexError::UnableToReadDocContent { doc_id } => IndexErrorModel::DocContent {
                doc_id: *doc_id,
            },
        }
    }
}

/// Parses `remaining` big-endian document identifiers at `pos`, for the
/// posting list of `term`; `doc_index` counts the identifiers already read.
pub open spec fn spec_parse_ids(
    bytes: Seq<u8>,
    pos: int,
    term: Seq<char>,
    term_id: u32,
    doc_index: u32,
    remaining: u32,
) -> Result<(Seq<usize>, int), IndexErrorModel>
    decreases remaining,
{
    if remaining == 0 {
        Ok((Seq::empty(), pos))
    } else if pos + 4 > bytes.len() {
        Err(IndexErrorModel::DocId { term, term_id, doc_index })
    } else {
        let id = be_u32(bytes.subrange(pos, pos + 4));
        match spec_parse_ids(
            bytes,
            pos + 4,
            term,
            term_id,
            (doc_index + 1) as u32,
            (remaining - 1) as u32,
        ) {
            Ok((rest, end)) => Ok((seq![id as usize] + rest, end)),
            Err(e) => Err(e),
        }
    }
}

/// Parses `remaining` term records at `pos`: each a length-prefixed UTF-8
/// term followed by its length-prefixed posting list.
pub open spec fn spec_parse_terms(bytes: Seq<u8>, pos: int, term_id: u32, remaining: u32) -> Result<
    (Seq<(Seq<char>, Seq<usize>)>, int),
    IndexErrorModel,
>
    decreases remaining,
{
    if remaining == 0 {
        Ok((Seq::empty(), pos))
    } else if pos + 2 > bytes.len() {
        Err(IndexErrorModel::TermSize { term_id })
    } else {
        let tlen = be_u16(bytes.subrange(pos, pos + 2)) as int;
        let p1 = pos + 2;
        if p1 + tlen > bytes.len() {
            Err(IndexErrorModel::Term { term_id })
        } else if !valid_utf8(bytes.subrange(p1, p1 + tlen)) {
            Err(IndexErrorModel::Term { term_id })
        } else {
            let term = decode_utf8(bytes.subrange(p1, p1 + tlen));
            let p2 = p1 + tlen;
            if p2 + 4 > bytes.len() {
                Err(IndexErrorModel::NumberOfDocIds { term, term_id })
            } else {
                let count = be_u32(bytes.subrange(p2, p2 + 4));
                match spec_parse_ids(bytes, p2 + 4, term, term_id, 0, count) {
                    Ok((ids, p3)) => {
                        match spec_parse_terms(
                            bytes,
                            p3,
                            (term_id + 1) as u32,
                            (remaining - 1) as u32,
                        ) {
                            Ok((rest, end)) => Ok((seq![(term, ids)] + rest, end)),
                            Err(e) => Err(e),
                        }
                    },
                    Err(e) => Err(e),
                }
            }
        }
    }
}

/// Parses `remaining` length-prefixed UTF-8 document contents at `pos`.
pub open spec fn spec_parse_docs(bytes: Seq<u8>, pos: int, doc_id: u32, remaining: u32) -> Result<
    (Seq<Seq<char>>, int),
    IndexErrorModel,
>
    decreases remaining,
{
    if remaining == 0 {
        Ok((Seq::empty(), pos))
    } else if pos + 4 > bytes.len() {
        Err(IndexErrorModel::DocSize { doc_id })
    } else {
        let clen = be_u32(bytes.subrange(pos, pos + 4)) as int;
        let p1 = pos + 4;
        if p1 + clen > bytes.len() {
            Err(IndexErrorModel::DocContent { doc_id })
        } else if !valid_utf8(bytes.subrange(p1, p1 + clen)) {
            Err(IndexErrorModel::DocContent { doc_id })
        } else {
            let content = decode_utf8(bytes.subrange(p1, p1 + clen));
            match spec_parse_docs(bytes, p1 + clen, (doc_id + 1) as u32, (remaining - 1) as u32) {
                Ok((rest, end)) => Ok((seq![content] + rest, end)),
                Err(e) => Err(e),
            }
        }
    }
}

/// What decoding a byte stream yields: the index model it encodes, or the
/// first failing read step. Trailing bytes after the last document are
/// ignored, as a stream reader would leave them unread.
pub open spec fn spec_read(bytes: Seq<u8>) -> Result<IndexModel, IndexErrorModel> {
    if bytes.len() < 4 {
        Err(IndexErrorModel::PostingListSize)
    } else {
        let nterms = be_u32(bytes.subrange(0, 4));
        match spec_parse_terms(bytes, 4, 0, nterms) {
            Err(e) => Err(e),
            Ok((postings, p)) => {
                if p + 4 > bytes.len() {
                    Err(IndexErrorModel::NumberOfDocs)
                } else {
                    let ndocs = be_u32(bytes.subrange(p, p + 4));
                    match spec_parse_docs(bytes, p + 4, 0, ndocs) {
                        Err(e) => Err(e),
                        Ok((docs, end)) => Ok(IndexModel { docs, postings }),
                    }
                }
            },
        }
    }
}

/// Appends every byte of `bs`.
fn push_bytes(out: &mut Vec<u8>, bs: &[u8])
    ensures
        final(out)@ == old(out)@ + bs@,
{
    let mut i: usize = 0;
    while i < bs.len()
        invariant
            i <= bs@.len(),
            out@ == old(out)@ + bs@.take(i as int),
        decreases bs@.len() - i,
    {
        let b = *slice_index_get(bs, i);
        out.push(b);
        proof {
            assert(out@ =~= old(out)@ + bs@.take(i as int + 1));
        }
        i += 1;
    }
    proof {
        assert(old(out)@ + bs@.take(bs@.len() as int) =~= old(out)@ + bs@);
    }
}

/// Reads `count` document identifiers at `start`, for `term`'s posting
/// list.
fn parse_ids(bytes: &[u8], start: usize, term: &String, term_id: u32, count: u32) -> (r: Result<
    (Vec<usize>, usize),
    IndexError,
>)
    ensures
        match r {
            Ok((ids, end)) => spec_parse_ids(bytes@, start as int, term@, term_id, 0, count) == Ok::<
                _,
                IndexErrorModel,
            >((ids@, end as int)),
            Err(e) => spec_parse_ids(bytes@, start as int, term@, term_id, 0, count) == Err::<
                (Seq<usize>, int),
                _,
            >(e@),
        },
{
    // Binds the slice length so position arithmetic stays in bounds.
    let n = bytes.len();
    let mut ids: Vec<usize> = Vec::new();
    let mut pos: usize = start;
    let mut k: u32 = 0;
    while k < count
        invariant
            k <= count,
            (match spec_parse_ids(bytes@, pos as int, term@, term_id, k, (count - k) as u32) {
                Ok((rest, end)) => spec_parse_ids(bytes@, start as int, term@, term_id, 0, count)
                    == Ok::<_, IndexErrorModel>((ids@ + rest, end)),
                Err(e) => spec_parse_ids(bytes@, start as int, term@, term_id, 0, count) == Err::<
                    (Seq<usize>, int),
                    _,
                >(e),
            }),
        decreases count - k,
    {
        let ghost ids0 = ids@;
        match read_u32(bytes, pos) {
            None => {
                return Err(IndexError::UnableToReadDocId {
                    term: term.clone(),
                    term_id,
                    doc_index: k,
                });
            },
            Some(x) => {
                ids.push(x as usize);
                pos = pos + 4;
                k = k + 1;
                proof {
                    let r2 = spec_parse_ids(
                        bytes@,
                        pos as int,
                        term@,
                        term_id,
                        k,
                        (count - k) as u32,
                    );
                    match r2 {
                        Ok((rest, end)) => {
                            assert(ids0 + (seq![x as usize] + rest) =~= ids@ + rest);
                        },
                        Err(e) => {},
                    }
                }
            },
        }
    }
    Ok((ids, pos))
}

/// Reads `count` term records at `start`.
fn parse_terms(bytes: &[u8], start: usize, count: u32) -> (r: Result<
    (Vec<(String, Vec<usize>)>, usize),
    IndexError,
>)
    ensures
        match r {
            Ok((entries, end)) => spec_parse_terms(bytes@, start as int, 0, count) == Ok::<
                _,
                IndexErrorModel,
            >((entries_model(entries@), end as int)),
            Err(e) => spec_parse_terms(bytes@, start as int, 0, count) == Err::<
                (Seq<(Seq<char>, Seq<usize>)>, int),
                _,
            >(e@),
        },
{
    let n = bytes.len();
    let mut entries: Vec<(String, Vec<usize>)> = Vec::new();
    let mut pos: usize = start;
    let mut term_id: u32 = 0;
    proof {
        assert(entries_model(entries@) =~= Seq::<(Seq<char>, Seq<usize>)>::empty());
    }
    while term_id < count
        invariant
            term_id <= count,
            (match spec_parse_terms(bytes@, pos as int, term_id, (count - term_id) as u32) {
                Ok((rest, end)) => spec_parse_terms(bytes@, start as int, 0, count) == Ok::<
                    _,
                    IndexErrorModel,
                >((entries_model(entries@) + rest, end)),
                Err(e) => spec_parse_terms(bytes@, start as int, 0, count) == Err::<
                    (Seq<(Seq<char>, Seq<usize>)>, int),
                    _,
                >(e),
            }),
        decreases count - term_id,
    {
        let ghost es0 = entries_model(entries@);
        let tlen = match read_u16(bytes, pos) {
            None => {
                return Err(IndexError::UnableToReadTermSize { term_id });
            },
            Some(x) => x,
        };
        let p1 = pos + 2;
        if (tlen as usize) > n - p1 {
            // Too few bytes remain for the declared term length.
            return Err(IndexError::UnableToReadTerm { term_id });
        }
        let chunk = slice_to_vec(slice_subrange(bytes, p1, p1 + tlen as usize));
        let term = match string_from_utf8(chunk) {
            None => {
                return Err(IndexError::UnableToReadTerm { term_id });
            },
            Some(s) => s,
        };
        let p2 = p1 + tlen as usize;
        let ndocs = match read_u32(bytes, p2) {
            None => {
                return Err(IndexError::UnableToReadNumberOfDocIds { term, term_id });
            },
            Some(x) => x,
        };
        let (ids, p3) = match parse_ids(bytes, p2 + 4, &term, term_id, ndocs) {
            Err(e) => {
                return Err(e);
            },
            Ok(pair) => pair,
        };
        entries.push((term, ids));
        pos = p3;
        term_id = term_id + 1;
        proof {
            let r2 = spec_parse_terms(bytes@, pos as int, term_id, (count - term_id) as u32);
            let tm = entries@.last().0@;
            assert(entries_model(entries@) =~= es0 + seq![(tm, ids@)]);
            match r2 {
                Ok((rest, end)) => {
                    assert(es0 + (seq![(tm, ids@)] + rest) =~= entries_model(entries@) + rest);
                },
                Err(e) => {},
            }
        }
    }
    Ok((entries, pos))
}

/// Reads `count` document records at `start`.
fn parse_docs(bytes: &[u8], start: usize, count: u32) -> (r: Result<
    (Vec<Document>, usize),
    IndexError,
>)
    ensures
        match r {
            Ok((docs, end)) => spec_parse_docs(bytes@, start as int, 0, count) == Ok::<
                _,
                IndexErrorModel,
            >((docs_model(docs@), end as int)),
            Err(e) => spec_parse_docs(bytes@, start as int, 0, count) == Err::<
                (Seq<Seq<char>>, int),
                _,
            >(e@),
        },
{
    let n = bytes.len();
    let mut docs: Vec<Document> = Vec::new();
    let mut pos: usize = start;
    let mut doc_id: u32 = 0;
    proof {
        assert(docs_model(docs@) =~= Seq::<Seq<char>>::empty());
    }
    while doc_id < count
        invariant
            doc_id <= count,
            (match spec_parse_docs(bytes@, pos as int, doc_id, (count - doc_id) as u32) {
                Ok((rest, end)) => spec_parse_docs(bytes@, start as int, 0, count) == Ok::<
                    _,
                    IndexErrorModel,
                >((docs_model(docs@) + rest, end)),
                Err(e) => spec_parse_docs(bytes@, start as int, 0, count) == Err::<
                    (Seq<Seq<char>>, int),
                    _,
                >(e),
            }),
        decreases count - doc_id,
    {
        let ghost ds0 = docs_model(docs@);
        let clen = match read_u32(bytes, pos) {
            None => {
                return Err(IndexError::UnableToReadDocSize { doc_id });
            },
            Some(x) => x,
        };
        let p1 = pos + 4;
        if (clen as usize) > n - p1 {
            return Err(IndexError::UnableToReadDocContent { doc_id });
        }
        let chunk = slice_to_vec(slice_subrange(bytes, p1, p1 + clen as usize));
        let content = match string_from_utf8(chunk) {
            None => {
                return Err(IndexError::UnableToReadDocContent { doc_id });
            },
            Some(s) => s,
        };
        docs.push(Document { content });
        pos = p1 + clen as usize;
        doc_id = doc_id + 1;
        proof {
            let r2 = spec_parse_docs(bytes@, pos as int, doc_id, (count - doc_id) as u32);
            let cv = docs@.last()@;
            assert(docs_model(docs@) =~= ds0 + seq![cv]);
            match r2 {
                Ok((rest, end)) => {
                    assert(ds0 + (seq![cv] + rest) =~= docs_model(docs@) + rest);
                },
                Err(e) => {},
            }
        }
    }
    Ok((docs, pos))
}

impl Index {
    /// Decodes a persisted index from its bytes. Succeeds exactly when the
    /// bytes parse as the wire format, yielding the index they encode;
    /// otherwise reports the first read step that failed, with its context.
    pub fn read(bytes: &[u8]) -> (r: Result<Index, IndexError>)
        ensures
            match r {
                Ok(idx) => spec_read(bytes@) == Ok::<_, IndexErrorModel>(idx@),
                Err(e) => spec_read(bytes@) == Err::<IndexModel, _>(e@),
            },
    {
        // Binds the slice length so position arithmetic stays in bounds.
        let n = bytes.len();
        let nterms = match read_u32(bytes, 0) {
            None => {
                return Err(IndexError::UnableToReadPostingListSize);
            },
            Some(x) => x,
        };
        let (entries, p) = match parse_terms(bytes, 4, nterms) {
            Err(e) => {
                return Err(e);
            },
            Ok(pair) => pair,
        };
        let ndocs = match read_u32(bytes, p) {
            None => {
                return Err(IndexError::UnableToReadNumberOfDocs);
            },
            Some(x) => x,
        };
        let (docs, _end) = match parse_docs(bytes, p + 4, ndocs) {
            Err(e) => {
                return Err(e);
            },
            Ok(pair) => pair,
        };
        Ok(Index { docs, postings: Postings { entries } })
    }
}

/// An encode failure: a count or length that does not fit its wire width.
/// Failures of the underlying sink are the caller's concern: encoding
/// itself only builds bytes.
#[derive(Debug, PartialEq)]
pub enum IndexWriterError {
    UnableToDownCastPostingsLength { len: usize },
    UnableToDownCastTermLength { term: String, len: usize },
    UnableToDownCastNumberOfDocIds { num_docs: usize },
    UnableToDownCastDocId { doc_id: usize },
    UnableToDownCastNumberOfDocs { num_docs: usize },
    UnableToDownCastDocLength { content_len: usize },
}

/// The ghost shape of an encode failure.
pub enum IndexWriterErrorModel {
    PostingsLength { len: int },
    TermLength { term: Seq<char>, len: int },
    NumberOfDocIds { num_docs: int },
    DocId { doc_id: int },
    NumberOfDocs { num_docs: int },
    DocLength { content_len: int },
}

impl View for IndexWriterError {
    type V = IndexWriterErrorModel;

    open spec fn view(&self) -> IndexWriterErrorModel {
        match self {
            IndexWriterError::UnableToDownCastPostingsLength { len } => {
                IndexWriterErrorModel::PostingsLength { len: *len as int }
            },
            IndexWriterError::UnableToDownCastTermLength { term, len } => {
                IndexWriterErrorModel::TermLength { term: term@, len: *len as int }
            },
            IndexWriterError::UnableToDownCastNumberOfDocIds { num_docs } => {
                IndexWriterErrorModel::NumberOfDocIds { num_docs: *num_docs as int }
            },
            IndexWriterError::UnableToDownCastDocId { doc_id } => {
                IndexWriterErrorModel::DocId { doc_id: *doc_id as int }
            },
            IndexWriterError::UnableToDownCastNumberOfDocs { num_docs } => {
                IndexWriterErrorModel::NumberOfDocs { num_docs: *num_docs as int }
            },
            IndexWriterError::UnableToDownCastDocLength { content_len } => {
                IndexWriterErrorModel::DocLength { content_len: *content_len as int }
            },
        }
    }
}

/// Encodes a posting list: each identifier as four big-endian bytes; fails
/// at the first identifier beyond the `u32` range.
pub open spec fn spec_encode_ids(ids: Seq<usize>) -> Result<Seq<u8>, IndexWriterErrorModel>
    decreases ids.len(),
{
    if ids.len() == 0 {
        Ok(Seq::empty())
    } else if ids[0] > u32::MAX {
        Err(IndexWriterErrorModel::DocId { doc_id: ids[0] as int })
    } else {
        match spec_encode_ids(ids.skip(1)) {
            Ok(rest) => Ok(be_u32_bytes(ids[0] as u32) + rest),
            Err(e) => Err(e),
        }
    }
}

/// Encodes one term record: the term's UTF-8 byte length as a `u16`, its
/// bytes, then its length-prefixed posting list. Range checks come in
/// writing order.
pub open spec fn spec_encode_entry(term: Seq<char>, ids: Seq<usize>) -> Result<
    Seq<u8>,
    IndexWriterErrorModel,
> {
    let tb = encode_utf8(term);
    if tb.len() > u16::MAX {
        Err(IndexWriterErrorModel::TermLength { term, len: tb.len() as int })
    } else if ids.len() > u32::MAX {
        Err(IndexWriterErrorModel::NumberOfDocIds { num_docs: ids.len() as int })
    } else {
        match spec_encode_ids(ids) {
            Ok(idbytes) => Ok(
                be_u16_bytes(tb.len() as u16) + tb + be_u32_bytes(ids.len() as u32) + idbytes,
            ),
            Err(e) => Err(e),
        }
    }
}

/// Encodes the term records, in postings order.
pub open spec fn spec_encode_terms(ps: Seq<(Seq<char>, Seq<usize>)>) -> Result<
    Seq<u8>,
    IndexWriterErrorModel,
>
    decreases ps.len(),
{
    if ps.len() == 0 {
        Ok(Seq::empty())
    } else {
        match spec_encode_entry(ps[0].0, ps[0].1) {
            Ok(head) => match spec_encode_terms(ps.skip(1)) {
                Ok(rest) => Ok(head + rest),
                Err(e) => Err(e),
            },
            Err(e) => Err(e),
        }
    }
}

/// Encodes the documents: each content's UTF-8 byte length as a `u32`,
/// then its bytes, in insertion order.
pub open spec fn spec_encode_docs(docs: Seq<Seq<char>>) -> Result<Seq<u8>, IndexWriterErrorModel>
    decreases docs.len(),
{
    if docs.len() == 0 {
        Ok(Seq::empty())
    } else {
        let cb = encode_utf8(docs[0]);
        if cb.len() > u32::MAX {
            Err(IndexWriterErrorModel::DocLength { content_len: cb.len() as int })
        } else {
            match spec_encode_docs(docs.skip(1)) {
                Ok(rest) => Ok(be_u32_bytes(cb.len() as u32) + cb + rest),
                Err(e) => Err(e),
            }
        }
    }
}

/// What serializing an index model yields: its complete wire encoding, or
/// the first count or length that does not fit its wire width, in writing
/// order.
pub open spec fn spec_write(m: IndexModel) -> Result<Seq<u8>, IndexWriterErrorModel> {
    if m.postings.len() > u32::MAX {
        Err(IndexWriterErrorModel::PostingsLength { len: m.postings.len() as int })
    } else {
        match spec_encode_terms(m.postings) {
            Err(e) => Err(e),
            Ok(tb) => {
                if m.docs.len() > u32::MAX {
                    Err(IndexWriterErrorModel::NumberOfDocs { num_docs: m.docs.len() as int })
                } else {
                    match spec_encode_docs(m.docs) {
                        Err(e) => Err(e),
                        Ok(db) => Ok(
                            be_u32_bytes(m.postings.len() as u32) + tb + be_u32_bytes(
                                m.docs.len() as u32,
                            ) + db,
                        ),
                    }
                }
            },
        }
    }
}

impl IndexWriter {
    /// Serializes the accumulated index to the wire format. Succeeds with
    /// the complete encoding exactly when every count and length fits its
    /// wire width; otherwise names the first offender in writing order.
    #[verifier::rlimit(60)]
    pub fn write(&self) -> (r: Result<Vec<u8>, IndexWriterError>)
        ensures
            match r {
                Ok(bytes) => spec_write(self@) == Ok::<_, IndexWriterErrorModel>(bytes@),
                Err(e) => spec_write(self@) == Err::<Seq<u8>, _>(e@),
            },
    {
        let ghost ps = self@.postings;
        let ghost dv = self@.docs;
        let mut out: Vec<u8> = Vec::new();
        let nterms = self.postings.entries.len();
        if nterms > (u32::MAX as usize) {
            return Err(IndexWriterError::UnableToDownCastPostingsLength { len: nterms });
        }
        push_u32_be(&mut out, nterms as u32);
        proof {
            assert(out@.take(4) =~= be_u32_bytes(nterms as u32));
            assert(out@.skip(4) =~= Seq::<u8>::empty());
            assert(ps.skip(0) =~= ps);
        }
        let mut i: usize = 0;
        while i < self.postings.entries.len()
            invariant
                i <= ps.len(),
                out@.len() >= 4,
                out@.take(4) == be_u32_bytes(nterms as u32),
                (match spec_encode_terms(ps.skip(i as int)) {
                    Ok(rest) => spec_encode_terms(ps) == Ok::<_, IndexWriterErrorModel>(
                        out@.skip(4) + rest,
                    ),
                    Err(e) => spec_encode_terms(ps) == Err::<Seq<u8>, _>(e),
                }),
            decreases ps.len() - i,
        {
            let ghost rest0 = ps.skip(i as int);
            let ghost seg0 = out@.skip(4);
            proof {
                assert(rest0[0] == ps[i as int]);
                assert(rest0.skip(1) =~= ps.skip(i as int + 1));
            }
            let term = &self.postings.entries[i].0;
            let ids = &self.postings.entries[i].1;
            proof {
                assert(ps[i as int].0 == term@ && ps[i as int].1 == ids@);
            }
            let tb = term.as_str().as_bytes();
            proof {
                assert(tb@ == encode_utf8(term@));
            }
            let tlen = tb.len();
            if tlen > (u16::MAX as usize) {
                proof {
                    let e = IndexWriterErrorModel::TermLength {
                        term: term@,
                        len: tb@.len() as int,
                    };
                    assert(spec_encode_entry(rest0[0].0, rest0[0].1) == Err::<Seq<u8>, _>(e));
                    assert(spec_encode_terms(rest0) == Err::<Seq<u8>, _>(e));
                }
                return Err(
                    IndexWriterError::UnableToDownCastTermLength { term: term.clone(), len: tlen },
                );
            }
            push_u16_be(&mut out, tlen as u16);
            push_bytes(&mut out, tb);
            let ndocs = ids.len();
            if ndocs > (u32::MAX as usize) {
                proof {
                    let e = IndexWriterErrorModel::NumberOfDocIds { num_docs: ids@.len() as int };
                    assert(spec_encode_entry(rest0[0].0, rest0[0].1) == Err::<Seq<u8>, _>(e));
                    assert(spec_encode_terms(rest0) == Err::<Seq<u8>, _>(e));
                }
                return Err(IndexWriterError::UnableToDownCastNumberOfDocIds { num_docs: ndocs });
            }
            push_u32_be(&mut out, ndocs as u32);
            let ghost pre_ids = out@;
            let ghost mark = out@.len() as int;
            proof {
                assert(out@.skip(mark) =~= Seq::<u8>::empty());
                assert(ids@.skip(0) =~= ids@);
            }
            let mut j: usize = 0;
            while j < ids.len()
                invariant
                    j <= ids@.len(),
                    out@.len() >= mark,
                    out@.take(mark) == pre_ids,
                    (match spec_encode_ids(ids@.skip(j as int)) {
                        Ok(rest) => spec_encode_ids(ids@) == Ok::<_, IndexWriterErrorModel>(
                            out@.skip(mark) + rest,
                        ),
                        Err(e) => spec_encode_ids(ids@) == Err::<Seq<u8>, _>(e),
                    }),
                decreases ids@.len() - j,
            {
                let ghost lrest = ids@.skip(j as int);
                let ghost idseg = out@.skip(mark);
                proof {
                    assert(lrest[0] == ids@[j as int]);
                    assert(lrest.skip(1) =~= ids@.skip(j as int + 1));
                }
                let id = ids[j];
                if id > (u32::MAX as usize) {
                    proof {
                        let e = IndexWriterErrorModel::DocId { doc_id: id as int };
                        assert(spec_encode_ids(lrest) == Err::<Seq<u8>, _>(e));
                        assert(spec_encode_entry(rest0[0].0, rest0[0].1) == Err::<Seq<u8>, _>(e));
                        assert(spec_encode_terms(rest0) == Err::<Seq<u8>, _>(e));
                    }
                    return Err(IndexWriterError::UnableToDownCastDocId { doc_id: id });
                }
                push_u32_be(&mut out, id as u32);
                j += 1;
                proof {
                    assert(out@.take(mark) =~= pre_ids);
                    assert(out@.skip(mark) =~= idseg + be_u32_bytes(id as u32));
                    match spec_encode_ids(ids@.skip(j as int)) {
                        Ok(rest) => {
                            assert(idseg + (be_u32_bytes(id as u32) + rest) =~= out@.skip(mark)
                                + rest);
                        },
                        Err(e) => {},
                    }
                }
            }
            proof {
                assert(ids@.skip(ids@.len() as int) =~= Seq::<usize>::empty());
                assert(out@.skip(mark) + Seq::<u8>::empty() =~= out@.skip(mark));
                assert(spec_encode_ids(ids@) == Ok::<_, IndexWriterErrorModel>(out@.skip(mark)));
                // The bytes this entry contributed are exactly its record.
                assert(out@ =~= pre_ids + out@.skip(mark));
                assert(pre_ids =~= out@.take(4) + seg0 + be_u16_bytes(tlen as u16) + tb@
                    + be_u32_bytes(ndocs as u32));
                let head = be_u16_bytes(tb@.len() as u16) + tb@ + be_u32_bytes(
                    ids@.len() as u32,
                ) + out@.skip(mark);
                assert(spec_encode_entry(rest0[0].0, rest0[0].1) == Ok::<
                    _,
                    IndexWriterErrorModel,
                >(head));
                assert(out@.skip(4) =~= seg0 + head);
                match spec_encode_terms(ps.skip(i as int + 1)) {
                    Ok(rest) => {
                        assert(seg0 + (head + rest) =~= out@.skip(4) + rest);
                    },
                    Err(e) => {},
                }
            }
            i += 1;
        }
        proof {
            assert(ps.skip(ps.len() as int) =~= Seq::<(Seq<char>, Seq<usize>)>::empty());
            assert(out@.skip(4) + Seq::<u8>::empty() =~= out@.skip(4));
            assert(spec_encode_terms(ps) == Ok::<_, IndexWriterErrorModel>(out@.skip(4)));
        }
        let ghost tbytes = out@.skip(4);
        let ghost pre_count = out@;
        let ndocs_total = self.docs.len();
        if ndocs_total > (u32::MAX as usize) {
            return Err(IndexWriterError::UnableToDownCastNumberOfDocs { num_docs: ndocs_total });
        }
        push_u32_be(&mut out, ndocs_total as u32);
        let ghost pre_docs = out@;
        let ghost dmark = out@.len() as int;
        proof {
            assert(out@.skip(dmark) =~= Seq::<u8>::empty());
            assert(dv.skip(0) =~= dv);
        }
        let mut d: usize = 0;
        while d < self.docs.len()
            invariant
                d <= dv.len(),
                out@.len() >= dmark,
                out@.take(dmark) == pre_docs,
                (match spec_encode_docs(dv.skip(d as int)) {
                    Ok(rest) => spec_encode_docs(dv) == Ok::<_, IndexWriterErrorModel>(
                        out@.skip(dmark) + rest,
                    ),
                    Err(e) => spec_encode_docs(dv) == Err::<Seq<u8>, _>(e),
                }),
            decreases dv.len() - d,
        {
            let ghost drest = dv.skip(d as int);
            let ghost dseg = out@.skip(dmark);
            proof {
                assert(drest[0] == dv[d as int]);
                assert(drest.skip(1) =~= dv.skip(d as int + 1));
            }
            let content = &self.docs[d].content;
            proof {
                assert(dv[d as int] == content@);
            }
            let cb = content.as_str().as_bytes();
            proof {
                assert(cb@ == encode_utf8(content@));
            }
            let clen = cb.len();
            if clen > (u32::MAX as usize) {
                proof {
                    let e = IndexWriterErrorModel::DocLength { content_len: cb@.len() as int };
                    assert(spec_encode_docs(drest) == Err::<Seq<u8>, _>(e));
                }
                return Err(IndexWriterError::UnableToDownCastDocLength { content_len: clen });
            }
            push_u32_be(&mut out, clen as u32);
            push_bytes(&mut out, cb);
            d += 1;
            proof {
                assert(out@.take(dmark) =~= pre_docs);
                assert(out@.skip(dmark) =~= dseg + be_u32_bytes(clen as u32) + cb@);
                match spec_encode_docs(dv.skip(d as int)) {
                    Ok(rest) => {
                        assert(dseg + (be_u32_bytes(clen as u32) + cb@ + rest) =~= out@.skip(
                            dmark,
                        ) + rest);
                    },
                    Err(e) => {},
                }
            }
        }
        proof {
            assert(dv.skip(dv.len() as int) =~= Seq::<Seq<char>>::empty());
            assert(out@.skip(dmark) + Seq::<u8>::empty() =~= out@.skip(dmark));
            assert(spec_encode_docs(dv) == Ok::<_, IndexWriterErrorModel>(out@.skip(dmark)));
            assert(out@ =~= pre_docs + out@.skip(dmark));
            assert(pre_docs =~= pre_count + be_u32_bytes(ndocs_total as u32));
            assert(pre_count =~= be_u32_bytes(nterms as u32) + tbytes);
            assert(out@ =~= be_u32_bytes(ps.len() as u32) + tbytes + be_u32_bytes(
                dv.len() as u32,
            ) + out@.skip(dmark));
        }
        Ok(out)
    }
}

/// A subrange of bytes that match `enc` at `pos` is the corresponding
/// subrange of `enc`.
proof fn lemma_subrange_of_matching(bytes: Seq<u8>, pos: int, enc: Seq<u8>, a: int, b: int)
    requires
        0 <= pos,
        pos + enc.len() <= bytes.len(),
        bytes.subrange(pos, pos + enc.len()) == enc,
        0 <= a <= b <= enc.len(),
    ensures
        bytes.subrange(pos + a, pos + b) == enc.subrange(a, b),
{
    assert forall|k: int| 0 <= k < b - a implies bytes.subrange(pos + a, pos + b)[k]
        == enc.subrange(a, b)[k] by {
        assert(bytes.subrange(pos, pos + enc.len())[a + k] == enc[a + k]);
    }
    assert(bytes.subrange(pos + a, pos + b) =~= enc.subrange(a, b));
}

/// Parsing an encoded posting list at its position gives the list back and
/// stops just past it.
proof fn lemma_parse_ids_round_trip(
    bytes: Seq<u8>,
    pos: int,
    ids: Seq<usize>,
    term: Seq<char>,
    term_id: u32,
    doc_index: u32,
    enc: Seq<u8>,
)
    requires
        spec_encode_ids(ids) == Ok::<_, IndexWriterErrorModel>(enc),
        0 <= pos,
        pos + enc.len() <= bytes.len(),
        bytes.subrange(pos, pos + enc.len()) == enc,
        ids.len() + doc_index <= u32::MAX,
    ensures
        spec_parse_ids(bytes, pos, term, term_id, doc_index, ids.len() as u32) == Ok::<
            _,
            IndexErrorModel,
        >((ids, pos + enc.len())),
    decreases ids.len(),
{
    if ids.len() == 0 {
        assert(ids =~= Seq::<usize>::empty());
    } else {
        match spec_encode_ids(ids.skip(1)) {
            Ok(rest_enc) => {
                assert(enc == be_u32_bytes(ids[0] as u32) + rest_enc);
                assert(enc.len() == 4 + rest_enc.len());
                lemma_subrange_of_matching(bytes, pos, enc, 0, 4);
                assert(enc.subrange(0, 4) =~= be_u32_bytes(ids[0] as u32));
                lemma_be_u32_round_trip(ids[0] as u32);
                assert(be_u32(bytes.subrange(pos, pos + 4)) == ids[0] as u32);
                lemma_subrange_of_matching(bytes, pos, enc, 4, enc.len() as int);
                assert(enc.subrange(4, enc.len() as int) =~= rest_enc);
                assert(bytes.subrange(pos + 4, pos + 4 + rest_enc.len()) == rest_enc);
                lemma_parse_ids_round_trip(
                    bytes,
                    pos + 4,
                    ids.skip(1),
                    term,
                    term_id,
                    (doc_index + 1) as u32,
                    rest_enc,
                );
                assert(seq![ids[0]] + ids.skip(1) =~= ids);
                assert((ids.len() - 1) as u32 == ids.skip(1).len() as u32);
            },
            Err(e) => {
                assert(false);
            },
        }
    }
}

/// Parsing an encoded term block at its position gives the postings back
/// and stops just past the block.
proof fn lemma_parse_terms_round_trip(
    bytes: Seq<u8>,
    pos: int,
    ps: Seq<(Seq<char>, Seq<usize>)>,
    term_id: u32,
    enc: Seq<u8>,
)
    requires
        spec_encode_terms(ps) == Ok::<_, IndexWriterErrorModel>(enc),
        0 <= pos,
        pos + enc.len() <= bytes.len(),
        bytes.subrange(pos, pos + enc.len()) == enc,
        ps.len() + term_id <= u32::MAX,
    ensures
        spec_parse_terms(bytes, pos, term_id, ps.len() as u32) == Ok::<_, IndexErrorModel>(
            (ps, pos + enc.len()),
        ),
    decreases ps.len(),
{
    if ps.len() == 0 {
        assert(ps =~= Seq::<(Seq<char>, Seq<usize>)>::empty());
    } else {
        let term = ps[0].0;
        let ids = ps[0].1;
        let tb = encode_utf8(term);
        match spec_encode_entry(term, ids) {
            Ok(head) => {
                match spec_encode_ids(ids) {
                    Ok(idbytes) => {
                        assert(head == be_u16_bytes(tb.len() as u16) + tb + be_u32_bytes(
                            ids.len() as u32,
                        ) + idbytes);
                        match spec_encode_terms(ps.skip(1)) {
                            Ok(rest_enc) => {
                                assert(enc == head + rest_enc);
                                let hlen = head.len() as int;
                                assert(enc.len() == hlen + rest_enc.len());
                                // The term length field.
                                lemma_subrange_of_matching(bytes, pos, enc, 0, 2);
                                assert(enc.subrange(0, 2) =~= be_u16_bytes(tb.len() as u16));
                                lemma_be_u16_round_trip(tb.len() as u16);
                                assert(be_u16(bytes.subrange(pos, pos + 2)) as int
                                    == tb.len() as int);
                                // The term bytes.
                                let p1 = pos + 2;
                                lemma_subrange_of_matching(bytes, pos, enc, 2, 2 + tb.len() as int);
                                assert(enc.subrange(2, 2 + tb.len() as int) =~= tb);
                                assert(bytes.subrange(p1, p1 + tb.len() as int) == tb);
                                vstd::utf8::encode_utf8_valid_utf8(term);
                                vstd::utf8::encode_utf8_decode_utf8(term);
                                assert(valid_utf8(bytes.subrange(p1, p1 + tb.len() as int)));
                                assert(decode_utf8(bytes.subrange(p1, p1 + tb.len() as int))
                                    == term);
                                // The identifier count field.
                                let p2 = p1 + tb.len() as int;
                                lemma_subrange_of_matching(
                                    bytes,
                                    pos,
                                    enc,
                                    2 + tb.len() as int,
                                    6 + tb.len() as int,
                                );
                                assert(enc.subrange(2 + tb.len() as int, 6 + tb.len() as int)
                                    =~= be_u32_bytes(ids.len() as u32));
                                lemma_be_u32_round_trip(ids.len() as u32);
                                assert(be_u32(bytes.subrange(p2, p2 + 4)) == ids.len() as u32);
                                // The identifiers.
                                let p3 = p2 + 4;
                                lemma_subrange_of_matching(
                                    bytes,
                                    pos,
                                    enc,
                                    6 + tb.len() as int,
                                    hlen,
                                );
                                assert(enc.subrange(6 + tb.len() as int, hlen) =~= idbytes);
                                assert(bytes.subrange(p3, p3 + idbytes.len()) == idbytes);
                                lemma_parse_ids_round_trip(
                                    bytes,
                                    p3,
                                    ids,
                                    term,
                                    term_id,
                                    0,
                                    idbytes,
                                );
                                // The remaining term records.
                                lemma_subrange_of_matching(bytes, pos, enc, hlen, enc.len() as int);
                                assert(enc.subrange(hlen, enc.len() as int) =~= rest_enc);
                                assert(bytes.subrange(pos + hlen, pos + hlen + rest_enc.len())
                                    == rest_enc);
                                lemma_parse_terms_round_trip(
                                    bytes,
                                    pos + hlen,
                                    ps.skip(1),
                                    (term_id + 1) as u32,
                                    rest_enc,
                                );
                                assert(p3 + idbytes.len() == pos + hlen);
                                assert(seq![(term, ids)] + ps.skip(1) =~= ps);
                                assert((ps.len() - 1) as u32 == ps.skip(1).len() as u32);
                            },
                            Err(e) => {
                                assert(false);
                            },
                        }
                    },
                    Err(e) => {
                        assert(false);
                    },
                }
            },
            Err(e) => {
                assert(false);
            },
        }
    }
}

/// Parsing an encoded document block at its position gives the documents
/// back and stops just past the block.
proof fn lemma_parse_docs_round_trip(
    bytes: Seq<u8>,
    pos: int,
    docs: Seq<Seq<char>>,
    doc_id: u32,
    enc: Seq<u8>,
)
    requires
        spec_encode_docs(docs) == Ok::<_, IndexWriterErrorModel>(enc),
        0 <= pos,
        pos + enc.len() <= bytes.len(),
        bytes.subrange(pos, pos + enc.len()) == enc,
        docs.len() + doc_id <= u32::MAX,
    ensures
        spec_parse_docs(bytes, pos, doc_id, docs.len() as u32) == Ok::<_, IndexErrorModel>(
            (docs, pos + enc.len()),
        ),
    decreases docs.len(),
{
    if docs.len() == 0 {
        assert(docs =~= Seq::<Seq<char>>::empty());
    } else {
        let cb = encode_utf8(docs[0]);
        match spec_encode_docs(docs.skip(1)) {
            Ok(rest_enc) => {
                assert(enc == be_u32_bytes(cb.len() as u32) + cb + rest_enc);
                assert(enc.len() == 4 + cb.len() + rest_enc.len());
                lemma_subrange_of_matching(bytes, pos, enc, 0, 4);
                assert(enc.subrange(0, 4) =~= be_u32_bytes(cb.len() as u32));
                lemma_be_u32_round_trip(cb.len() as u32);
                assert(be_u32(bytes.subrange(pos, pos + 4)) == cb.len() as u32);
                let p1 = pos + 4;
                lemma_subrange_of_matching(bytes, pos, enc, 4, 4 + cb.len() as int);
                assert(enc.subrange(4, 4 + cb.len() as int) =~= cb);
                assert(bytes.subrange(p1, p1 + cb.len() as int) == cb);
                vstd::utf8::encode_utf8_valid_utf8(docs[0]);
                vstd::utf8::encode_utf8_decode_utf8(docs[0]);
                lemma_subrange_of_matching(bytes, pos, enc, 4 + cb.len() as int, enc.len() as int);
                assert(enc.subrange(4 + cb.len() as int, enc.len() as int) =~= rest_enc);
                assert(bytes.subrange(p1 + cb.len() as int, p1 + cb.len() as int + rest_enc.len())
                    == rest_enc);
                lemma_parse_docs_round_trip(
                    bytes,
                    p1 + cb.len() as int,
                    docs.skip(1),
                    (doc_id + 1) as u32,
                    rest_enc,
                );
                assert(seq![docs[0]] + docs.skip(1) =~= docs);
                assert((docs.len() - 1) as u32 == docs.skip(1).len() as u32);
            },
            Err(e) => {
                assert(false);
            },
        }
    }
}

/// The codec round-trip law: whenever an index model serializes, decoding
/// the bytes reproduces exactly that model — every document content and
/// every posting list, in the same order.
pub proof fn lemma_write_read_round_trip(m: IndexModel)
    ensures
        spec_write(m) matches Ok(bytes) ==> spec_read(bytes) == Ok::<_, IndexErrorModel>(m),
{
    if spec_write(m) is Ok {
        match spec_encode_terms(m.postings) {
            Ok(tb) => {
                match spec_encode_docs(m.docs) {
                    Ok(db) => {
                        let bytes = be_u32_bytes(m.postings.len() as u32) + tb + be_u32_bytes(
                            m.docs.len() as u32,
                        ) + db;
                        assert(spec_write(m) == Ok::<_, IndexWriterErrorModel>(bytes));
                        let p = 4 + tb.len() as int;
                        assert(bytes.len() == p + 4 + db.len());
                        // The term count field.
                        assert(bytes.subrange(0, 4) =~= be_u32_bytes(m.postings.len() as u32));
                        lemma_be_u32_round_trip(m.postings.len() as u32);
                        assert(be_u32(bytes.subrange(0, 4)) == m.postings.len() as u32);
                        // The term block.
                        assert(bytes.subrange(4, p) =~= tb);
                        lemma_parse_terms_round_trip(bytes, 4, m.postings, 0, tb);
                        assert(spec_parse_terms(bytes, 4, 0, m.postings.len() as u32) == Ok::<
                            _,
                            IndexErrorModel,
                        >((m.postings, p)));
                        // The document count field.
                        assert(bytes.subrange(p, p + 4) =~= be_u32_bytes(m.docs.len() as u32));
                        lemma_be_u32_round_trip(m.docs.len() as u32);
                        assert(be_u32(bytes.subrange(p, p + 4)) == m.docs.len() as u32);
                        // The document block.
                        assert(bytes.subrange(p + 4, p + 4 + db.len()) =~= db);
                        lemma_parse_docs_round_trip(bytes, p + 4, m.docs, 0, db);
                        assert(spec_read(bytes) == Ok::<_, IndexErrorModel>(
                            IndexModel { docs: m.docs, postings: m.postings },
                        ));
                        assert(m == IndexModel { docs: m.docs, postings: m.postings });
                    },
                    Err(e) => {
                        assert(false);
                    },
                }
            },
            Err(e) => {
                assert(false);
            },
        }
    }
}

} // verus!
