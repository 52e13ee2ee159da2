//! Relevance: the BM25 index over the chunks of a context, and the order of hits.
use vstd::prelude::*;

use crate::order;
use crate::text;

verus! {

// ---------------------------------------------------------------------------
// The index
// ---------------------------------------------------------------------------

/// A `bm25::SearchEngine` over documents that are numbered.
#[derive(Debug)]
#[verifier::external_body]
pub struct Bm25Index {
    engine: bm25::SearchEngine<usize>,
}

/// The documents that an index holds, by number.
pub uninterp spec fn bm25_documents(index: Bm25Index) -> Map<usize, Seq<char>>;

/// The numbers of the documents of an index that have a token in common with a query, where
/// tokens count as the same if their hashes are.
pub uninterp spec fn bm25_relevant(index: Bm25Index, query: Seq<char>) -> Set<usize>;

/// Whether `SearchEngine::search` may answer this to a query, asked for up to `limit`
/// documents: their numbers, each with the bits of its score. Of one query there may be
/// several answers.
pub uninterp spec fn bm25_gives(
    index: Bm25Index,
    query: Seq<char>,
    limit: nat,
    found: Seq<(usize, u32)>,
) -> bool;

/// What documents hold, as a map from number to text.
pub open spec fn document_map(docs: Seq<(usize, String)>) -> Map<usize, Seq<char>>
    decreases docs.len(),
{
    if docs.len() == 0 {
        Map::empty()
    } else {
        document_map(docs.drop_last()).insert(docs.last().0, docs.last().1@)
    }
}

/// The greatest bit pattern of a single-precision number that is neither negative nor
/// not a number. Up to it, the order of the bit patterns is that of the numbers.
pub const MAX_SCORE_BITS: u32 = 0x7F80_0000;

/// Builds a `bm25::SearchEngine` for English with `SearchEngineBuilder::with_documents`
/// and `build`. The engine holds the documents; where a number occurs twice, the later
/// document replaces the earlier one.
#[verifier::external_body]
pub(crate) fn build_index(docs: Vec<(usize, String)>) -> (r: Bm25Index)
    ensures
        bm25_documents(r) == document_map(docs@),
{
    let documents: Vec<bm25::Document<usize>> = docs
        .into_iter()
        .map(|(id, contents)| bm25::Document { id, contents })
        .collect();
    let engine = bm25::SearchEngineBuilder::<usize>::with_documents(
        bm25::Language::English,
        documents,
    ).build();
    Bm25Index { engine }
}

/// What holds of every answer of `SearchEngine::search`: it has the numbers of as many
/// relevant documents as there are, up to `limit`, none twice, each with the bits of its
/// score, the best first. Scores are not negative. Which of several documents with one score
/// come first, or come at all, is open.
pub open spec fn bm25_answer(
    documents: Set<usize>,
    relevant: Set<usize>,
    limit: nat,
    found: Seq<(usize, u32)>,
) -> bool {
    &&& relevant.finite()
    &&& relevant.subset_of(documents)
    &&& found.len() == text::min_int(limit as int, relevant.len() as int)
    &&& forall|i: int| 0 <= i < found.len() ==> relevant.contains((#[trigger] found[i]).0)
    &&& forall|i: int, j: int|
        0 <= i < j < found.len() ==> (#[trigger] found[i]).0 != (#[trigger] found[j]).0
    &&& scores_descend(found)
}

/// Whether scores are not negative and none is greater than one before it.
pub open spec fn scores_descend(found: Seq<(usize, u32)>) -> bool {
    &&& forall|i: int| 0 <= i < found.len() ==> (#[trigger] found[i]).1 <= MAX_SCORE_BITS
    &&& forall|i: int, j: int|
        0 <= i < j < found.len() ==> (#[trigger] found[i]).1 >= (#[trigger] found[j]).1
}

/// Calls `SearchEngine::search`. The claim is that the result is one that the call may give,
/// and what [`bm25_answer`] says of it. The value of a score is left open: it goes through
/// `f32::ln`, whose precision the standard library leaves open from one call to the next.
#[verifier::external_body]
pub(crate) fn search_index(index: &Bm25Index, query: &str, limit: usize) -> (r: Vec<(usize, u32)>)
    ensures
        bm25_gives(*index, query@, limit as nat, r@),
        bm25_answer(
            bm25_documents(*index).dom(),
            bm25_relevant(*index, query@),
            limit as nat,
            r@,
        ),
{
    index.engine.search(query, limit).into_iter().map(
        |hit| (hit.document.id, hit.score.to_bits()),
    ).collect()
}

// ---------------------------------------------------------------------------
// The order of answers
// ---------------------------------------------------------------------------

/// The score bits of an answer, as a key to order answers by.
pub open spec fn found_key() -> spec_fn((usize, u32)) -> int {
    |item: (usize, u32)| item.1 as int
}

/// The `k` best answers, the best first. Those with one score keep their order.
pub open spec fn best_found(found: Seq<(usize, u32)>, k: int) -> Seq<(usize, u32)> {
    order::best(found, found_key(), k)
}

/// Puts answers in order, the best first, and keeps the `k` best.
pub fn keep_best_found(found: &Vec<(usize, u32)>, k: usize) -> (r: Vec<(usize, u32)>)
    ensures
        r@ == best_found(found@, k as int),
{
    let mut sorted: Vec<(usize, u32)> = Vec::new();
    let mut i: usize = 0;
    proof {
        assert(found@.take(0) =~= Seq::<(usize, u32)>::empty());
    }
    while i < found.len()
        invariant
            i <= found@.len(),
            sorted@.len() == i,
            sorted@ == order::ranked(found@.take(i as int), found_key()),
        decreases found@.len() - i,
    {
        let item: (usize, u32) = (found[i].0, found[i].1);
        let ghost prev = sorted@;
        let mut pos: usize = sorted.len();
        while pos > 0 && sorted[pos - 1].1 < item.1
            invariant
                pos <= sorted@.len(),
                prev == sorted@,
                forall|j: int|
                    pos <= j < prev.len() ==> found_key()(#[trigger] prev[j]) < found_key()(item),
            decreases pos,
        {
            pos -= 1;
        }
        proof {
            order::lemma_placed_at(prev, found_key(), item, pos as int);
            assert(found@.take(i + 1).drop_last() =~= found@.take(i as int));
            assert(found@.take(i + 1).last() == item);
        }
        sorted.insert(pos, item);
        i += 1;
    }
    proof {
        assert(found@.take(i as int) =~= found@);
        order::law_ranked(found@, found_key(), 0);
    }
    let ghost full = sorted@;
    sorted.truncate(k);
    proof {
        assert(sorted@ =~= full.take(text::min_int(k as int, found@.len() as int)));
    }
    sorted
}

} // verus!
