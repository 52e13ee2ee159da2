//! What a context answers with: hits, chunk texts and summaries.
use vstd::prelude::*;

use crate::order;
use crate::text;

verus! {

/// How a query is matched against chunks.
#[derive(Clone, Copy, Debug, PartialEq, Eq, Structural)]
pub enum SearchMode {
    Bm25,
    Substring,
    Regex,
}

impl Default for SearchMode {
    fn default() -> (r: SearchMode)
        ensures
            r == SearchMode::Bm25,
    {
        SearchMode::Bm25
    }
}

/// How well a chunk matches a query.
#[derive(Clone, Copy, Debug, PartialEq, Eq, Structural)]
pub enum Score {
    /// The number of matches in the chunk.
    Matches(usize),
    /// The bits of a single-precision relevance score that is not negative.
    Relevance(u32),
}

/// The place of a score in the order of scores of its kind.
pub open spec fn rank(score: Score) -> int {
    match score {
        Score::Matches(n) => n as int,
        Score::Relevance(bits) => bits as int,
    }
}

/// The place of a score in the order of scores of its kind.
pub fn score_rank(score: Score) -> (r: u64)
    ensures
        r == rank(score),
{
    match score {
        Score::Matches(n) => n as u64,
        Score::Relevance(bits) => bits as u64,
    }
}

/// A chunk that matches a query.
#[derive(Debug)]
pub struct SearchHit {
    pub chunk_id: String,
    pub section_path: Option<String>,
    pub source_file: Option<String>,
    pub score: Score,
    pub preview: String,
}

impl Clone for SearchHit {
    fn clone(&self) -> (r: SearchHit)
        ensures
            r == *self,
    {
        SearchHit {
            chunk_id: self.chunk_id.clone(),
            section_path: self.section_path.clone(),
            source_file: self.source_file.clone(),
            score: self.score,
            preview: self.preview.clone(),
        }
    }
}

/// What a [`SearchHit`] holds.
#[verifier::ext_equal]
pub struct HitView {
    pub chunk_id: Seq<char>,
    pub section_path: Option<Seq<char>>,
    pub source_file: Option<Seq<char>>,
    pub score: Score,
    pub preview: Seq<char>,
}

impl View for SearchHit {
    type V = HitView;

    open spec fn view(&self) -> HitView {
        HitView {
            chunk_id: self.chunk_id@,
            section_path: text::opt_view(self.section_path),
            source_file: text::opt_view(self.source_file),
            score: self.score,
            preview: self.preview@,
        }
    }
}

/// What a list of hits holds.
pub open spec fn hit_views(v: Seq<SearchHit>) -> Seq<HitView> {
    Seq::new(v.len(), |i: int| v[i]@)
}

/// What was read of a chunk or of a byte range.
#[derive(Debug)]
pub struct ChunkData {
    pub chunk_id: String,
    pub text: String,
    pub truncated: bool,
    pub total_chars: usize,
    pub section_path: Option<String>,
    pub source_file: Option<String>,
}

impl Clone for ChunkData {
    fn clone(&self) -> (r: ChunkData)
        ensures
            r == *self,
    {
        ChunkData {
            chunk_id: self.chunk_id.clone(),
            text: self.text.clone(),
            truncated: self.truncated,
            total_chars: self.total_chars,
            section_path: self.section_path.clone(),
            source_file: self.source_file.clone(),
        }
    }
}

/// What a [`ChunkData`] holds.
#[verifier::ext_equal]
pub struct DataView {
    pub chunk_id: Seq<char>,
    pub text: Seq<char>,
    pub truncated: bool,
    pub total_chars: int,
    pub section_path: Option<Seq<char>>,
    pub source_file: Option<Seq<char>>,
}

impl View for ChunkData {
    type V = DataView;

    open spec fn view(&self) -> DataView {
        DataView {
            chunk_id: self.chunk_id@,
            text: self.text@,
            truncated: self.truncated,
            total_chars: self.total_chars as int,
            section_path: text::opt_view(self.section_path),
            source_file: text::opt_view(self.source_file),
        }
    }
}

/// What an optional [`ChunkData`] holds.
pub open spec fn opt_data_view(o: Option<ChunkData>) -> Option<DataView> {
    match o {
        Some(d) => Some(d@),
        None => None,
    }
}

/// What a list of chunk texts holds.
pub open spec fn data_views(v: Seq<ChunkData>) -> Seq<DataView> {
    Seq::new(v.len(), |i: int| v[i]@)
}

/// What a context is summarised as.
#[derive(Debug)]
pub struct ContextSummary {
    pub name: String,
    pub source: String,
    pub total_chars: usize,
    pub total_tokens: usize,
    pub n_chunks: usize,
}

impl Clone for ContextSummary {
    fn clone(&self) -> (r: ContextSummary)
        ensures
            r == *self,
    {
        ContextSummary {
            name: self.name.clone(),
            source: self.source.clone(),
            total_chars: self.total_chars,
            total_tokens: self.total_tokens,
            n_chunks: self.n_chunks,
        }
    }
}

/// What a [`ContextSummary`] holds.
#[verifier::ext_equal]
pub struct SummaryView {
    pub name: Seq<char>,
    pub source: Seq<char>,
    pub total_chars: int,
    pub total_tokens: int,
    pub n_chunks: int,
}

impl View for ContextSummary {
    type V = SummaryView;

    open spec fn view(&self) -> SummaryView {
        SummaryView {
            name: self.name@,
            source: self.source@,
            total_chars: self.total_chars as int,
            total_tokens: self.total_tokens as int,
            n_chunks: self.n_chunks as int,
        }
    }
}

/// What a list of summaries holds.
pub open spec fn summary_views(v: Seq<ContextSummary>) -> Seq<SummaryView> {
    Seq::new(v.len(), |i: int| v[i]@)
}

// ---------------------------------------------------------------------------
// The order of hits
// ---------------------------------------------------------------------------

/// The rank of a hit's score, as a key to order hits by.
pub open spec fn hit_key() -> spec_fn(HitView) -> int {
    |hit: HitView| rank(hit.score)
}

/// The `k` best hits, the best first. Those with one score keep their order.
pub open spec fn best_hits(hits: Seq<HitView>, k: int) -> Seq<HitView> {
    order::best(hits, hit_key(), k)
}

/// Puts hits in order, the best first, and keeps the `k` best.
pub fn keep_best(hits: Vec<SearchHit>, k: usize) -> (r: Vec<SearchHit>)
    ensures
        hit_views(r@) == best_hits(hit_views(hits@), k as int),
{
    let ghost all = hit_views(hits@);
    let ghost given = hits@;
    let mut sorted: Vec<SearchHit> = Vec::new();
    proof {
        assert(all.take(0) =~= Seq::<HitView>::empty());
        assert(hit_views(sorted@) =~= best_hits(all.take(0), k as int));
    }
    for hit in it: hits
        invariant
            it.seq() == given,
            all == hit_views(given),
            0 <= it.index() <= all.len(),
            hit_views(sorted@) == best_hits(all.take(it.index() as int), k as int),
    {
        let ghost i = it.index() as int;
        let ghost prev = hit_views(sorted@);
        assert(hit@ == all[i]);
        let r: u64 = score_rank(hit.score);
        let mut pos: usize = sorted.len();
        while pos > 0 && score_rank(sorted[pos - 1].score) < r
            invariant
                pos <= sorted@.len(),
                prev == hit_views(sorted@),
                r == rank(hit@.score),
                forall|j: int|
                    pos <= j < prev.len() ==> rank((#[trigger] prev[j]).score) < rank(hit@.score),
            decreases pos,
        {
            proof {
                assert(prev[pos - 1] == sorted@[pos - 1]@);
            }
            pos -= 1;
        }
        proof {
            if pos > 0 {
                assert(prev[pos - 1] == sorted@[pos - 1]@);
            }
            order::lemma_placed_at(prev, hit_key(), hit@, pos as int);
            order::law_best_so_far(all.take(i), hit_key(), hit@, k as int);
            assert(all.take(i + 1) =~= all.take(i).push(hit@));
        }
        let ghost h = hit@;
        sorted.insert(pos, hit);
        let ghost full = hit_views(sorted@);
        proof {
            assert(full =~= prev.insert(pos as int, h));
        }
        sorted.truncate(k);
        proof {
            assert(hit_views(sorted@) =~= full.take(
                text::min_int(k as int, prev.len() as int + 1),
            ));
        }
    }
    proof {
        assert(all.take(all.len() as int) =~= all);
    }
    sorted
}

} // verus!
