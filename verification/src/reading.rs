//! What reading a context gives: laws of the reading operations of [`context`].
use vstd::prelude::*;
use vstd::utf8::*;

use crate::chunking;
use crate::context;
use crate::decimal;
use crate::matching;
use crate::records;
use crate::unicode;

verus! {

/// A chunk has a text exactly if its range lies within the bytes of the context and what
/// stands there is the encoding of that text.
pub proof fn law_text_of(c: context::ContextView, i: int, t: Seq<char>)
    ensures
        c.text_of(i) == Some(t) <==> {
            &&& 0 <= i < c.chunks.len()
            &&& 0 <= c.chunks[i].start <= c.chunks[i].end <= c.blob.len()
            &&& c.blob.subrange(c.chunks[i].start, c.chunks[i].end) == encode_utf8(t)
        },
{
    lemma_range_text(c.blob, c.chunks[i].start, c.chunks[i].end, t);
}

proof fn lemma_range_text(blob: Seq<u8>, start: int, end: int, t: Seq<char>)
    ensures
        context::range_text(blob, start, end) == Some(t) <==> 0 <= start <= end <= blob.len()
            && blob.subrange(start, end) == encode_utf8(t),
{
    encode_utf8_valid_utf8(t);
    encode_utf8_decode_utf8(t);
    if 0 <= start <= end <= blob.len() && valid_utf8(blob.subrange(start, end)) {
        decode_utf8_encode_utf8(blob.subrange(start, end));
    }
}

/// Whether data is what is read of a text with a limit on characters: the whole text if the
/// limit holds it, and otherwise the characters up to the limit, marked as cut; and in any
/// case the number of characters that the text has.
pub open spec fn reads(d: records::DataView, t: Seq<char>, max_chars: int) -> bool {
    &&& d.total_chars == t.len()
    &&& t.len() <= max_chars ==> d.text == t && !d.truncated
    &&& t.len() > max_chars ==> d.text == t.take(max_chars) && d.truncated
}

proof fn lemma_reads(
    id: Seq<char>,
    t: Seq<char>,
    max_chars: int,
    section_path: Option<Seq<char>>,
    source_file: Option<Seq<char>>,
)
    requires
        0 <= max_chars,
    ensures
        ({
            let d = context::capped(id, t, max_chars, section_path, source_file);
            &&& reads(d, t, max_chars)
            &&& d.chunk_id == id
            &&& d.section_path == section_path
            &&& d.source_file == source_file
        }),
{
    assert(t.take(t.len() as int) =~= t);
}

/// Whether data carries the identifier, the heading and the source file of chunk `n`.
pub open spec fn is_data_of(c: context::ContextView, n: int, d: records::DataView) -> bool {
    &&& 0 <= n < c.chunks.len()
    &&& d.chunk_id == c.chunks[n].id
    &&& d.section_path == c.chunks[n].section_path
    &&& d.source_file == c.chunks[n].source_file
}

/// Reading by an identifier reads the first chunk that has it, if that chunk has a text.
pub proof fn law_read_by_id(c: context::ContextView, id: Seq<char>, max_chars: int, n: int)
    requires
        0 <= max_chars,
        0 <= n < c.chunks.len(),
        c.chunks[n].id == id,
        forall|j: int| 0 <= j < n ==> (#[trigger] c.chunks[j]).id != id,
    ensures
        match c.text_of(n) {
            Some(t) => c.data_by_id(id, max_chars) matches Some(d) && is_data_of(c, n, d) && reads(
                d,
                t,
                max_chars,
            ),
            None => c.data_by_id(id, max_chars) is None,
        },
{
    context::lemma_first_with_id(c.chunks, id, 0);
    assert(context::first_with_id(c.chunks, id, 0) == Some(n));
    if let Some(t) = c.text_of(n) {
        lemma_reads(id, t, max_chars, c.chunks[n].section_path, c.chunks[n].source_file);
    }
}

/// Reading by an identifier that no chunk has gives nothing.
pub proof fn law_read_by_unknown_id(c: context::ContextView, id: Seq<char>, max_chars: int)
    requires
        forall|j: int| 0 <= j < c.chunks.len() ==> (#[trigger] c.chunks[j]).id != id,
    ensures
        c.data_by_id(id, max_chars) is None,
{
    context::lemma_first_with_id(c.chunks, id, 0);
}

/// Reading by a byte range gives something exactly if the range is not empty, lies within the
/// bytes of the context and holds a text; and then it gives that text, under a name made of
/// the context's and the two ends of the range, with no heading and no source file.
pub proof fn law_read_by_range(c: context::ContextView, start: nat, end: nat, max_chars: int)
    requires
        0 <= max_chars,
    ensures
        c.data_by_range(start, end, max_chars) is Some <==> start < end <= c.blob.len()
            && valid_utf8(c.blob.subrange(start as int, end as int)),
        forall|t: Seq<char>|
            start < end <= c.blob.len() && c.blob.subrange(start as int, end as int)
                == #[trigger] encode_utf8(t) ==> {
                &&& c.data_by_range(start, end, max_chars) matches Some(d)
                &&& reads(d, t, max_chars)
                &&& d.chunk_id == c.name + ":bytes:"@ + decimal::decimal(start) + "-"@
                    + decimal::decimal(end)
                &&& d.section_path is None
                &&& d.source_file is None
            },
{
    assert forall|t: Seq<char>|
        start < end <= c.blob.len() && c.blob.subrange(start as int, end as int)
            == #[trigger] encode_utf8(t) implies ({
        &&& c.data_by_range(start, end, max_chars) matches Some(d)
        &&& reads(d, t, max_chars)
        &&& d.chunk_id == c.name + ":bytes:"@ + decimal::decimal(start) + "-"@ + decimal::decimal(
            end,
        )
        &&& d.section_path is None
        &&& d.source_file is None
    }) by {
        lemma_range_text(c.blob, start as int, end as int, t);
        lemma_reads(context::range_id(c.name, start, end), t, max_chars, None, None);
    }
}

/// Whether chunk `n` has a text and a heading in which `section` stands at some place, both in
/// lower case.
pub open spec fn under_heading(c: context::ContextView, section: Seq<char>, n: int) -> bool {
    &&& 0 <= n < c.chunks.len()
    &&& c.text_of(n) is Some
    &&& c.chunks[n].section_path matches Some(path) && matching::stands_in(
        unicode::lowercase(path),
        unicode::lowercase(section),
    )
}

/// How many of the chunks from `from` to `to` are under a heading that has `section`.
pub open spec fn count_under(
    c: context::ContextView,
    section: Seq<char>,
    from: int,
    to: int,
) -> nat
    decreases to - from,
{
    if from >= to {
        0
    } else {
        (if under_heading(c, section, from) {
            1nat
        } else {
            0
        }) + count_under(c, section, from + 1, to)
    }
}

/// How many characters those chunks have together.
pub open spec fn chars_under(
    c: context::ContextView,
    section: Seq<char>,
    from: int,
    to: int,
) -> nat
    decreases to - from,
{
    if from >= to {
        0
    } else {
        (if under_heading(c, section, from) {
            (c.text_of(from)->0).len()
        } else {
            0
        }) + chars_under(c, section, from + 1, to)
    }
}

/// Reading by a section gives every chunk under a heading that has it, in order, as long as
/// the limit on characters is not used up: whole if the limit holds all such chunks up to
/// and with this one, and otherwise cut to what the limit leaves. The first such chunk is
/// given in any case.
pub proof fn law_read_by_section(
    c: context::ContextView,
    section: Seq<char>,
    max_chars: int,
    n: int,
)
    requires
        0 <= max_chars,
        under_heading(c, section, n),
    ensures
        ({
            let r = c.data_by_section(section, max_chars);
            let before = count_under(c, section, 0, n);
            let used = chars_under(c, section, 0, n);
            before == 0 || used < max_chars ==> {
                &&& before < r.len()
                &&& is_data_of(c, n, r[before as int])
                &&& reads(r[before as int], c.text_of(n)->0, max_chars - used)
            }
        }),
{
    let before = count_under(c, section, 0, n);
    let used = chars_under(c, section, 0, n);
    if before == 0 || used < max_chars {
        lemma_marks(c, section);
        lemma_marked_at(c, section, 0, max_chars, n);
        if before == 0 {
            lemma_none_under(c, section, 0, n);
        }
        lemma_reads(
            c.chunks[n].id,
            c.text_of(n)->0,
            max_chars - used,
            c.chunks[n].section_path,
            c.chunks[n].source_file,
        );
    }
}

/// Reading by a section gives nothing else: what it gives at a place is a chunk under a
/// heading that has the section, with as many such chunks before it, which do not use the
/// limit on characters up.
pub proof fn law_read_by_section_only(
    c: context::ContextView,
    section: Seq<char>,
    max_chars: int,
    q: int,
) -> (n: int)
    requires
        0 <= max_chars,
        0 <= q < c.data_by_section(section, max_chars).len(),
    ensures
        under_heading(c, section, n),
        is_data_of(c, n, c.data_by_section(section, max_chars)[q]),
        count_under(c, section, 0, n) == q,
        q == 0 || chars_under(c, section, 0, n) < max_chars,
{
    lemma_marks(c, section);
    let n = lemma_marked_from(c, section, 0, max_chars, q);
    law_read_by_section(c, section, max_chars, n);
    n
}

/// The chunks that are marked for a section are those under a heading that has it.
pub proof fn lemma_marks(c: context::ContextView, section: Seq<char>)
    ensures
        forall|i: int|
            0 <= i < c.chunks.len() && c.text_of(i) is Some ==> (
            #[trigger] context::section_marks(c.chunks, section)[i]) == under_heading(
                c,
                section,
                i,
            ),
{
    assert forall|i: int| 0 <= i < c.chunks.len() && c.text_of(i) is Some implies (
    #[trigger] context::section_marks(c.chunks, section)[i]) == under_heading(
        c,
        section,
        i,
    ) by {
        if let Some(path) = c.chunks[i].section_path {
            matching::law_contains(unicode::lowercase(path), unicode::lowercase(section));
        }
    }
}

proof fn lemma_none_under(c: context::ContextView, section: Seq<char>, from: int, to: int)
    requires
        count_under(c, section, from, to) == 0,
    ensures
        chars_under(c, section, from, to) == 0,
    decreases to - from,
{
    if from < to {
        lemma_none_under(c, section, from + 1, to);
    }
}

proof fn lemma_marked_at(
    c: context::ContextView,
    section: Seq<char>,
    from: int,
    budget: int,
    n: int,
)
    requires
        0 <= from <= n,
        0 <= budget,
        under_heading(c, section, n),
        count_under(c, section, from, n) == 0 || chars_under(c, section, from, n) < budget,
        forall|i: int|
            0 <= i < c.chunks.len() && c.text_of(i) is Some ==> (
            #[trigger] context::section_marks(c.chunks, section)[i]) == under_heading(
                c,
                section,
                i,
            ),
    ensures
        ({
            let marks = context::section_marks(c.chunks, section);
            let r = context::marked_data(c.blob, c.chunks, marks, from, budget);
            let before = count_under(c, section, from, n) as int;
            &&& before < r.len()
            &&& r[before] == context::chunk_data(
                c.chunks[n],
                c.text_of(n)->0,
                budget - chars_under(c, section, from, n),
            )
        }),
    decreases n - from,
{
    let marks = context::section_marks(c.chunks, section);
    let r = context::marked_data(c.blob, c.chunks, marks, from, budget);
    assert(c.text_of(from) is Some ==> marks[from] == under_heading(c, section, from));
    if from < n {
        if under_heading(c, section, from) {
            let t = c.text_of(from)->0;
            let left = budget - t.len();
            lemma_marked_at(c, section, from + 1, left, n);
            let rest = context::marked_data(c.blob, c.chunks, marks, from + 1, left);
            assert(r == seq![context::chunk_data(c.chunks[from], t, budget)] + rest);
            let before = count_under(c, section, from, n) as int;
            assert(r[before] == rest[before - 1]);
        } else {
            lemma_marked_at(c, section, from + 1, budget, n);
        }
    }
}

proof fn lemma_marked_from(
    c: context::ContextView,
    section: Seq<char>,
    from: int,
    budget: int,
    q: int,
) -> (n: int)
    requires
        0 <= from,
        0 <= budget,
        0 <= q < context::marked_data(
            c.blob,
            c.chunks,
            context::section_marks(c.chunks, section),
            from,
            budget,
        ).len(),
        forall|i: int|
            0 <= i < c.chunks.len() && c.text_of(i) is Some ==> (
            #[trigger] context::section_marks(c.chunks, section)[i]) == under_heading(
                c,
                section,
                i,
            ),
    ensures
        from <= n,
        under_heading(c, section, n),
        count_under(c, section, from, n) == q,
        q == 0 || chars_under(c, section, from, n) < budget,
    decreases c.chunks.len() - from,
{
    let marks = context::section_marks(c.chunks, section);
    assert(from < c.chunks.len());
    assert(c.text_of(from) is Some ==> marks[from] == under_heading(c, section, from));
    if under_heading(c, section, from) {
        if q == 0 {
            from
        } else {
            let t = c.text_of(from)->0;
            let left = budget - t.len();
            let n = lemma_marked_from(c, section, from + 1, left, q - 1);
            if q == 1 {
                lemma_none_under(c, section, from + 1, n);
            }
            n
        }
    } else {
        lemma_marked_from(c, section, from + 1, budget, q)
    }
}

/// A context is summarised by its name, its source, its sizes and the number of its chunks;
/// and the sizes of a loaded context are those of its text and of its chunks.
pub proof fn law_summary(c: context::ContextView)
    ensures
        c.summary().name == c.name,
        c.summary().source == c.source,
        c.summary().n_chunks == c.chunks.len(),
        c.sound() ==> c.summary().total_chars == decode_utf8(c.blob).len(),
        c.sound() ==> c.summary().total_tokens == c.chunks.map_values(
            |x: chunking::ChunkView| x.token_count as int,
        ).fold_left(0int, |a: int, b: int| a + b),
{
    lemma_token_sum(c.chunks);
}

proof fn lemma_token_sum(chunks: Seq<chunking::ChunkView>)
    ensures
        context::token_sum(chunks) == chunks.map_values(
            |x: chunking::ChunkView| x.token_count as int,
        ).fold_left(0int, |a: int, b: int| a + b),
    decreases chunks.len(),
{
    reveal_with_fuel(Seq::fold_left, 2);
    let counts = chunks.map_values(|x: chunking::ChunkView| x.token_count as int);
    if chunks.len() > 0 {
        lemma_token_sum(chunks.drop_last());
        assert(counts.drop_last() =~= chunks.drop_last().map_values(
            |x: chunking::ChunkView| x.token_count as int,
        ));
    }
}

} // verus!
