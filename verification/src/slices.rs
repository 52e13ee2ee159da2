//! What a sub-query is asked about: laws of what [`assembly`] puts together.
use vstd::prelude::*;
use vstd::utf8::*;

use crate::assembly;
use crate::assembly::{ContextRef, SubQueryParams};
use crate::context;
use crate::matching;
use crate::reading;
use crate::records;
use crate::store;
use crate::text;
use crate::tool_error;

verus! {

/// A part of a context, whole, with the heading that it stands under and the file that it
/// comes from.
pub struct Slice {
    pub section_path: Option<Seq<char>>,
    pub source_file: Option<Seq<char>>,
    pub text: Seq<char>,
}

/// Chunk `n` of a context as a slice.
pub open spec fn chunk_slice(c: context::ContextView, n: int) -> Slice {
    Slice {
        section_path: c.chunks[n].section_path,
        source_file: c.chunks[n].source_file,
        text: c.text_of(n)->0,
    }
}

/// Whether chunk `n` is the first with an identifier, and has a text.
pub open spec fn is_named(c: context::ContextView, id: Seq<char>, n: int) -> bool {
    &&& 0 <= n < c.chunks.len()
    &&& c.chunks[n].id == id
    &&& forall|j: int| 0 <= j < n ==> (#[trigger] c.chunks[j]).id != id
    &&& c.text_of(n) is Some
}

/// The chunks that identifiers name, in the order of the identifiers.
pub open spec fn named_slices(c: context::ContextView, ids: Seq<String>) -> Seq<Slice>
    decreases ids.len(),
{
    if ids.len() == 0 {
        Seq::empty()
    } else {
        let before = named_slices(c, ids.drop_last());
        if exists|n: int| is_named(c, ids.last()@, n) {
            before.push(chunk_slice(c, choose|n: int| is_named(c, ids.last()@, n)))
        } else {
            before
        }
    }
}

/// The text of a byte range, if there is one.
pub open spec fn range_slices(c: context::ContextView, start: int, end: int) -> Seq<Slice> {
    if start < end <= c.blob.len() && valid_utf8(c.blob.subrange(start, end)) {
        seq![
            Slice {
                section_path: None,
                source_file: None,
                text: decode_utf8(c.blob.subrange(start, end)),
            },
        ]
    } else {
        Seq::empty()
    }
}

/// The chunks from `from` on that are under a heading that has `section`.
pub open spec fn section_slices(c: context::ContextView, section: Seq<char>, from: int) -> Seq<
    Slice,
>
    decreases c.chunks.len() - from,
{
    if from < 0 || from >= c.chunks.len() {
        Seq::empty()
    } else if reading::under_heading(c, section, from) {
        seq![chunk_slice(c, from)] + section_slices(c, section, from + 1)
    } else {
        section_slices(c, section, from + 1)
    }
}

/// The slices that a reference means: the chunks that its identifiers name, if it has any
/// list of them; otherwise the text of its byte range, if it has one; otherwise the chunks
/// under its heading.
pub open spec fn meant(c: context::ContextView, r: ContextRef) -> Seq<Slice> {
    if let Some(ids) = r.chunk_ids {
        named_slices(c, ids@)
    } else if let Some(range) = r.byte_range {
        range_slices(c, range@[0] as int, range@[1] as int)
    } else if let Some(section) = r.section {
        section_slices(c, section@, 0)
    } else {
        Seq::empty()
    }
}

/// The slices that references mean, in their order.
pub open spec fn all_meant(s: store::StoreView, refs: Seq<ContextRef>) -> Seq<Slice>
    decreases refs.len(),
{
    if refs.len() == 0 {
        Seq::empty()
    } else {
        all_meant(s, refs.drop_last()) + meant(s.contexts[refs.last().context@]@, refs.last())
    }
}

/// The line before a slice: three dashes, and behind them the file and the heading, as far as
/// there are any.
pub open spec fn header_line(slice: Slice) -> Seq<char> {
    let label = match (slice.source_file, slice.section_path) {
        (Some(file), Some(heading)) => " "@ + file + " :: "@ + heading,
        (Some(file), None) => " "@ + file,
        (None, Some(heading)) => " "@ + heading,
        (None, None) => Seq::empty(),
    };
    "\n---"@ + label + "\n"@
}

/// Slices one after another, each whole and behind its header.
pub open spec fn whole(slices: Seq<Slice>) -> Seq<char>
    decreases slices.len(),
{
    if slices.len() == 0 {
        Seq::empty()
    } else {
        whole(slices.drop_last()) + header_line(slices.last()) + slices.last().text
    }
}

/// Whether a text is all of another, or the beginning of it up to the limit of 12000
/// characters at least.
pub open spec fn holds_up_to_limit(content: Seq<char>, all: Seq<char>) -> bool {
    &&& content.len() <= all.len()
    &&& content == all.take(content.len() as int)
    &&& content == all || content.len() >= 12_000
}

/// A sub-query whose contexts are all there is asked about the slices that its references
/// mean, each whole and behind its header, in the order of the references, up to the limit;
/// and behind them about its inline content. So where the slices and their headers come to no
/// more than the limit together, every slice is there whole.
pub proof fn law_sub_query_content(s: store::StoreView, p: SubQueryParams)
    requires
        forall|i: int|
            0 <= i < p.context_refs@.len() ==> s.contexts.dom().contains(
                (#[trigger] p.context_refs@[i]).context@,
            ),
    ensures
        ({
            let all = whole(all_meant(s, p.context_refs@));
            &&& assembly::sub_query_content(s, p) matches Ok(content)
            &&& match p.inline_content {
                None => holds_up_to_limit(content, all) && (all.len() <= 12_000 ==> content == all),
                Some(inline) => exists|slices: Seq<char>|
                    #![trigger holds_up_to_limit(slices, all)]
                    holds_up_to_limit(slices, all) && (all.len() <= 12_000 ==> slices == all)
                        && content == slices + "\n\n"@ + inline@,
            }
        }),
{
    let refs = assembly::ref_views(p.context_refs@);
    assert forall|i: int| 0 <= i < refs.len() implies s.contexts.dom().contains(
        (#[trigger] refs[i]).context,
    ) by {
        assert(refs[i] == p.context_refs@[i]@);
    }
    lemma_none_missing(s, refs);
    lemma_all_meant(s, p.context_refs@);
    let slices = assembly::assembled(assembly::all_data(s, refs));
    let all = whole(all_meant(s, p.context_refs@));
    assert(holds_up_to_limit(slices, all));
}

/// A sub-query that refers to a context that is not there is refused, with the name of the
/// first such context.
pub proof fn law_missing_context(s: store::StoreView, p: SubQueryParams, n: int)
    requires
        0 <= n < p.context_refs@.len(),
        !s.contexts.dom().contains(p.context_refs@[n].context@),
        forall|i: int|
            0 <= i < n ==> s.contexts.dom().contains((#[trigger] p.context_refs@[i]).context@),
    ensures
        assembly::sub_query_content(s, p) == Err::<Seq<char>, tool_error::ToolErrorView>(
            tool_error::ToolErrorView::NoSuchContext(p.context_refs@[n].context@),
        ),
{
    let refs = assembly::ref_views(p.context_refs@);
    let head = refs.take(n);
    assert forall|i: int| 0 <= i < head.len() implies s.contexts.dom().contains(
        (#[trigger] head[i]).context,
    ) by {
        assert(head[i] == p.context_refs@[i]@);
    }
    lemma_none_missing(s, head);
    assert(refs.take(n + 1).drop_last() =~= head);
    assert(refs.take(n + 1).last() == p.context_refs@[n]@);
    assembly::lemma_missing_stands(s, refs, n + 1);
}

proof fn lemma_none_missing(s: store::StoreView, refs: Seq<assembly::RefView>)
    requires
        forall|i: int|
            0 <= i < refs.len() ==> s.contexts.dom().contains((#[trigger] refs[i]).context),
    ensures
        assembly::first_missing(s, refs) is None,
    decreases refs.len(),
{
    if refs.len() > 0 {
        let shorter = refs.drop_last();
        assert forall|i: int| 0 <= i < shorter.len() implies s.contexts.dom().contains(
            (#[trigger] shorter[i]).context,
        ) by {
            assert(shorter[i] == refs[i]);
        }
        lemma_none_missing(s, shorter);
        assert(s.contexts.dom().contains(refs[refs.len() - 1].context));
    }
}

/// One more slice behind its header.
proof fn lemma_append(buf: Seq<char>, all: Seq<char>, data: records::DataView, slice: Slice)
    requires
        holds_up_to_limit(buf, all),
        data.section_path == slice.section_path,
        data.source_file == slice.source_file,
        data.text.len() <= slice.text.len(),
        data.text == slice.text.take(data.text.len() as int),
        data.text == slice.text || data.text.len() >= 12_000 - buf.len(),
    ensures
        holds_up_to_limit(
            assembly::appended(buf, buf.len() as int, data).0,
            all + header_line(slice) + slice.text,
        ),
{
    let next = all + header_line(slice) + slice.text;
    let out = assembly::appended(buf, buf.len() as int, data).0;
    lemma_header(data, slice);
    if buf.len() >= 12_000 {
        assert(buf =~= next.take(buf.len() as int));
    } else {
        let part = data.text.take(text::min_int(12_000 - buf.len(), data.text.len() as int));
        assert(buf == all);
        assert(part =~= slice.text.take(part.len() as int));
        assert(out =~= next.take(out.len() as int));
        if out.len() < 12_000 {
            assert(part =~= slice.text);
            assert(out =~= next);
        }
    }
}

proof fn lemma_header(data: records::DataView, slice: Slice)
    requires
        data.section_path == slice.section_path,
        data.source_file == slice.source_file,
    ensures
        assembly::slice_header(data) == header_line(slice),
        header_line(slice).len() > 0,
{
    reveal_strlit("\n---");
    reveal_strlit(" ");
    reveal_strlit("\n");
    reveal_strlit("\n--- ");
    reveal_strlit("\n---\n");
    assert("\n---"@ + " "@ =~= "\n--- "@);
    assert("\n---"@ + "\n"@ =~= "\n---\n"@);
    assert(assembly::slice_header(data) =~= header_line(slice));
}

/// Once the limit is reached, what comes behind is left out.
proof fn lemma_full(buf: Seq<char>, all: Seq<char>, more: Seq<char>)
    requires
        holds_up_to_limit(buf, all),
        buf.len() >= 12_000,
    ensures
        holds_up_to_limit(buf, all + more),
{
    assert(buf =~= (all + more).take(buf.len() as int));
}

proof fn lemma_whole_push(slices: Seq<Slice>, slice: Slice)
    ensures
        whole(slices.push(slice)) == whole(slices) + header_line(slice) + slice.text,
{
    assert(slices.push(slice).drop_last() =~= slices);
}

proof fn lemma_whole_concat(a: Seq<Slice>, b: Seq<Slice>)
    ensures
        whole(a + b) == whole(a) + whole(b),
    decreases b.len(),
{
    if b.len() == 0 {
        assert(a + b =~= a);
        assert(whole(a) + whole(b) =~= whole(a));
    } else {
        assert((a + b).drop_last() =~= a + b.drop_last());
        lemma_whole_concat(a, b.drop_last());
        assert(whole(a + b) =~= whole(a) + whole(b));
    }
}

proof fn lemma_assembled_push(done: Seq<records::DataView>, data: records::DataView)
    ensures
        assembly::assembled(done.push(data)) == assembly::appended(
            assembly::assembled(done),
            assembly::assembled(done).len() as int,
            data,
        ).0,
{
    assert(done.push(data).drop_last() =~= done);
}

proof fn lemma_all_meant(s: store::StoreView, refs: Seq<ContextRef>)
    ensures
        holds_up_to_limit(
            assembly::assembled(assembly::all_data(s, assembly::ref_views(refs))),
            whole(all_meant(s, refs)),
        ),
    decreases refs.len(),
{
    let views = assembly::ref_views(refs);
    if refs.len() > 0 {
        let shorter = refs.drop_last();
        lemma_all_meant(s, shorter);
        assert(views.drop_last() =~= assembly::ref_views(shorter));
        assert(views.last() == refs.last()@);
        let c = s.contexts[refs.last().context@]@;
        lemma_meant(
            c,
            refs.last(),
            assembly::all_data(s, assembly::ref_views(shorter)),
            all_meant(s, shorter),
        );
    } else {
        let none = Seq::<char>::empty();
        assert(none.take(0) =~= none);
    }
}

proof fn lemma_meant(
    c: context::ContextView,
    r: ContextRef,
    done: Seq<records::DataView>,
    slices: Seq<Slice>,
)
    requires
        holds_up_to_limit(assembly::assembled(done), whole(slices)),
    ensures
        holds_up_to_limit(
            assembly::assembled(done + assembly::ref_data(c, r@)),
            whole(slices + meant(c, r)),
        ),
{
    let data = assembly::ref_data(c, r@);
    if let Some(ids) = r.chunk_ids {
        lemma_named(c, ids@, done, slices);
    } else if let Some(range) = r.byte_range {
        let (start, end) = (range@[0] as nat, range@[1] as nat);
        let more = range_slices(c, start as int, end as int);
        match c.data_by_range(start, end, 12_000) {
            Some(d) => {
                let t = decode_utf8(c.blob.subrange(start as int, end as int));
                decode_utf8_encode_utf8(c.blob.subrange(start as int, end as int));
                reading::law_read_by_range(c, start, end, 12_000);
                assert(reading::reads(d, t, 12_000));
                assert(done + data =~= done.push(d));
                assert(slices + more =~= slices.push(more[0]));
                lemma_take_all(d, t);
                lemma_append(assembly::assembled(done), whole(slices), d, more[0]);
                lemma_assembled_push(done, d);
                lemma_whole_push(slices, more[0]);
            },
            None => {
                assert(done + data =~= done);
                assert(slices + more =~= slices);
            },
        }
    } else if let Some(section) = r.section {
        reading::lemma_marks(c, section@);
        lemma_section(c, section@, 0, 12_000, done, slices);
    } else {
        assert(done + data =~= done);
        assert(slices + meant(c, r) =~= slices);
    }
}

proof fn lemma_take_all(d: records::DataView, t: Seq<char>)
    requires
        reading::reads(d, t, 12_000),
    ensures
        d.text.len() <= t.len(),
        d.text == t.take(d.text.len() as int),
        d.text == t || d.text.len() >= 12_000,
{
    assert(t.take(t.len() as int) =~= t);
}

proof fn lemma_named(
    c: context::ContextView,
    ids: Seq<String>,
    done: Seq<records::DataView>,
    slices: Seq<Slice>,
)
    requires
        holds_up_to_limit(assembly::assembled(done), whole(slices)),
    ensures
        holds_up_to_limit(
            assembly::assembled(
                done + assembly::named_data(c, matching::string_views(ids)),
            ),
            whole(slices + named_slices(c, ids)),
        ),
    decreases ids.len(),
{
    let views = matching::string_views(ids);
    if ids.len() == 0 {
        assert(done + assembly::named_data(c, views) =~= done);
        assert(slices + named_slices(c, ids) =~= slices);
    } else {
        let id = ids.last()@;
        lemma_named(c, ids.drop_last(), done, slices);
        assert(views.drop_last() =~= matching::string_views(ids.drop_last()));
        assert(views.last() == id);
        let before = done + assembly::named_data(c, views.drop_last());
        let slices_before = slices + named_slices(c, ids.drop_last());
        if exists|n: int| is_named(c, id, n) {
            let n = choose|n: int| is_named(c, id, n);
            reading::law_read_by_id(c, id, 12_000, n);
            let d = c.data_by_id(id, 12_000)->0;
            lemma_take_all(d, c.text_of(n)->0);
            lemma_append(assembly::assembled(before), whole(slices_before), d, chunk_slice(c, n));
            lemma_assembled_push(before, d);
            lemma_whole_push(slices_before, chunk_slice(c, n));
            assert(done + assembly::named_data(c, views) =~= before.push(d));
            assert(slices + named_slices(c, ids) =~= slices_before.push(chunk_slice(c, n)));
        } else {
            context::lemma_first_with_id(c.chunks, id, 0);
            if let Some(n) = context::first_with_id(c.chunks, id, 0) {
                assert(!is_named(c, id, n));
            }
            assert(c.data_by_id(id, 12_000) is None);
        }
    }
}

proof fn lemma_section(
    c: context::ContextView,
    section: Seq<char>,
    from: int,
    budget: int,
    done: Seq<records::DataView>,
    slices: Seq<Slice>,
)
    requires
        0 <= from,
        0 <= budget,
        budget >= 12_000 - assembly::assembled(done).len(),
        holds_up_to_limit(assembly::assembled(done), whole(slices)),
        forall|i: int|
            0 <= i < c.chunks.len() && c.text_of(i) is Some ==> (
            #[trigger] context::section_marks(c.chunks, section)[i]) == reading::under_heading(
                c,
                section,
                i,
            ),
    ensures
        holds_up_to_limit(
            assembly::assembled(
                done + context::marked_data(
                    c.blob,
                    c.chunks,
                    context::section_marks(c.chunks, section),
                    from,
                    budget,
                ),
            ),
            whole(slices + section_slices(c, section, from)),
        ),
    decreases c.chunks.len() - from,
{
    let marks = context::section_marks(c.chunks, section);
    let data = context::marked_data(c.blob, c.chunks, marks, from, budget);
    let rest = section_slices(c, section, from + 1);
    if from >= c.chunks.len() {
        assert(done + data =~= done);
        assert(slices + section_slices(c, section, from) =~= slices);
    } else {
        assert(c.text_of(from) is Some ==> marks[from] == reading::under_heading(c, section, from));
        if reading::under_heading(c, section, from) {
            let t = c.text_of(from)->0;
            let d = context::chunk_data(c.chunks[from], t, budget);
            let left = budget - d.text.len();
            let buf = assembly::assembled(done);
            let one = chunk_slice(c, from);
            assert(d.text == t.take(d.text.len() as int));
            assert(t.take(t.len() as int) =~= t);
            lemma_append(buf, whole(slices), d, one);
            lemma_header(d, one);
            lemma_assembled_push(done, d);
            lemma_whole_push(slices, one);
            let next = assembly::assembled(done.push(d));
            assert(next.len() >= 12_000 || next.len() == buf.len() + d.text.len() + header_line(
                one,
            ).len());
            assert(slices + section_slices(c, section, from) =~= slices.push(one) + rest);
            if left == 0 {
                assert(done + data =~= done.push(d));
                lemma_whole_concat(slices.push(one), rest);
                lemma_full(next, whole(slices.push(one)), whole(rest));
            } else {
                lemma_section(c, section, from + 1, left, done.push(d), slices.push(one));
                assert(done + data =~= done.push(d) + context::marked_data(
                    c.blob,
                    c.chunks,
                    marks,
                    from + 1,
                    left,
                ));
            }
        } else {
            lemma_section(c, section, from + 1, budget, done, slices);
        }
    }
}

} // verus!
