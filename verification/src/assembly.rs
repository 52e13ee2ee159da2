//! Putting together what a sub-query is asked about.
use std::sync::Arc;
use vstd::prelude::*;
use vstd::string::*;

use crate::context;
use crate::context::RlmContext;
use crate::matching;
use crate::records;
use crate::records::ChunkData;
use crate::store;
use crate::store::RlmStore;
use crate::text;
use crate::text::take_chars;
use crate::tool_error;
use crate::tool_error::ToolError;

verus! {

/// The characters of referenced slices that a sub-query is asked about.
pub const SUB_QUERY_MAX_INLINE_CHARS: usize = 12_000;

/// A reference into a loaded context. Of the three ways to say what part is meant, the
/// first that is used counts: identifiers, a byte range, a heading.
#[derive(Debug)]
pub struct ContextRef {
    pub context: String,
    pub chunk_ids: Option<Vec<String>>,
    pub section: Option<String>,
    pub byte_range: Option<[usize; 2]>,
}

/// What a sub-query is to do, and about what.
#[derive(Debug)]
pub struct SubQueryParams {
    /// What the sub-query is to do with the referenced slices.
    pub prompt: String,
    /// References into already-loaded contexts.
    pub context_refs: Vec<ContextRef>,
    /// Optional inline content (used when slicing isn't appropriate).
    pub inline_content: Option<String>,
}

/// What a [`ContextRef`] holds.
pub struct RefView {
    pub context: Seq<char>,
    pub chunk_ids: Option<Seq<Seq<char>>>,
    pub section: Option<Seq<char>>,
    pub byte_range: Option<(nat, nat)>,
}

impl View for ContextRef {
    type V = RefView;

    open spec fn view(&self) -> RefView {
        RefView {
            context: self.context@,
            chunk_ids: match self.chunk_ids {
                Some(ids) => Some(matching::string_views(ids@)),
                None => None,
            },
            section: text::opt_view(self.section),
            byte_range: match self.byte_range {
                Some(range) => Some((range@[0] as nat, range@[1] as nat)),
                None => None,
            },
        }
    }
}

/// What a list of references holds.
pub open spec fn ref_views(v: Seq<ContextRef>) -> Seq<RefView> {
    Seq::new(v.len(), |i: int| v[i]@)
}

// ---------------------------------------------------------------------------
// Model
// ---------------------------------------------------------------------------

/// The line before a slice, which says where it comes from.
pub open spec fn slice_header(data: records::DataView) -> Seq<char> {
    match (data.section_path, data.source_file) {
        (Some(s), Some(f)) => "\n--- "@ + f + " :: "@ + s + "\n"@,
        (Some(s), None) => "\n--- "@ + s + "\n"@,
        (None, Some(f)) => "\n--- "@ + f + "\n"@,
        (None, None) => "\n---\n"@,
    }
}

/// A text, of which `total` characters count toward the limit, with one more slice behind
/// its header; and the count after it. Nothing is added once the limit is reached, and the
/// slice is cut to what was left before its header.
pub open spec fn appended(buf: Seq<char>, total: int, data: records::DataView) -> (Seq<char>, int) {
    if total >= SUB_QUERY_MAX_INLINE_CHARS {
        (buf, total)
    } else {
        let part = data.text.take(
            text::min_int(SUB_QUERY_MAX_INLINE_CHARS - total, data.text.len() as int),
        );
        let header = slice_header(data);
        (buf + header + part, total + part.len() + header.len())
    }
}

/// Slices put together.
pub open spec fn assembled(data: Seq<records::DataView>) -> Seq<char>
    decreases data.len(),
{
    if data.len() == 0 {
        Seq::empty()
    } else {
        let before = assembled(data.drop_last());
        appended(before, before.len() as int, data.last()).0
    }
}

/// The data of those chunks that the identifiers name.
pub open spec fn named_data(c: context::ContextView, ids: Seq<Seq<char>>) -> Seq<
    records::DataView,
>
    decreases ids.len(),
{
    if ids.len() == 0 {
        Seq::empty()
    } else {
        let before = named_data(c, ids.drop_last());
        match c.data_by_id(ids.last(), SUB_QUERY_MAX_INLINE_CHARS as int) {
            Some(data) => before.push(data),
            None => before,
        }
    }
}

/// The slices that a reference into a context means.
pub open spec fn ref_data(c: context::ContextView, r: RefView) -> Seq<records::DataView> {
    match (r.chunk_ids, r.byte_range, r.section) {
        (Some(ids), _, _) => named_data(c, ids),
        (None, Some(range), _) => match c.data_by_range(
            range.0,
            range.1,
            SUB_QUERY_MAX_INLINE_CHARS as int,
        ) {
            Some(data) => seq![data],
            None => Seq::empty(),
        },
        (None, None, Some(section)) => c.data_by_section(
            section,
            SUB_QUERY_MAX_INLINE_CHARS as int,
        ),
        (None, None, None) => Seq::empty(),
    }
}

/// The slices that references mean.
pub open spec fn all_data(s: store::StoreView, refs: Seq<RefView>) -> Seq<records::DataView>
    decreases refs.len(),
{
    if refs.len() == 0 {
        Seq::empty()
    } else {
        all_data(s, refs.drop_last()) + ref_data(
            s.contexts[refs.last().context]@,
            refs.last(),
        )
    }
}

/// The name of the first context that references name and the store does not have.
pub open spec fn first_missing(s: store::StoreView, refs: Seq<RefView>) -> Option<Seq<char>>
    decreases refs.len(),
{
    if refs.len() == 0 {
        None
    } else {
        match first_missing(s, refs.drop_last()) {
            Some(name) => Some(name),
            None => match s.context(refs.last().context) {
                Some(_) => None,
                None => Some(refs.last().context),
            },
        }
    }
}

/// Inline content behind what was put together.
pub open spec fn with_inline(content: Seq<char>, inline: Option<Seq<char>>) -> Seq<char> {
    match inline {
        Some(s) => content + "\n\n"@ + s,
        None => content,
    }
}

/// What a sub-query is asked about, or why it cannot be.
pub open spec fn sub_query_content(s: store::StoreView, p: SubQueryParams) -> Result<
    Seq<char>,
    tool_error::ToolErrorView,
> {
    let refs = ref_views(p.context_refs@);
    match first_missing(s, refs) {
        Some(name) => Err(tool_error::ToolErrorView::NoSuchContext(name)),
        None => Ok(with_inline(assembled(all_data(s, refs)), text::opt_view(p.inline_content))),
    }
}

// ---------------------------------------------------------------------------
// Laws
// ---------------------------------------------------------------------------

/// Slices put together exceed the limit by no more than the header of the last slice that
/// was added; what comes behind that slice adds nothing.
pub proof fn law_assembled_is_capped(data: Seq<records::DataView>) -> (last: int)
    requires
        data.len() > 0,
    ensures
        0 <= last < data.len(),
        assembled(data) == assembled(data.take(last + 1)),
        assembled(data).len() <= SUB_QUERY_MAX_INLINE_CHARS + slice_header(data[last]).len(),
    decreases data.len(),
{
    let shorter = data.drop_last();
    let before = assembled(shorter);
    if before.len() >= SUB_QUERY_MAX_INLINE_CHARS {
        let last = law_assembled_is_capped(shorter);
        assert(shorter.take(last + 1) =~= data.take(last + 1));
        last
    } else {
        assert(data.take(data.len() as int) =~= data);
        data.len() - 1
    }
}

/// Later slices leave what was put together before them as it is.
pub proof fn law_assembled_grows(data: Seq<records::DataView>, n: int)
    requires
        0 <= n <= data.len(),
    ensures
        assembled(data.take(n)).len() <= assembled(data).len(),
        assembled(data).take(assembled(data.take(n)).len() as int) == assembled(data.take(n)),
    decreases data.len(),
{
    let head = assembled(data.take(n));
    if n == data.len() {
        assert(data.take(n) =~= data);
        assert(assembled(data).take(head.len() as int) =~= head);
    } else {
        let shorter = data.drop_last();
        assert(shorter.take(n) =~= data.take(n));
        law_assembled_grows(shorter, n);
        assert(assembled(data).take(head.len() as int) =~= assembled(shorter).take(
            head.len() as int,
        ));
    }
}

/// A missing context stays the first one that is missing.
pub proof fn lemma_missing_stands(s: store::StoreView, refs: Seq<RefView>, n: int)
    requires
        0 <= n <= refs.len(),
        first_missing(s, refs.take(n)) is Some,
    ensures
        first_missing(s, refs) == first_missing(s, refs.take(n)),
    decreases refs.len(),
{
    if n == refs.len() {
        assert(refs.take(n) =~= refs);
    } else {
        assert(refs.drop_last().take(n) =~= refs.take(n));
        lemma_missing_stands(s, refs.drop_last(), n);
    }
}

// ---------------------------------------------------------------------------
// Code
// ---------------------------------------------------------------------------

/// Adds a slice behind its header, as far as the limit allows. `total` counts the
/// characters added so far.
pub fn append_capped(buf: &mut String, total: &mut usize, chunk: &ChunkData)
    ensures
        final(buf)@ == appended(old(buf)@, *old(total) as int, chunk@).0,
        *final(total) == text::min_int(
            appended(old(buf)@, *old(total) as int, chunk@).1,
            usize::MAX as int,
        ),
{
    if *total >= SUB_QUERY_MAX_INLINE_CHARS {
        return ;
    }
    let remaining: usize = SUB_QUERY_MAX_INLINE_CHARS - *total;
    let mut header: String = "\n---".to_owned();
    match (&chunk.section_path, &chunk.source_file) {
        (Some(s), Some(f)) => {
            header.append(" ");
            header.append(f.as_str());
            header.append(" :: ");
            header.append(s.as_str());
        },
        (Some(s), None) => {
            header.append(" ");
            header.append(s.as_str());
        },
        (None, Some(f)) => {
            header.append(" ");
            header.append(f.as_str());
        },
        (None, None) => {},
    }
    header.append("\n");
    proof {
        reveal_strlit("\n---");
        reveal_strlit(" ");
        reveal_strlit("\n");
        reveal_strlit("\n--- ");
        reveal_strlit("\n---\n");
        assert("\n---"@ + " "@ =~= "\n--- "@);
        assert("\n---"@ + "\n"@ =~= "\n---\n"@);
        assert(header@ =~= slice_header(chunk@));
    }
    let part: String = take_chars(chunk.text.as_str(), remaining);
    let added: usize = part.as_str().unicode_len().saturating_add(header.as_str().unicode_len());
    buf.append(header.as_str());
    buf.append(part.as_str());
    *total = (*total).saturating_add(added);
}

/// Adds one more slice to slices that are put together.
fn append_next(
    buf: &mut String,
    total: &mut usize,
    chunk: &ChunkData,
    Ghost(done): Ghost<Seq<records::DataView>>,
)
    requires
        old(buf)@ == assembled(done),
        *old(total) == old(buf)@.len(),
    ensures
        final(buf)@ == assembled(done.push(chunk@)),
        *final(total) == final(buf)@.len(),
{
    append_capped(buf, total, chunk);
    proof {
        assert(done.push(chunk@).drop_last() =~= done);
    }
    // The text is in memory, so its characters can be counted.
    let _len: usize = buf.as_str().unicode_len();
}

/// Adds the slices that a reference means.
fn append_ref(
    buf: &mut String,
    total: &mut usize,
    ctx: &RlmContext,
    r: &ContextRef,
    Ghost(done): Ghost<Seq<records::DataView>>,
)
    requires
        old(buf)@ == assembled(done),
        *old(total) == old(buf)@.len(),
    ensures
        final(buf)@ == assembled(done + ref_data(ctx@, r@)),
        *final(total) == final(buf)@.len(),
{
    if let Some(ids) = &r.chunk_ids {
        let ghost views = matching::string_views(ids@);
        let mut i: usize = 0;
        proof {
            assert(views.take(0) =~= Seq::<Seq<char>>::empty());
            assert(done + named_data(ctx@, views.take(0)) =~= done);
        }
        while i < ids.len()
            invariant
                i <= ids@.len(),
                views == matching::string_views(ids@),
                buf@ == assembled(done + named_data(ctx@, views.take(i as int))),
                *total == buf@.len(),
            decreases ids@.len() - i,
        {
            let ghost so_far = done + named_data(ctx@, views.take(i as int));
            proof {
                assert(views.take(i + 1).drop_last() =~= views.take(i as int));
                assert(views.take(i + 1).last() == ids@[i as int]@);
            }
            if let Some(c) = ctx.get_chunk_by_id(ids[i].as_str(), SUB_QUERY_MAX_INLINE_CHARS) {
                append_next(buf, total, &c, Ghost(so_far));
                proof {
                    assert(so_far.push(c@) =~= done + named_data(ctx@, views.take(i + 1)));
                }
            }
            i += 1;
        }
        proof {
            assert(views.take(i as int) =~= views);
        }
    } else if let Some(range) = &r.byte_range {
        let start: usize = range[0];
        let end: usize = range[1];
        match ctx.get_chunk_by_range(start, end, SUB_QUERY_MAX_INLINE_CHARS) {
            Some(c) => {
                append_next(buf, total, &c, Ghost(done));
                proof {
                    assert(done.push(c@) =~= done + ref_data(ctx@, r@));
                }
            },
            None => {
                assert(done + ref_data(ctx@, r@) =~= done);
            },
        }
    } else if let Some(section) = &r.section {
        let list: Vec<ChunkData> = ctx.get_chunks_by_section(
            section.as_str(),
            SUB_QUERY_MAX_INLINE_CHARS,
        );
        let ghost views = records::data_views(list@);
        let mut i: usize = 0;
        proof {
            assert(done + views.take(0) =~= done);
        }
        while i < list.len()
            invariant
                i <= list@.len(),
                views == records::data_views(list@),
                buf@ == assembled(done + views.take(i as int)),
                *total == buf@.len(),
            decreases list@.len() - i,
        {
            append_next(buf, total, &list[i], Ghost(done + views.take(i as int)));
            proof {
                assert(views[i as int] == list@[i as int]@);
                assert((done + views.take(i as int)).push(views[i as int]) =~= done + views.take(
                    i + 1,
                ));
            }
            i += 1;
        }
        proof {
            assert(views.take(i as int) =~= views);
        }
    } else {
        assert(done + ref_data(ctx@, r@) =~= done);
    }
}

/// Puts together what a sub-query is asked about.
pub fn assemble_with_store(store: &RlmStore, p: &SubQueryParams) -> (r: Result<String, ToolError>)
    ensures
        match (sub_query_content(store@, *p), r) {
            (Ok(content), Ok(s)) => s@ == content,
            (Err(a), Err(b)) => a == b@,
            _ => false,
        },
{
    let mut buf: String = String::new();
    let mut total: usize = 0;
    let ghost refs = ref_views(p.context_refs@);
    let mut i: usize = 0;
    proof {
        assert(refs.take(0) =~= Seq::<RefView>::empty());
        assert(buf@ =~= assembled(all_data(store@, refs.take(0))));
    }
    while i < p.context_refs.len()
        invariant
            i <= p.context_refs@.len(),
            refs == ref_views(p.context_refs@),
            first_missing(store@, refs.take(i as int)) is None,
            buf@ == assembled(all_data(store@, refs.take(i as int))),
            total == buf@.len(),
        decreases p.context_refs@.len() - i,
    {
        let r: &ContextRef = &p.context_refs[i];
        proof {
            assert(refs.take(i + 1).drop_last() =~= refs.take(i as int));
            assert(refs.take(i + 1).last() == r@);
        }
        match store.get(r.context.as_str()) {
            Some(ctx) => {
                append_ref(
                    &mut buf,
                    &mut total,
                    &ctx,
                    r,
                    Ghost(all_data(store@, refs.take(i as int))),
                );
            },
            None => {
                proof {
                    lemma_missing_stands(store@, refs, i + 1);
                }
                return Err(ToolError::NoSuchContext(r.context.clone()));
            },
        }
        i += 1;
    }
    proof {
        assert(refs.take(i as int) =~= refs);
    }
    if let Some(inline) = &p.inline_content {
        buf.append("\n\n");
        buf.append(inline.as_str());
    }
    Ok(buf)
}

} // verus!
