//! Per-session store of named contexts and of a key/value memory.
use std::sync::Arc;
use vstd::prelude::*;
use vstd::string::*;
use vstd::utf8::*;

use crate::chunking;
use crate::context::RlmContext;
use crate::decimal;
use crate::decimal::decimal_string;
use crate::files;
use crate::files::{is_likely_text, should_skip_path, SourceFile, LARGE_FILE_BYTES, SAMPLE_BYTES};
use crate::loading;
use crate::loading::Gathered;
use crate::matching;
use crate::matching::sort_strings;
use crate::records;
use crate::records::ContextSummary;
use crate::shared_map;
use crate::shared_map::{
    context_names,
    get_context,
    get_value,
    insert_context,
    insert_value,
    memory_keys,
    new_contexts,
    new_memory,
    ContextMap,
    MemoryMap,
};
use crate::unicode::utf8_text;

verus! {

/// Default per-session ingest cap. Override via [`RlmStore::with_max_bytes`].
pub const DEFAULT_MAX_BYTES: u64 = 50 * 1024 * 1024;

/// Default recursion cap for sub-query chains. Beyond this, sub-queries fall back to a leaf
/// call with no further tools.
pub const DEFAULT_MAX_DEPTH: u32 = 2;

// ---------------------------------------------------------------------------
// Errors
// ---------------------------------------------------------------------------

/// Why nothing was loaded.
#[derive(Debug)]
pub enum LoadError {
    /// The file at `path` is not UTF-8.
    NotUtf8 { path: String },
    /// With what was to be loaded, the store would have taken in `total` bytes.
    LimitExceeded { total: u64, cap: u64 },
    /// No file under `path` was read.
    NoTextFiles { path: String },
}

/// What a [`LoadError`] holds.
pub enum LoadErrorView {
    NotUtf8 { path: Seq<char> },
    LimitExceeded { total: nat, cap: nat },
    NoTextFiles { path: Seq<char> },
}

impl View for LoadError {
    type V = LoadErrorView;

    open spec fn view(&self) -> LoadErrorView {
        match self {
            LoadError::NotUtf8 { path } => LoadErrorView::NotUtf8 { path: path@ },
            LoadError::LimitExceeded { total, cap } => LoadErrorView::LimitExceeded {
                total: *total as nat,
                cap: *cap as nat,
            },
            LoadError::NoTextFiles { path } => LoadErrorView::NoTextFiles { path: path@ },
        }
    }
}

impl LoadErrorView {
    /// The error in words.
    pub open spec fn message(self) -> Seq<char> {
        match self {
            LoadErrorView::NotUtf8 { path } => "rlm context file is not valid UTF-8: "@ + path,
            LoadErrorView::LimitExceeded { total, cap } => "rlm ingest limit exceeded: "@
                + decimal::decimal(total) + " bytes (cap "@ + decimal::decimal(cap) + ")"@,
            LoadErrorView::NoTextFiles { path } => "no readable text files found under "@ + path,
        }
    }
}

impl LoadError {
    /// The error in words.
    pub fn message(&self) -> (r: String)
        ensures
            r@ == self@.message(),
    {
        match self {
            LoadError::NotUtf8 { path } => {
                let mut r: String = "rlm context file is not valid UTF-8: ".to_owned();
                r.append(path.as_str());
                r
            },
            LoadError::LimitExceeded { total, cap } => {
                let mut r: String = "rlm ingest limit exceeded: ".to_owned();
                let total_digits: String = decimal_string(*total);
                let cap_digits: String = decimal_string(*cap);
                r.append(total_digits.as_str());
                r.append(" bytes (cap ");
                r.append(cap_digits.as_str());
                r.append(")");
                r
            },
            LoadError::NoTextFiles { path } => {
                let mut r: String = "no readable text files found under ".to_owned();
                r.append(path.as_str());
                r
            },
        }
    }
}

// ---------------------------------------------------------------------------
// Model
// ---------------------------------------------------------------------------

/// Per-session state.
pub struct RlmStore {
    contexts: ContextMap,
    memory: MemoryMap,
    bytes_ingested: u64,
    max_bytes: u64,
    max_depth: u32,
}

/// What an [`RlmStore`] holds.
#[verifier::ext_equal]
pub struct StoreView {
    pub contexts: Map<Seq<char>, RlmContext>,
    pub memory: Map<Seq<char>, serde_json::Value>,
    pub bytes_ingested: nat,
    pub max_bytes: nat,
    pub max_depth: nat,
}

impl View for RlmStore {
    type V = StoreView;

    closed spec fn view(&self) -> StoreView {
        StoreView {
            contexts: shared_map::contexts_in(self.contexts),
            memory: shared_map::values_in(self.memory),
            bytes_ingested: self.bytes_ingested as nat,
            max_bytes: self.max_bytes as nat,
            max_depth: self.max_depth as nat,
        }
    }
}

/// A store that has taken in nothing.
pub open spec fn empty_store(max_bytes: nat, max_depth: nat) -> StoreView {
    StoreView {
        contexts: Map::empty(),
        memory: Map::empty(),
        bytes_ingested: 0,
        max_bytes,
        max_depth,
    }
}

/// The bytes that a store is said to have taken in when it takes in `additional` more: the
/// sum, or the greatest count if the sum is greater.
pub open spec fn total_with(bytes: nat, additional: nat) -> nat {
    if bytes + additional > u64::MAX {
        u64::MAX as nat
    } else {
        bytes + additional
    }
}

/// The count after `additional` bytes on top of `bytes`, `None` if that is over the cap.
/// The count starts anew behind its greatest value.
pub open spec fn charged(bytes: nat, additional: nat, max_bytes: nat) -> Option<nat> {
    if total_with(bytes, additional) > max_bytes {
        None
    } else if bytes + additional > u64::MAX {
        Some((bytes + additional - u64::MAX - 1) as nat)
    } else {
        Some(bytes + additional)
    }
}

impl StoreView {
    /// Whether every context is sound and stands under its own name, and the count is
    /// within the cap.
    pub open spec fn sound(self) -> bool {
        &&& forall|name: Seq<char>| #[trigger]
            self.contexts.dom().contains(name) ==> self.contexts[name]@.sound()
                && self.contexts[name]@.name == name
        &&& self.bytes_ingested <= self.max_bytes
    }

    /// The context with a name.
    pub open spec fn context(self, name: Seq<char>) -> Option<RlmContext> {
        if self.contexts.dom().contains(name) {
            Some(self.contexts[name])
        } else {
            None
        }
    }

    /// The value of a key.
    pub open spec fn value(self, key: Seq<char>) -> Option<serde_json::Value> {
        if self.memory.dom().contains(key) {
            Some(self.memory[key])
        } else {
            None
        }
    }

    /// With this value for a key.
    pub open spec fn with_value(self, key: Seq<char>, value: serde_json::Value) -> StoreView {
        StoreView { memory: self.memory.insert(key, value), ..self }
    }

    /// With this count of bytes.
    pub open spec fn with_bytes(self, bytes: nat) -> StoreView {
        StoreView { bytes_ingested: bytes, ..self }
    }

    /// With a context under its name.
    pub open spec fn with_context(self, context: RlmContext) -> StoreView {
        StoreView { contexts: self.contexts.insert(context@.name, context), ..self }
    }

    /// Whether a list is that of the names of all contexts, in order.
    pub open spec fn names_in_order(self, names: Seq<Seq<char>>) -> bool {
        &&& matching::ascending(names)
        &&& forall|name: Seq<char>| names.contains(name) <==> self.contexts.dom().contains(name)
    }

    /// The summaries of the contexts with these names.
    pub open spec fn summaries(self, names: Seq<Seq<char>>) -> Seq<records::SummaryView> {
        Seq::new(names.len(), |i: int| self.contexts[names[i]]@.summary())
    }

    /// Whether summaries are those of all contexts, in the order of their names.
    pub open spec fn summarised(self, list: Seq<records::SummaryView>) -> bool {
        exists|names: Seq<Seq<char>>| #[trigger]
            self.names_in_order(names) && list == self.summaries(names)
    }

    /// Whether a list is that of all keys, in order.
    pub open spec fn keys_in_order(self, keys: Seq<Seq<char>>) -> bool {
        &&& matching::ascending(keys)
        &&& forall|key: Seq<char>| keys.contains(key) <==> self.memory.dom().contains(key)
    }

    /// The refusal of `additional` bytes.
    pub open spec fn refusal(self, additional: nat) -> LoadErrorView {
        LoadErrorView::LimitExceeded {
            total: total_with(self.bytes_ingested, additional),
            cap: self.max_bytes,
        }
    }
}

/// The names in summaries.
pub open spec fn names_of(list: Seq<records::SummaryView>) -> Seq<Seq<char>> {
    Seq::new(list.len(), |i: int| list[i].name)
}

/// Where the gathering of files stands: what is gathered, the count of bytes, and, once a
/// file is over the cap, the refusal that ended it.
#[verifier::ext_equal]
pub struct Gathering {
    pub load: loading::GatheredView,
    pub bytes: nat,
    pub refusal: Option<LoadErrorView>,
}

/// Where the gathering of the files stands after all of them. Files that are not accepted
/// are passed over; a file that is over the cap ends it.
pub open spec fn gathering(
    list: Seq<files::SourceView>,
    name: Seq<char>,
    bytes: nat,
    max_bytes: nat,
) -> Gathering
    decreases list.len(),
{
    if list.len() == 0 {
        Gathering { load: loading::nothing(name), bytes, refusal: None }
    } else {
        let before = gathering(list.drop_last(), name, bytes, max_bytes);
        let file = list.last();
        if before.refusal is Some || !files::accepts(file) {
            before
        } else {
            match charged(before.bytes, file.raw.len(), max_bytes) {
                Some(b) => Gathering {
                    load: before.load.with_file(file.display, decode_utf8(file.raw)),
                    bytes: b,
                    refusal: None,
                },
                None => Gathering {
                    refusal: Some(
                        LoadErrorView::LimitExceeded {
                            total: total_with(before.bytes, file.raw.len()),
                            cap: max_bytes,
                        },
                    ),
                    ..before
                },
            }
        }
    }
}

// ---------------------------------------------------------------------------
// Laws
// ---------------------------------------------------------------------------

/// A value that is kept is what is read under its key, until another takes its place; other
/// keys, the contexts and the counts are as before.
pub proof fn law_memory_round_trip(
    s: StoreView,
    key: Seq<char>,
    value: serde_json::Value,
    other: Seq<char>,
)
    ensures
        s.with_value(key, value).value(other) == if other == key {
            Some(value)
        } else {
            s.value(other)
        },
        s.with_value(key, value).memory.dom() == s.memory.dom().insert(key),
        s.with_value(key, value).contexts == s.contexts,
        s.with_value(key, value).bytes_ingested == s.bytes_ingested,
        s.sound() ==> s.with_value(key, value).sound(),
{
}

/// A context that is loaded is what is read under its name; other names, the memory and the
/// caps are as before.
pub proof fn law_context_round_trip(s: StoreView, context: RlmContext, other: Seq<char>)
    ensures
        s.with_context(context).context(other) == if other == context@.name {
            Some(context)
        } else {
            s.context(other)
        },
        s.with_context(context).memory == s.memory,
        s.with_context(context).max_bytes == s.max_bytes,
        s.sound() && context@.sound() ==> s.with_context(context).sound(),
{
}

/// There is one list of the keys in order, and one of the summaries.
pub proof fn law_listings_unique(
    s: StoreView,
    keys: Seq<Seq<char>>,
    other_keys: Seq<Seq<char>>,
    list: Seq<records::SummaryView>,
    other_list: Seq<records::SummaryView>,
)
    requires
        s.keys_in_order(keys),
        s.keys_in_order(other_keys),
        s.summarised(list),
        s.summarised(other_list),
    ensures
        keys == other_keys,
        list == other_list,
{
    matching::law_ascending_unique(keys, other_keys);
    let a = choose|a: Seq<Seq<char>>| #[trigger] s.names_in_order(a) && list == s.summaries(a);
    let b = choose|b: Seq<Seq<char>>| #[trigger] s.names_in_order(b) && other_list == s.summaries(b);
    matching::law_ascending_unique(a, b);
}

/// The summaries of a sound store carry the names of its contexts, in order.
pub proof fn law_summaries_carry_names(s: StoreView, list: Seq<records::SummaryView>)
    requires
        s.sound(),
        s.summarised(list),
    ensures
        s.names_in_order(names_of(list)),
        list == s.summaries(names_of(list)),
{
    let names = choose|names: Seq<Seq<char>>| #[trigger]
        s.names_in_order(names) && list == s.summaries(names);
    assert forall|i: int| 0 <= i < names.len() implies (#[trigger] list[i]).name == names[i] by {
        assert(names.contains(names[i]));
    }
    assert(names_of(list) =~= names);
}

/// The list of keys has every key with a value and no other. Of two keys in it, the later one
/// has more bytes behind the earlier one, or the greater byte where they first differ.
pub proof fn law_keys_in_order(s: StoreView, keys: Seq<Seq<char>>, key: Seq<char>, i: int, j: int)
    requires
        s.keys_in_order(keys),
        0 <= i < j < keys.len(),
    ensures
        keys.contains(key) <==> s.value(key) is Some,
        exists|k: int|
            matching::differ_at(encode_utf8(keys[i]), encode_utf8(keys[j]), k) && (k
                == encode_utf8(keys[i]).len() || encode_utf8(keys[i])[k] < encode_utf8(
                keys[j],
            )[k]),
{
    matching::law_before(keys[i], keys[j]);
    assert(matching::before(keys[i], keys[j]));
}

/// The summaries of a sound store are those of its contexts, one for each, and their names are
/// in the order of their bytes.
pub proof fn law_summaries_in_order(
    s: StoreView,
    list: Seq<records::SummaryView>,
    name: Seq<char>,
    i: int,
    j: int,
)
    requires
        s.sound(),
        s.summarised(list),
        0 <= i < j < list.len(),
    ensures
        names_of(list).contains(name) <==> s.context(name) is Some,
        s.context(list[i].name) matches Some(context) && list[i] == context@.summary(),
        s.context(list[j].name) matches Some(context) && list[j] == context@.summary(),
        exists|k: int|
            matching::differ_at(encode_utf8(list[i].name), encode_utf8(list[j].name), k) && (k
                == encode_utf8(list[i].name).len() || encode_utf8(list[i].name)[k] < encode_utf8(
                list[j].name,
            )[k]),
{
    law_summaries_carry_names(s, list);
    let names = names_of(list);
    assert(names[i] == list[i].name && names[j] == list[j].name);
    assert(names.contains(names[i]) && names.contains(names[j]));
    matching::law_before(names[i], names[j]);
    assert(matching::before(names[i], names[j]));
}

/// A context that is loaded is among the summaries.
pub proof fn law_loaded_context_is_listed(
    s: StoreView,
    context: RlmContext,
    list: Seq<records::SummaryView>,
)
    requires
        s.with_context(context).summarised(list),
    ensures
        list.contains(context@.summary()),
{
    let after = s.with_context(context);
    let name = context@.name;
    let names = choose|names: Seq<Seq<char>>| #[trigger]
        after.names_in_order(names) && list == after.summaries(names);
    assert(after.contexts.dom().contains(name));
    assert(names.contains(name));
    let i = choose|i: int| 0 <= i < names.len() && names[i] == name;
    assert(list[i] == context@.summary());
}

/// The count of bytes never exceeds the cap, and a load is refused exactly if the count with
/// the bytes to be loaded would, as far as the count goes.
pub proof fn law_budget(bytes: nat, additional: nat, max_bytes: nat)
    requires
        bytes <= max_bytes <= u64::MAX,
        additional <= u64::MAX,
    ensures
        match charged(bytes, additional, max_bytes) {
            Some(b) => b <= max_bytes && (bytes + additional <= u64::MAX ==> b == bytes
                + additional),
            None => bytes + additional > max_bytes,
        },
        bytes + additional <= max_bytes ==> charged(bytes, additional, max_bytes) is Some,
{
}

/// The files of a list that are accepted.
pub open spec fn accepted(list: Seq<files::SourceView>) -> Seq<files::SourceView> {
    list.filter(|file: files::SourceView| files::accepts(file))
}

/// Texts of files one after another, each behind its header.
pub open spec fn with_headers(list: Seq<files::SourceView>) -> Seq<char>
    decreases list.len(),
{
    if list.len() == 0 {
        Seq::empty()
    } else {
        with_headers(list.drop_last()) + loading::file_header(list.last().display) + decode_utf8(
            list.last().raw,
        )
    }
}

/// A directory that is loaded whole holds the text of every accepted file and nothing else,
/// each behind its header, in the order of the files.
pub proof fn law_directory_holds_its_files(
    list: Seq<files::SourceView>,
    name: Seq<char>,
    bytes: nat,
    max_bytes: nat,
)
    requires
        gathering(list, name, bytes, max_bytes).refusal is None,
    ensures
        gathering(list, name, bytes, max_bytes).load.blob == with_headers(accepted(list)),
        gathering(list, name, bytes, max_bytes).load.files == accepted(list).len(),
        gathering(list, name, bytes, max_bytes).load.name == name,
    decreases list.len(),
{
    reveal(Seq::filter);
    if list.len() > 0 {
        law_directory_holds_its_files(list.drop_last(), name, bytes, max_bytes);
        let shorter = accepted(list.drop_last());
        if files::accepts(list.last()) {
            assert(accepted(list) == shorter.push(list.last()));
            assert(shorter.push(list.last()).drop_last() =~= shorter);
        }
    }
}

/// A directory whose accepted files fit the cap together is loaded whole.
pub proof fn law_directory_within_budget(
    list: Seq<files::SourceView>,
    name: Seq<char>,
    bytes: nat,
    max_bytes: nat,
)
    requires
        bytes + raw_bytes(accepted(list)) <= max_bytes <= u64::MAX,
    ensures
        gathering(list, name, bytes, max_bytes).refusal is None,
        gathering(list, name, bytes, max_bytes).bytes == bytes + raw_bytes(accepted(list)),
    decreases list.len(),
{
    reveal(Seq::filter);
    if list.len() > 0 {
        let shorter = accepted(list.drop_last());
        if files::accepts(list.last()) {
            assert(accepted(list) == shorter.push(list.last()));
            assert(shorter.push(list.last()).drop_last() =~= shorter);
        }
        law_directory_within_budget(list.drop_last(), name, bytes, max_bytes);
    }
}

/// The bytes of files.
pub open spec fn raw_bytes(list: Seq<files::SourceView>) -> nat
    decreases list.len(),
{
    if list.len() == 0 {
        0
    } else {
        raw_bytes(list.drop_last()) + list.last().raw.len()
    }
}

/// A refusal says how many bytes the store would have taken in, and how many it may.
pub proof fn law_refusal(s: StoreView, additional: nat)
    ensures
        s.refusal(additional) matches LoadErrorView::LimitExceeded { total, cap } && cap
            == s.max_bytes && (s.bytes_ingested + additional <= u64::MAX ==> total
            == s.bytes_ingested + additional) && (s.bytes_ingested + additional > u64::MAX
            ==> total == u64::MAX),
{
}

/// A directory is refused at an accepted file that goes over the cap together with the
/// accepted files before it, and at the first such file; those files stay charged.
pub proof fn law_directory_refused(
    list: Seq<files::SourceView>,
    name: Seq<char>,
    bytes: nat,
    max_bytes: nat,
) -> (n: int)
    requires
        bytes <= max_bytes < u64::MAX,
        gathering(list, name, bytes, max_bytes).refusal is Some,
    ensures
        0 <= n < list.len(),
        files::accepts(list[n]),
        ({
            let g = gathering(list, name, bytes, max_bytes);
            let before = bytes + raw_bytes(accepted(list.take(n)));
            let total = before + list[n].raw.len();
            &&& before <= max_bytes < total
            &&& g.bytes == before
            &&& g.refusal == Some(
                LoadErrorView::LimitExceeded {
                    total: if total <= u64::MAX {
                        total
                    } else {
                        u64::MAX as nat
                    },
                    cap: max_bytes,
                },
            )
        }),
    decreases list.len(),
{
    let shorter = list.drop_last();
    let before = gathering(shorter, name, bytes, max_bytes);
    if before.refusal is Some {
        let n = law_directory_refused(shorter, name, bytes, max_bytes);
        assert(shorter.take(n) =~= list.take(n));
        n
    } else {
        assert(list.take(list.len() - 1) =~= shorter);
        lemma_charged(shorter, name, bytes, max_bytes);
        list.len() - 1
    }
}

/// The accepted files of a directory that is not refused are charged with their bytes.
proof fn lemma_charged(
    list: Seq<files::SourceView>,
    name: Seq<char>,
    bytes: nat,
    max_bytes: nat,
)
    requires
        bytes <= max_bytes < u64::MAX,
        gathering(list, name, bytes, max_bytes).refusal is None,
    ensures
        gathering(list, name, bytes, max_bytes).bytes == bytes + raw_bytes(accepted(list)),
        gathering(list, name, bytes, max_bytes).bytes <= max_bytes,
    decreases list.len(),
{
    reveal(Seq::filter);
    if list.len() > 0 {
        let shorter = accepted(list.drop_last());
        lemma_charged(list.drop_last(), name, bytes, max_bytes);
        if files::accepts(list.last()) {
            assert(accepted(list) == shorter.push(list.last()));
            assert(shorter.push(list.last()).drop_last() =~= shorter);
        }
    }
}

/// The text of a directory that is loaded whole begins with the text of its first files, each
/// behind a line with its path.
pub proof fn law_directory_text(list: Seq<files::SourceView>, file: files::SourceView)
    ensures
        with_headers(list.push(file)) == with_headers(list) + "\n\n===== "@ + file.display
            + " =====\n"@ + decode_utf8(file.raw),
        with_headers(Seq::<files::SourceView>::empty()).len() == 0,
{
    assert(list.push(file).drop_last() =~= list);
    assert(with_headers(list.push(file)) =~= with_headers(list) + "\n\n===== "@ + file.display
        + " =====\n"@ + decode_utf8(file.raw));
}

/// Whether a store differs from another in nothing but the context with this name and the
/// count of bytes.
pub open spec fn differs_in_context(before: StoreView, name: Seq<char>, after: StoreView) -> bool {
    &&& after.memory == before.memory
    &&& after.max_bytes == before.max_bytes
    &&& after.max_depth == before.max_depth
    &&& forall|other: Seq<char>|
        other != name ==> #[trigger] after.context(other) == before.context(other)
}

/// Whether loading a file went as it must. A text that fits the cap becomes a context under
/// its name, with the bytes of the file as its own, and is charged; bytes that are no text,
/// or that do not fit, change nothing, and the refusal says why.
pub open spec fn file_loaded(
    before: StoreView,
    path: Seq<char>,
    raw: Seq<u8>,
    name: Seq<char>,
    r: Result<Arc<RlmContext>, LoadError>,
    after: StoreView,
) -> bool {
    let total = before.bytes_ingested + raw.len();
    &&& differs_in_context(before, name, after)
    &&& !valid_utf8(raw) ==> after == before && (r matches Err(e) && e@ == (
    LoadErrorView::NotUtf8 { path }))
    &&& valid_utf8(raw) && total <= before.max_bytes ==> {
        &&& r matches Ok(context)
        &&& context@.name == name
        &&& context@.source == path
        &&& context@.blob == raw
        &&& context@.chunks == chunking::text_chunks(decode_utf8(raw), name, None, 0, 0)
        &&& context@.sound()
        &&& after.context(name) == Some(*context)
        &&& after.bytes_ingested == total
    }
    &&& valid_utf8(raw) && before.max_bytes < total <= u64::MAX ==> after == before && (
    r matches Err(e) && e@ == (LoadErrorView::LimitExceeded { total, cap: before.max_bytes }))
}

/// What is made of the text of a file, and put into the store that is charged with its bytes,
/// is loaded as it must.
pub proof fn law_file_loaded(
    before: StoreView,
    path: Seq<char>,
    raw: Seq<u8>,
    name: Seq<char>,
    r: Result<Arc<RlmContext>, LoadError>,
    after: StoreView,
)
    requires
        before.max_bytes <= u64::MAX,
        if !valid_utf8(raw) {
            &&& r matches Err(e)
            &&& e@ == (LoadErrorView::NotUtf8 { path })
            &&& after == before
        } else {
            match charged(before.bytes_ingested, raw.len(), before.max_bytes) {
                Some(bytes) => {
                    &&& r matches Ok(context)
                    &&& loading::single(name, decode_utf8(raw)).makes(path, context@)
                    &&& after == before.with_bytes(bytes).with_context(*context)
                },
                None => {
                    &&& r matches Err(e)
                    &&& e@ == before.refusal(raw.len())
                    &&& after == before
                },
            }
        },
    ensures
        file_loaded(before, path, raw, name, r, after),
{
    if valid_utf8(raw) {
        decode_utf8_encode_utf8(raw);
    }
}

/// Whether loading a directory went as it must, into a store within its cap. The accepted
/// files, if there are any and they fit the cap together, become one context under its name,
/// whose text is theirs, each behind its header, and are charged. Without an accepted file,
/// or with more than fits, there is no context, and the refusal says why.
pub open spec fn directory_loaded(
    before: StoreView,
    path: Seq<char>,
    list: Seq<files::SourceView>,
    name: Seq<char>,
    r: Result<Arc<RlmContext>, LoadError>,
    after: StoreView,
) -> bool {
    let total = before.bytes_ingested + raw_bytes(accepted(list));
    &&& differs_in_context(before, name, after)
    &&& accepted(list).len() == 0 ==> after == before && (r matches Err(e) && e@ == (
    LoadErrorView::NoTextFiles { path }))
    &&& accepted(list).len() > 0 && total <= before.max_bytes ==> {
        &&& r matches Ok(context)
        &&& context@.name == name
        &&& context@.source == path
        &&& decode_utf8(context@.blob) == with_headers(accepted(list))
        &&& context@.sound()
        &&& after.context(name) == Some(*context)
        &&& after.bytes_ingested == total
    }
    &&& total > before.max_bytes && before.max_bytes < u64::MAX ==> after.contexts
        == before.contexts && (r matches Err(e) && e@ is LimitExceeded)
}

/// What is made of the files that were gathered, and put into the store that is charged with
/// their bytes, is loaded as it must.
pub proof fn law_directory_loaded(
    before: StoreView,
    path: Seq<char>,
    list: Seq<files::SourceView>,
    name: Seq<char>,
    r: Result<Arc<RlmContext>, LoadError>,
    after: StoreView,
)
    requires
        before.bytes_ingested <= before.max_bytes <= u64::MAX,
        ({
            let g = gathering(list, name, before.bytes_ingested, before.max_bytes);
            let charged_store = before.with_bytes(g.bytes);
            match g.refusal {
                Some(refusal) => {
                    &&& r matches Err(e)
                    &&& e@ == refusal
                    &&& after == charged_store
                },
                None => if g.load.files == 0 {
                    &&& r matches Err(e)
                    &&& e@ == (LoadErrorView::NoTextFiles { path })
                    &&& after == charged_store
                } else {
                    &&& r matches Ok(context)
                    &&& g.load.makes(path, context@)
                    &&& after == charged_store.with_context(*context)
                },
            }
        }),
    ensures
        directory_loaded(before, path, list, name, r, after),
{
    let g = gathering(list, name, before.bytes_ingested, before.max_bytes);
    let total = before.bytes_ingested + raw_bytes(accepted(list));
    if total <= before.max_bytes {
        law_directory_within_budget(list, name, before.bytes_ingested, before.max_bytes);
        law_directory_holds_its_files(list, name, before.bytes_ingested, before.max_bytes);
        encode_utf8_decode_utf8(g.load.blob);
        if accepted(list).len() == 0 {
            assert(after =~= before);
        }
    } else {
        if accepted(list).len() == 0 {
            assert(raw_bytes(accepted(list)) == 0);
        }
        if before.max_bytes < u64::MAX && g.refusal is None {
            lemma_charged(list, name, before.bytes_ingested, before.max_bytes);
        }
        if g.refusal is Some && before.max_bytes < u64::MAX {
            let n = law_directory_refused(
                list,
                name,
                before.bytes_ingested,
                before.max_bytes,
            );
        }
        if g.refusal is None {
            law_directory_holds_its_files(list, name, before.bytes_ingested, before.max_bytes);
        }
    }
}

/// A value, a count of bytes or a context that is put into a store changes nothing else.
pub proof fn law_changes_one_thing(
    s: StoreView,
    key: Seq<char>,
    value: serde_json::Value,
    bytes: nat,
    context: RlmContext,
)
    ensures
        s.with_value(key, value).max_bytes == s.max_bytes,
        s.with_value(key, value).max_depth == s.max_depth,
        s.with_bytes(bytes).bytes_ingested == bytes,
        s.with_bytes(bytes).contexts == s.contexts,
        s.with_bytes(bytes).memory == s.memory,
        s.with_bytes(bytes).max_bytes == s.max_bytes,
        s.with_bytes(bytes).max_depth == s.max_depth,
        s.with_context(context).bytes_ingested == s.bytes_ingested,
        s.with_context(context).max_depth == s.max_depth,
{
}

/// A store with the default caps takes in 50 MiB, and chains of sub-queries go two deep; it
/// begins with no context, no value and no bytes taken in.
pub proof fn law_empty_store(name: Seq<char>, max_bytes: nat, max_depth: nat)
    ensures
        DEFAULT_MAX_BYTES == 52_428_800,
        DEFAULT_MAX_DEPTH == 2,
        ({
            let s = empty_store(max_bytes, max_depth);
            &&& s.context(name) is None
            &&& s.value(name) is None
            &&& s.bytes_ingested == 0
            &&& s.max_bytes == max_bytes
            &&& s.max_depth == max_depth
        }),
{
}

/// A refusal stands: the files that come after it change nothing.
proof fn lemma_refusal_stands(
    list: Seq<files::SourceView>,
    n: int,
    name: Seq<char>,
    bytes: nat,
    max_bytes: nat,
)
    requires
        0 <= n <= list.len(),
        gathering(list.take(n), name, bytes, max_bytes).refusal is Some,
    ensures
        gathering(list, name, bytes, max_bytes) == gathering(list.take(n), name, bytes, max_bytes),
    decreases list.len(),
{
    if n == list.len() {
        assert(list.take(n) =~= list);
    } else {
        assert(list.drop_last().take(n) =~= list.take(n));
        lemma_refusal_stands(list.drop_last(), n, name, bytes, max_bytes);
    }
}

// ---------------------------------------------------------------------------
// Code
// ---------------------------------------------------------------------------

impl Default for RlmStore {
    fn default() -> (r: RlmStore)
        ensures
            r@ == empty_store(DEFAULT_MAX_BYTES as nat, DEFAULT_MAX_DEPTH as nat),
            r@.sound(),
    {
        RlmStore::new()
    }
}

impl RlmStore {
    /// An empty store with the default caps.
    pub fn new() -> (r: RlmStore)
        ensures
            r@ == empty_store(DEFAULT_MAX_BYTES as nat, DEFAULT_MAX_DEPTH as nat),
            r@.sound(),
    {
        RlmStore::with_max_bytes(DEFAULT_MAX_BYTES)
    }

    /// An empty store that takes in at most `max_bytes` bytes.
    pub fn with_max_bytes(max_bytes: u64) -> (r: RlmStore)
        ensures
            r@ == empty_store(max_bytes as nat, DEFAULT_MAX_DEPTH as nat),
            r@.sound(),
    {
        RlmStore {
            contexts: new_contexts(),
            memory: new_memory(),
            bytes_ingested: 0,
            max_bytes,
            max_depth: DEFAULT_MAX_DEPTH,
        }
    }

    /// The store with another recursion cap.
    pub fn with_max_depth(self, max_depth: u32) -> (r: RlmStore)
        ensures
            r@ == (StoreView { max_depth: max_depth as nat, ..self@ }),
    {
        RlmStore {
            contexts: self.contexts,
            memory: self.memory,
            bytes_ingested: self.bytes_ingested,
            max_bytes: self.max_bytes,
            max_depth,
        }
    }

    /// The recursion cap.
    pub fn max_depth(&self) -> (r: u32)
        ensures
            r == self@.max_depth,
    {
        self.max_depth
    }

    /// The context with this name.
    pub fn get(&self, name: &str) -> (r: Option<Arc<RlmContext>>)
        ensures
            match r {
                Some(context) => self@.context(name@) == Some(*context),
                None => self@.context(name@) is None,
            },
    {
        get_context(&self.contexts, name)
    }

    /// Describes the contexts, in the order of their names.
    pub fn list_contexts(&self) -> (r: Vec<ContextSummary>)
        ensures
            self@.summarised(records::summary_views(r@)),
    {
        let names: Vec<String> = sort_strings(context_names(&self.contexts));
        let ghost views = matching::string_views(names@);
        let mut out: Vec<ContextSummary> = Vec::new();
        let mut i: usize = 0;
        while i < names.len()
            invariant
                i <= names@.len(),
                views == matching::string_views(names@),
                forall|name: Seq<char>|
                    views.contains(name) <==> self@.contexts.dom().contains(name),
                records::summary_views(out@) == self@.summaries(views).take(i as int),
            decreases names@.len() - i,
        {
            let ghost prev = records::summary_views(out@);
            assert(views[i as int] == names@[i as int]@);
            assert(views.contains(views[i as int]));
            match get_context(&self.contexts, names[i].as_str()) {
                Some(context) => {
                    let summary: ContextSummary = context.summary();
                    let ghost s = summary@;
                    out.push(summary);
                    proof {
                        assert(records::summary_views(out@) =~= prev.push(s));
                        assert(prev.push(s) =~= self@.summaries(views).take(i + 1));
                    }
                },
                None => {
                    assert(false);
                },
            }
            i += 1;
        }
        proof {
            assert(self@.summaries(views).take(i as int) =~= self@.summaries(views));
            assert(self@.names_in_order(views));
        }
        out
    }

    /// Keeps a value under a key, in place of the one that was there.
    pub fn store_memory(&mut self, key: String, value: serde_json::Value)
        ensures
            final(self)@ == old(self)@.with_value(key@, value),
    {
        insert_value(&mut self.memory, key, Arc::new(value));
    }

    /// The value that is kept under a key.
    pub fn retrieve_memory(&self, key: &str) -> (r: Option<Arc<serde_json::Value>>)
        ensures
            match r {
                Some(value) => self@.value(key@) == Some(*value),
                None => self@.value(key@) is None,
            },
    {
        get_value(&self.memory, key)
    }

    /// The keys of the memory in order.
    pub fn list_memory_keys(&self) -> (r: Vec<String>)
        ensures
            self@.keys_in_order(matching::string_views(r@)),
    {
        sort_strings(memory_keys(&self.memory))
    }

    /// Counts `additional` bytes as taken in, unless that is over the cap.
    fn check_budget(&mut self, additional: u64) -> (r: Result<(), LoadError>)
        ensures
            match charged(old(self)@.bytes_ingested, additional as nat, old(self)@.max_bytes) {
                Some(bytes) => r is Ok && final(self)@ == old(self)@.with_bytes(bytes),
                None => r matches Err(e) && e@ == old(self)@.refusal(additional as nat)
                    && final(self)@ == old(self)@,
            },
    {
        let total: u64 = self.bytes_ingested.saturating_add(additional);
        if total > self.max_bytes {
            return Err(LoadError::LimitExceeded { total, cap: self.max_bytes });
        }
        self.bytes_ingested = self.bytes_ingested.wrapping_add(additional);
        Ok(())
    }

    /// Loads a file as a context. `raw` is what the file at `path` holds.
    pub fn load_file(&mut self, path: &str, raw: Vec<u8>, name: &str) -> (r: Result<
        Arc<RlmContext>,
        LoadError,
    >)
        ensures
            if !valid_utf8(raw@) {
                &&& r matches Err(e)
                &&& e@ == (LoadErrorView::NotUtf8 { path: path@ })
                &&& final(self)@ == old(self)@
            } else {
                match charged(old(self)@.bytes_ingested, raw@.len(), old(self)@.max_bytes) {
                    Some(bytes) => {
                        &&& r matches Ok(context)
                        &&& loading::single(name@, decode_utf8(raw@)).makes(path@, context@)
                        &&& final(self)@ == old(self)@.with_bytes(bytes).with_context(*context)
                    },
                    None => {
                        &&& r matches Err(e)
                        &&& e@ == old(self)@.refusal(raw@.len())
                        &&& final(self)@ == old(self)@
                    },
                }
            },
            old(self)@.sound() ==> final(self)@.sound(),
            file_loaded(old(self)@, path@, raw@, name@, r, final(self)@),
    {
        let ghost before = self@;
        let text: &str = match utf8_text(raw.as_slice()) {
            Some(text) => text,
            None => {
                return Err(LoadError::NotUtf8 { path: path.to_owned() });
            },
        };
        match self.check_budget(raw.len() as u64) {
            Ok(()) => {},
            Err(e) => {
                proof {
                    law_file_loaded(before, path@, raw@, name@, Err(e), self@);
                }
                return Err(e);
            },
        }
        let context: Arc<RlmContext> = Arc::new(Gathered::of_text(name, text).into_context(path));
        insert_context(&mut self.contexts, name.to_owned(), context.clone());
        proof {
            law_file_loaded(before, path@, raw@, name@, Ok(context), self@);
        }
        Ok(context)
    }

    /// Adds a file of a directory to what is gathered, unless it is not accepted. Tells
    /// whether it was added.
    pub fn add_file(&mut self, load: &mut Gathered, file: &SourceFile) -> (r: Result<
        bool,
        LoadError,
    >)
        requires
            old(load)@.sound(),
        ensures
            final(load)@.sound(),
            files::path_known(file@.extension, file@.file_name),
            if !files::accepts(file@) {
                &&& r == Ok::<bool, LoadError>(false)
                &&& final(self)@ == old(self)@
                &&& final(load)@ == old(load)@
            } else {
                match charged(old(self)@.bytes_ingested, file@.raw.len(), old(self)@.max_bytes) {
                    Some(bytes) => {
                        &&& r == Ok::<bool, LoadError>(true)
                        &&& final(self)@ == old(self)@.with_bytes(bytes)
                        &&& final(load)@ == old(load)@.with_file(
                            file@.display,
                            decode_utf8(file@.raw),
                        )
                    },
                    None => {
                        &&& r matches Err(e)
                        &&& e@ == old(self)@.refusal(file@.raw.len())
                        &&& final(self)@ == old(self)@
                        &&& final(load)@ == old(load)@
                    },
                }
            },
            old(self)@.sound() ==> final(self)@.sound(),
    {
        if should_skip_path(&file.path) {
            return Ok(false);
        }
        self.add_contents(load, file.path.display.as_str(), file.raw.as_slice())
    }

    /// Adds what a file holds, whose path is not one to skip, to what is gathered, unless it
    /// is not read. Tells whether it was added.
    pub fn add_contents(&mut self, load: &mut Gathered, display: &str, raw: &[u8]) -> (r: Result<
        bool,
        LoadError,
    >)
        requires
            old(load)@.sound(),
        ensures
            final(load)@.sound(),
            if !files::readable(raw@) {
                &&& r == Ok::<bool, LoadError>(false)
                &&& final(self)@ == old(self)@
                &&& final(load)@ == old(load)@
            } else {
                match charged(old(self)@.bytes_ingested, raw@.len(), old(self)@.max_bytes) {
                    Some(bytes) => {
                        &&& r == Ok::<bool, LoadError>(true)
                        &&& final(self)@ == old(self)@.with_bytes(bytes)
                        &&& final(load)@ == old(load)@.with_file(display@, decode_utf8(raw@))
                    },
                    None => {
                        &&& r matches Err(e)
                        &&& e@ == old(self)@.refusal(raw@.len())
                        &&& final(self)@ == old(self)@
                        &&& final(load)@ == old(load)@
                    },
                }
            },
            old(self)@.sound() ==> final(self)@.sound(),
    {
        let n: usize = raw.len();
        if n > LARGE_FILE_BYTES {
            let sample: &[u8] = &raw[0..SAMPLE_BYTES];
            assert(sample@ =~= raw@.take(SAMPLE_BYTES as int));
            if !is_likely_text(sample) {
                return Ok(false);
            }
        }
        let text: &str = match utf8_text(raw) {
            Some(text) => text,
            None => {
                return Ok(false);
            },
        };
        match self.check_budget(n as u64) {
            Ok(()) => {},
            Err(e) => {
                return Err(e);
            },
        }
        load.add_text(display, text);
        Ok(true)
    }

    /// Makes a context of what is gathered from the directory at `path`. There is none if no
    /// file was added.
    pub fn finish_directory(&mut self, load: Gathered, path: &str) -> (r: Result<
        Arc<RlmContext>,
        LoadError,
    >)
        requires
            load@.sound(),
        ensures
            if load@.files == 0 {
                &&& r matches Err(e)
                &&& e@ == (LoadErrorView::NoTextFiles { path: path@ })
                &&& final(self)@ == old(self)@
            } else {
                &&& r matches Ok(context)
                &&& load@.makes(path@, context@)
                &&& final(self)@ == old(self)@.with_context(*context)
            },
            old(self)@.sound() ==> final(self)@.sound(),
    {
        if load.file_count() == 0 {
            return Err(LoadError::NoTextFiles { path: path.to_owned() });
        }
        let context: Arc<RlmContext> = Arc::new(load.into_context(path));
        let name: String = context.summary().name;
        insert_context(&mut self.contexts, name, context.clone());
        Ok(context)
    }

    /// Loads a directory as a single context. `list` is the files found under `path`.
    pub fn load_directory(&mut self, path: &str, list: Vec<SourceFile>, name: &str) -> (r: Result<
        Arc<RlmContext>,
        LoadError,
    >)
        ensures
            ({
                let g = gathering(
                    files::source_views(list@),
                    name@,
                    old(self)@.bytes_ingested,
                    old(self)@.max_bytes,
                );
                let charged_store = old(self)@.with_bytes(g.bytes);
                match g.refusal {
                    Some(refusal) => {
                        &&& r matches Err(e)
                        &&& e@ == refusal
                        &&& final(self)@ == charged_store
                    },
                    None => if g.load.files == 0 {
                        &&& r matches Err(e)
                        &&& e@ == (LoadErrorView::NoTextFiles { path: path@ })
                        &&& final(self)@ == charged_store
                    } else {
                        &&& r matches Ok(context)
                        &&& g.load.makes(path@, context@)
                        &&& final(self)@ == charged_store.with_context(*context)
                    },
                }
            }),
            old(self)@.sound() ==> final(self)@.sound(),
            old(self)@.sound() ==> directory_loaded(
                old(self)@,
                path@,
                files::source_views(list@),
                name@,
                r,
                final(self)@,
            ),
    {
        let mut load: Gathered = Gathered::new(name);
        let ghost views = files::source_views(list@);
        let ghost start = self@;
        let mut i: usize = 0;
        proof {
            assert(views.take(0) =~= Seq::<files::SourceView>::empty());
            assert(self@ =~= start.with_bytes(start.bytes_ingested));
        }
        while i < list.len()
            invariant
                i <= list@.len(),
                views == files::source_views(list@),
                start == old(self)@,
                load@.sound(),
                start.sound() ==> self@.sound(),
                ({
                    let g = gathering(
                        views.take(i as int),
                        name@,
                        start.bytes_ingested,
                        start.max_bytes,
                    );
                    &&& g.refusal is None
                    &&& g.load == load@
                    &&& self@ == start.with_bytes(g.bytes)
                }),
            decreases list@.len() - i,
        {
            proof {
                assert(views.take(i + 1).drop_last() =~= views.take(i as int));
                assert(views.take(i + 1).last() == list@[i as int]@);
            }
            match self.add_file(&mut load, &list[i]) {
                Ok(_) => {},
                Err(e) => {
                    proof {
                        lemma_refusal_stands(
                            views,
                            i + 1,
                            name@,
                            start.bytes_ingested,
                            start.max_bytes,
                        );
                        if start.sound() {
                            law_directory_loaded(start, path@, views, name@, Err(e), self@);
                        }
                    }
                    return Err(e);
                },
            }
            i += 1;
        }
        proof {
            assert(views.take(i as int) =~= views);
        }
        let r: Result<Arc<RlmContext>, LoadError> = self.finish_directory(load, path);
        proof {
            if start.sound() {
                law_directory_loaded(start, path@, views, name@, r, self@);
            }
        }
        r
    }
}

} // verus!
