//! Which files of a directory are read.
use vstd::prelude::*;
use vstd::string::*;
use vstd::utf8::*;

use crate::matching;
use crate::matching::str_ends_with;
use crate::text;
use crate::text::str_eq;
use crate::unicode;
use crate::unicode::to_lowercase;

verus! {

/// A path as far as loading looks at it: how it is shown, its last component, and the
/// extension of that. The last two are absent where the path has none or it is not UTF-8.
#[derive(Debug)]
pub struct FilePath {
    pub display: String,
    pub file_name: Option<String>,
    pub extension: Option<String>,
}

/// A file of a directory with what it holds.
#[derive(Debug)]
pub struct SourceFile {
    pub path: FilePath,
    pub raw: Vec<u8>,
}

/// What a [`SourceFile`] holds.
pub struct SourceView {
    pub display: Seq<char>,
    pub file_name: Option<Seq<char>>,
    pub extension: Option<Seq<char>>,
    pub raw: Seq<u8>,
}

impl View for SourceFile {
    type V = SourceView;

    open spec fn view(&self) -> SourceView {
        SourceView {
            display: self.path.display@,
            file_name: text::opt_view(self.path.file_name),
            extension: text::opt_view(self.path.extension),
            raw: self.raw@,
        }
    }
}

/// What a list of files holds.
pub open spec fn source_views(v: Seq<SourceFile>) -> Seq<SourceView> {
    Seq::new(v.len(), |i: int| v[i]@)
}

// ---------------------------------------------------------------------------
// Names
// ---------------------------------------------------------------------------

/// The extensions of files that are skipped (binary or generated).
pub open spec fn skip_extensions() -> Seq<Seq<char>> {
    seq![
        "png"@,
        "jpg"@,
        "jpeg"@,
        "gif"@,
        "webp"@,
        "ico"@,
        "bmp"@,
        "tiff"@,
        "svg"@,
        "pdf"@,
        "zip"@,
        "tar"@,
        "gz"@,
        "tgz"@,
        "bz2"@,
        "xz"@,
        "7z"@,
        "rar"@,
        "exe"@,
        "dll"@,
        "so"@,
        "dylib"@,
        "a"@,
        "o"@,
        "obj"@,
        "class"@,
        "jar"@,
        "wasm"@,
        "pyc"@,
        "pyo"@,
        "lock"@,
        "min.js"@,
        "min.css"@,
        "woff"@,
        "woff2"@,
        "ttf"@,
        "otf"@,
        "mp3"@,
        "mp4"@,
        "mov"@,
        "avi"@,
        "mkv"@,
        "wav"@,
        "flac"@,
        "ogg"@,
    ]
}

/// Whether a file with this extension and name, both in lower case, is skipped: the
/// extension is one of the list, or the name ends in a dot and one of the list.
pub open spec fn skipped(extension: Option<Seq<char>>, name: Option<Seq<char>>) -> bool {
    ||| extension matches Some(e) && skip_extensions().contains(e)
    ||| name matches Some(n) && exists|i: int|
        0 <= i < skip_extensions().len() && matching::ends_with(
            n,
            seq!['.'] + #[trigger] skip_extensions()[i],
        )
}

/// An optional text in lower case.
pub open spec fn opt_lowercase(o: Option<Seq<char>>) -> Option<Seq<char>> {
    match o {
        Some(s) => Some(unicode::lowercase(s)),
        None => None,
    }
}

/// Whether a file is skipped by its path, case aside.
pub open spec fn skips(extension: Option<Seq<char>>, name: Option<Seq<char>>) -> bool {
    skipped(opt_lowercase(extension), opt_lowercase(name))
}

/// What is known of a path that is looked at: the lower case of its extension and name, if
/// they are ASCII.
pub open spec fn path_known(extension: Option<Seq<char>>, name: Option<Seq<char>>) -> bool {
    unicode::opt_case_known(extension) && unicode::opt_case_known(name)
}

/// An ASCII extension of the list is skipped, whatever the case of its letters.
pub proof fn law_ascii_extension_is_skipped(extension: Seq<char>, name: Option<Seq<char>>)
    requires
        path_known(Some(extension), name),
        unicode::ascii(extension),
        skip_extensions().contains(unicode::ascii_lowercase(extension)),
    ensures
        skips(Some(extension), name),
{
}

/// The list of [`skip_extensions`].
fn extension_list() -> (r: Vec<&'static str>)
    ensures
        r@.len() == skip_extensions().len(),
        forall|i: int| 0 <= i < r@.len() ==> (#[trigger] r@[i])@ == skip_extensions()[i],
{
    vec![
        "png",
        "jpg",
        "jpeg",
        "gif",
        "webp",
        "ico",
        "bmp",
        "tiff",
        "svg",
        "pdf",
        "zip",
        "tar",
        "gz",
        "tgz",
        "bz2",
        "xz",
        "7z",
        "rar",
        "exe",
        "dll",
        "so",
        "dylib",
        "a",
        "o",
        "obj",
        "class",
        "jar",
        "wasm",
        "pyc",
        "pyo",
        "lock",
        "min.js",
        "min.css",
        "woff",
        "woff2",
        "ttf",
        "otf",
        "mp3",
        "mp4",
        "mov",
        "avi",
        "mkv",
        "wav",
        "flac",
        "ogg",
    ]
}

/// Whether a file with this extension and name, both in lower case, is skipped.
pub fn is_skipped(extension: Option<&str>, name: Option<&str>) -> (r: bool)
    ensures
        r == skipped(
            match extension {
                Some(e) => Some(e@),
                None => None,
            },
            match name {
                Some(n) => Some(n@),
                None => None,
            },
        ),
{
    let list: Vec<&'static str> = extension_list();
    let mut i: usize = 0;
    while i < list.len()
        invariant
            i <= list@.len(),
            list@.len() == skip_extensions().len(),
            forall|j: int| 0 <= j < list@.len() ==> (#[trigger] list@[j])@ == skip_extensions()[j],
            forall|j: int|
                0 <= j < i ==> (extension matches Some(e) ==> e@ != #[trigger] skip_extensions()[j]),
            forall|j: int|
                0 <= j < i ==> (name matches Some(n) ==> !matching::ends_with(
                    n@,
                    seq!['.'] + #[trigger] skip_extensions()[j],
                )),
        decreases list@.len() - i,
    {
        let ghost item = skip_extensions()[i as int];
        assert(list@[i as int]@ == item);
        if let Some(e) = extension {
            if str_eq(e, list[i]) {
                assert(skip_extensions().contains(e@));
                return true;
            }
        }
        if let Some(n) = name {
            let mut suffix: String = ".".to_owned();
            suffix.append(list[i]);
            proof {
                reveal_strlit(".");
                assert(suffix@ =~= seq!['.'] + item);
            }
            if str_ends_with(n, suffix.as_str()) {
                return true;
            }
        }
        i += 1;
    }
    false
}

/// Whether the file at a path is skipped during directory ingest (binary or generated).
pub fn should_skip_path(path: &FilePath) -> (r: bool)
    ensures
        r == skips(text::opt_view(path.extension), text::opt_view(path.file_name)),
        path_known(text::opt_view(path.extension), text::opt_view(path.file_name)),
{
    let extension: Option<String> = match &path.extension {
        Some(e) => Some(to_lowercase(e.as_str())),
        None => None,
    };
    let name: Option<String> = match &path.file_name {
        Some(n) => Some(to_lowercase(n.as_str())),
        None => None,
    };
    let e: Option<&str> = match &extension {
        Some(e) => Some(e.as_str()),
        None => None,
    };
    let n: Option<&str> = match &name {
        Some(n) => Some(n.as_str()),
        None => None,
    };
    is_skipped(e, n)
}

/// Whether the last characters of a name are a dot and this extension.
pub open spec fn ends_in(name: Seq<char>, extension: Seq<char>) -> bool {
    let suffix = seq!['.'] + extension;
    suffix.len() <= name.len() && name.skip(name.len() - suffix.len()) == suffix
}

/// A path is skipped exactly if its extension, in lower case, is in the list, or the last
/// characters of its name, in lower case, are a dot and an entry of the list. An entry in
/// the middle of a name does not count.
pub proof fn law_skips(extension: Option<Seq<char>>, name: Option<Seq<char>>)
    ensures
        skips(extension, name) <==> {
            ||| extension matches Some(e) && skip_extensions().contains(unicode::lowercase(e))
            ||| name matches Some(n) && exists|i: int|
                0 <= i < skip_extensions().len() && ends_in(
                    unicode::lowercase(n),
                    #[trigger] skip_extensions()[i],
                )
        },
{
    if let Some(n) = name {
        matching::lemma_all_ends(unicode::lowercase(n));
    }
}

/// The extensions that are skipped: those of pictures, documents that are not text, archives,
/// programs and libraries, compiled code, lock files, minified sources, fonts, sound and
/// film. No other one is.
pub proof fn law_skip_list(x: Seq<char>)
    ensures
        skip_extensions().contains(x) <==> {
            ||| x == "png"@
            ||| x == "jpg"@
            ||| x == "jpeg"@
            ||| x == "gif"@
            ||| x == "webp"@
            ||| x == "ico"@
            ||| x == "bmp"@
            ||| x == "tiff"@
            ||| x == "svg"@
            ||| x == "pdf"@
            ||| x == "zip"@
            ||| x == "tar"@
            ||| x == "gz"@
            ||| x == "tgz"@
            ||| x == "bz2"@
            ||| x == "xz"@
            ||| x == "7z"@
            ||| x == "rar"@
            ||| x == "exe"@
            ||| x == "dll"@
            ||| x == "so"@
            ||| x == "dylib"@
            ||| x == "a"@
            ||| x == "o"@
            ||| x == "obj"@
            ||| x == "class"@
            ||| x == "jar"@
            ||| x == "wasm"@
            ||| x == "pyc"@
            ||| x == "pyo"@
            ||| x == "lock"@
            ||| x == "min.js"@
            ||| x == "min.css"@
            ||| x == "woff"@
            ||| x == "woff2"@
            ||| x == "ttf"@
            ||| x == "otf"@
            ||| x == "mp3"@
            ||| x == "mp4"@
            ||| x == "mov"@
            ||| x == "avi"@
            ||| x == "mkv"@
            ||| x == "wav"@
            ||| x == "flac"@
            ||| x == "ogg"@
        },
{
    let list = skip_extensions();
    assert(list.len() == 45);
    assert(list[0] == "png"@);
    assert(list[1] == "jpg"@);
    assert(list[2] == "jpeg"@);
    assert(list[3] == "gif"@);
    assert(list[4] == "webp"@);
    assert(list[5] == "ico"@);
    assert(list[6] == "bmp"@);
    assert(list[7] == "tiff"@);
    assert(list[8] == "svg"@);
    assert(list[9] == "pdf"@);
    assert(list[10] == "zip"@);
    assert(list[11] == "tar"@);
    assert(list[12] == "gz"@);
    assert(list[13] == "tgz"@);
    assert(list[14] == "bz2"@);
    assert(list[15] == "xz"@);
    assert(list[16] == "7z"@);
    assert(list[17] == "rar"@);
    assert(list[18] == "exe"@);
    assert(list[19] == "dll"@);
    assert(list[20] == "so"@);
    assert(list[21] == "dylib"@);
    assert(list[22] == "a"@);
    assert(list[23] == "o"@);
    assert(list[24] == "obj"@);
    assert(list[25] == "class"@);
    assert(list[26] == "jar"@);
    assert(list[27] == "wasm"@);
    assert(list[28] == "pyc"@);
    assert(list[29] == "pyo"@);
    assert(list[30] == "lock"@);
    assert(list[31] == "min.js"@);
    assert(list[32] == "min.css"@);
    assert(list[33] == "woff"@);
    assert(list[34] == "woff2"@);
    assert(list[35] == "ttf"@);
    assert(list[36] == "otf"@);
    assert(list[37] == "mp3"@);
    assert(list[38] == "mp4"@);
    assert(list[39] == "mov"@);
    assert(list[40] == "avi"@);
    assert(list[41] == "mkv"@);
    assert(list[42] == "wav"@);
    assert(list[43] == "flac"@);
    assert(list[44] == "ogg"@);
}

// ---------------------------------------------------------------------------
// Contents
// ---------------------------------------------------------------------------

/// Whether a byte is a control character that text does not use: neither tab, line break
/// and the like, nor escape.
pub open spec fn nonprint(b: u8) -> bool {
    b < 0x09 || (0x0d < b && b < 0x20 && b != 0x1b)
}

/// The number of such bytes.
pub open spec fn nonprints(sample: Seq<u8>) -> nat
    decreases sample.len(),
{
    if sample.len() == 0 {
        0
    } else {
        nonprints(sample.drop_last()) + if nonprint(sample.last()) {
            1nat
        } else {
            0nat
        }
    }
}

/// Whether a sample looks like text: it is empty, or its share of such bytes, in whole
/// percent, is less than five.
pub open spec fn likely_text(sample: Seq<u8>) -> bool {
    sample.len() == 0 || nonprints(sample) * 100 / sample.len() < 5
}

/// Whether a sample looks like text.
pub fn is_likely_text(sample: &[u8]) -> (r: bool)
    ensures
        r == likely_text(sample@),
{
    if sample.len() == 0 {
        return true;
    }
    let n: usize = sample.len();
    let mut count: usize = 0;
    let mut i: usize = 0;
    proof {
        assert(sample@.take(0) =~= Seq::<u8>::empty());
    }
    while i < n
        invariant
            i <= n,
            n == sample@.len(),
            count <= i,
            count == nonprints(sample@.take(i as int)),
        decreases n - i,
    {
        let b: u8 = sample[i];
        proof {
            assert(sample@.take(i + 1).drop_last() =~= sample@.take(i as int));
            assert(sample@.take(i + 1).last() == b);
        }
        if b < 0x09 || (b > 0x0d && b < 0x20 && b != 0x1b) {
            count += 1;
        }
        i += 1;
    }
    proof {
        assert(sample@.take(i as int) =~= sample@);
    }
    (count as u128) * 100 / (n as u128) < 5
}

/// The size above which a file must look like text to be read.
pub const LARGE_FILE_BYTES: usize = 1_000_000;

/// The part of a large file that is looked at.
pub const SAMPLE_BYTES: usize = 8192;

/// Whether what a file holds is read: it looks like text if it is large, and it is UTF-8.
pub open spec fn readable(raw: Seq<u8>) -> bool {
    &&& raw.len() > LARGE_FILE_BYTES ==> likely_text(
        raw.take(text::min_int(raw.len() as int, SAMPLE_BYTES as int)),
    )
    &&& valid_utf8(raw)
}

/// Whether a file is read: its path is not one to skip, and what it holds is read.
pub open spec fn accepts(file: SourceView) -> bool {
    !skips(file.extension, file.file_name) && readable(file.raw)
}

/// Whether a byte is a control byte other than tab, line feed, vertical tab, form feed,
/// carriage return and escape.
pub open spec fn control_byte() -> spec_fn(u8) -> bool {
    |b: u8| b <= 8 || 14 <= b <= 26 || 28 <= b <= 31
}

/// A sample looks like text exactly if it is empty, or fewer than one in twenty of its bytes
/// are control bytes.
pub proof fn law_likely_text(sample: Seq<u8>)
    ensures
        likely_text(sample) <==> sample.len() == 0 || 20 * sample.filter(control_byte()).len()
            < sample.len(),
{
    lemma_nonprints(sample);
    if sample.len() > 0 {
        let c = nonprints(sample) as int;
        let n = sample.len() as int;
        assert((c * 100) / n < 5 <==> c * 100 < 5 * n) by (nonlinear_arith)
            requires
                0 <= c,
                0 < n,
        ;
    }
}

proof fn lemma_nonprints(sample: Seq<u8>)
    ensures
        nonprints(sample) == sample.filter(control_byte()).len(),
    decreases sample.len(),
{
    reveal(Seq::filter);
    if sample.len() > 0 {
        lemma_nonprints(sample.drop_last());
    }
}

/// A file is accepted exactly if it is not skipped by its path, is UTF-8, and, if it has more
/// than a million bytes, looks like text in the first 8192 of them. So a small text file
/// whose extension is not in the list, and whose name does not end in one, is accepted.
pub proof fn law_accepts(file: SourceView)
    ensures
        accepts(file) <==> {
            &&& !(file.extension matches Some(e) && skip_extensions().contains(
                unicode::lowercase(e),
            ))
            &&& !(file.file_name matches Some(n) && exists|i: int|
                0 <= i < skip_extensions().len() && ends_in(
                    unicode::lowercase(n),
                    #[trigger] skip_extensions()[i],
                ))
            &&& valid_utf8(file.raw)
            &&& file.raw.len() > 1_000_000 ==> 20 * file.raw.take(8192).filter(
                control_byte(),
            ).len() < 8192
        },
{
    law_skips(file.extension, file.file_name);
    if file.raw.len() > 1_000_000 {
        law_likely_text(file.raw.take(8192));
    }
}

} // verus!
