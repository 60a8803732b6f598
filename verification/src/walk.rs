//! The files of a repository that go into a digest: which walked entries are
//! kept, and in what order they come.

use vstd::prelude::*;

use crate::path::{components_of, extension_of, file_name_of, path_components, path_extension, path_file_name, path_strip_prefix, strings_view, strip_prefix_of};
use crate::text::{ascii_lowercase, ascii_lowercase_of, char_vec, chars_less, chars_lt, lemma_chars_lt_asymmetric, lemma_chars_lt_irreflexive, lemma_chars_lt_total, lemma_chars_lt_transitive, same_text};

verus! {

/// A file that goes into the digest: where it is, where it is relative to
/// the repository root, and its size.
#[derive(Debug, Clone, PartialEq, Eq)]
pub struct CandidateFile {
    pub absolute_path: String,
    pub relative_path: String,
    pub size_bytes: u64,
}

/// The components of each file's relative path, in order.
pub open spec fn file_paths(files: Seq<CandidateFile>) -> Seq<Seq<Seq<char>>> {
    files.map_values(|f: CandidateFile| path_components(f.relative_path@))
}

/// A copy of `file`.
pub fn copy_candidate(file: &CandidateFile) -> (r: CandidateFile)
    ensures
        r == *file,
{
    CandidateFile {
        absolute_path: file.absolute_path.clone(),
        relative_path: file.relative_path.clone(),
        size_bytes: file.size_bytes,
    }
}


/// Files larger than this many bytes are left out.
pub const MAX_FILE_SIZE_BYTES: u64 = 512 * 1024;

/// Directories that are never walked into.
pub open spec fn default_excluded_dirs() -> Seq<Seq<char>> {
    seq![".git"@, "target"@, "node_modules"@, "dist"@, "build"@, ".svelte-kit"@]
}

/// Extensions (compared in ASCII lower case) of files that are left out.
pub open spec fn default_excluded_extensions() -> Seq<Seq<char>> {
    seq![
        "png"@, "jpg"@, "jpeg"@, "gif"@, "webp"@, "ico"@, "pdf"@, "zip"@, "tar"@, "gz"@, "xz"@, "7z"@, "rar"@,
        "mp4"@, "mov"@, "mp3"@, "wav"@, "ogg"@, "ttf"@, "otf"@, "woff"@, "woff2"@, "class"@, "jar"@, "wasm"@, "so"@,
        "dll"@, "dylib"@, "exe"@,
    ]
}

/// The views of a sequence of string slices.
pub open spec fn strs_view(v: Seq<&str>) -> Seq<Seq<char>> {
    v.map_values(|s: &str| s@)
}

fn excluded_dir_list() -> (v: Vec<&'static str>)
    ensures
        strs_view(v@) == default_excluded_dirs(),
{
    let v = vec![".git", "target", "node_modules", "dist", "build", ".svelte-kit"];
    assert(strs_view(v@) =~= default_excluded_dirs());
    v
}

fn excluded_extension_list() -> (v: Vec<&'static str>)
    ensures
        strs_view(v@) == default_excluded_extensions(),
{
    let v = vec![
        "png", "jpg", "jpeg", "gif", "webp", "ico", "pdf", "zip", "tar", "gz", "xz", "7z", "rar",
        "mp4", "mov", "mp3", "wav", "ogg", "ttf", "otf", "woff", "woff2", "class", "jar", "wasm", "so",
        "dll", "dylib", "exe",
    ];
    assert(strs_view(v@) =~= default_excluded_extensions());
    v
}

fn is_listed(name: &str, list: &Vec<&'static str>) -> (r: bool)
    ensures
        r == strs_view(list@).contains(name@),
{
    for i in 0..list.len()
        invariant
            forall|j: int| 0 <= j < i ==> (#[trigger] list@[j])@ != name@,
    {
        if same_text(list[i], name) {
            assert(strs_view(list@)[i as int] == name@);
            return true;
        }
    }
    assert forall|j: int| 0 <= j < strs_view(list@).len() implies #[trigger] strs_view(list@)[j] != name@ by {
        assert(strs_view(list@)[j] == list@[j]@);
    }
    false
}

/// The directories that are never walked into are exactly `.git`,
/// `target`, `node_modules`, `dist`, `build` and `.svelte-kit`.
pub proof fn law_default_excluded_dirs(name: Seq<char>)
    ensures
        default_excluded_dirs().contains(name) == (name == ".git"@ || name == "target"@ || name == "node_modules"@
            || name == "dist"@ || name == "build"@ || name == ".svelte-kit"@),
{
    let d = default_excluded_dirs();
    if d.contains(name) {
        let i = choose|i: int| 0 <= i < d.len() && d[i] == name;
        assert(i == 0 || i == 1 || i == 2 || i == 3 || i == 4 || i == 5);
    }
    if name == ".git"@ { assert(d[0] == name); }
    if name == "target"@ { assert(d[1] == name); }
    if name == "node_modules"@ { assert(d[2] == name); }
    if name == "dist"@ { assert(d[3] == name); }
    if name == "build"@ { assert(d[4] == name); }
    if name == ".svelte-kit"@ { assert(d[5] == name); }
}

/// Whether `path` names one of the directories that are never walked into:
/// its final component is `.git`, `target`, `node_modules`, `dist`, `build`
/// or `.svelte-kit`.
pub fn is_default_excluded_dir(path: &str) -> (r: bool)
    ensures
        r == (path_file_name(path@) matches Some(name) && default_excluded_dirs().contains(name)),
        r == (path_file_name(path@) matches Some(name) && (name == ".git"@ || name == "target"@
            || name == "node_modules"@ || name == "dist"@ || name == "build"@ || name == ".svelte-kit"@)),
{
    proof {
        if path_file_name(path@) is Some {
            law_default_excluded_dirs(path_file_name(path@)->0);
        }
    }
    match file_name_of(path) {
        Some(name) => is_listed(name, &excluded_dir_list()),
        None => false,
    }
}

/// The extensions of files that are left out are exactly png, jpg, jpeg,
/// gif, webp, ico, pdf, zip, tar, gz, xz, 7z, rar, mp4, mov, mp3, wav, ogg,
/// ttf, otf, woff, woff2, class, jar, wasm, so, dll, dylib and exe.
pub proof fn law_default_excluded_extensions(ext: Seq<char>)
    ensures
        default_excluded_extensions().contains(ext) == (ext == "png"@ || ext == "jpg"@ || ext == "jpeg"@ || ext == "gif"@ || ext == "webp"@ || ext == "ico"@ || ext == "pdf"@ || ext == "zip"@ || ext == "tar"@ || ext == "gz"@ || ext == "xz"@ || ext == "7z"@ || ext == "rar"@ || ext == "mp4"@ || ext == "mov"@ || ext == "mp3"@ || ext == "wav"@ || ext == "ogg"@ || ext == "ttf"@ || ext == "otf"@ || ext == "woff"@ || ext == "woff2"@ || ext == "class"@ || ext == "jar"@ || ext == "wasm"@ || ext == "so"@ || ext == "dll"@ || ext == "dylib"@ || ext == "exe"@),
{
    let d = default_excluded_extensions();
    if d.contains(ext) {
        let i = choose|i: int| 0 <= i < d.len() && d[i] == ext;
        assert(i == 0 || i == 1 || i == 2 || i == 3 || i == 4 || i == 5 || i == 6 || i == 7 || i == 8 || i == 9 || i == 10 || i == 11 || i == 12 || i == 13 || i == 14 || i == 15 || i == 16 || i == 17 || i == 18 || i == 19 || i == 20 || i == 21 || i == 22 || i == 23 || i == 24 || i == 25 || i == 26 || i == 27 || i == 28);
    }
    if ext == "png"@ { assert(d[0] == ext); }
    if ext == "jpg"@ { assert(d[1] == ext); }
    if ext == "jpeg"@ { assert(d[2] == ext); }
    if ext == "gif"@ { assert(d[3] == ext); }
    if ext == "webp"@ { assert(d[4] == ext); }
    if ext == "ico"@ { assert(d[5] == ext); }
    if ext == "pdf"@ { assert(d[6] == ext); }
    if ext == "zip"@ { assert(d[7] == ext); }
    if ext == "tar"@ { assert(d[8] == ext); }
    if ext == "gz"@ { assert(d[9] == ext); }
    if ext == "xz"@ { assert(d[10] == ext); }
    if ext == "7z"@ { assert(d[11] == ext); }
    if ext == "rar"@ { assert(d[12] == ext); }
    if ext == "mp4"@ { assert(d[13] == ext); }
    if ext == "mov"@ { assert(d[14] == ext); }
    if ext == "mp3"@ { assert(d[15] == ext); }
    if ext == "wav"@ { assert(d[16] == ext); }
    if ext == "ogg"@ { assert(d[17] == ext); }
    if ext == "ttf"@ { assert(d[18] == ext); }
    if ext == "otf"@ { assert(d[19] == ext); }
    if ext == "woff"@ { assert(d[20] == ext); }
    if ext == "woff2"@ { assert(d[21] == ext); }
    if ext == "class"@ { assert(d[22] == ext); }
    if ext == "jar"@ { assert(d[23] == ext); }
    if ext == "wasm"@ { assert(d[24] == ext); }
    if ext == "so"@ { assert(d[25] == ext); }
    if ext == "dll"@ { assert(d[26] == ext); }
    if ext == "dylib"@ { assert(d[27] == ext); }
    if ext == "exe"@ { assert(d[28] == ext); }
}

/// Whether `path` has one of the extensions of files that are left out,
/// compared in ASCII lower case.
pub fn is_default_excluded_extension(path: &str) -> (r: bool)
    ensures
        r == (path_extension(path@) matches Some(ext) && default_excluded_extensions().contains(ascii_lowercase(ext))),
        r == (path_extension(path@) matches Some(ext) && {
            let lower = ascii_lowercase(ext);
            lower == "png"@ || lower == "jpg"@ || lower == "jpeg"@ || lower == "gif"@ || lower == "webp"@ || lower == "ico"@ || lower == "pdf"@ || lower == "zip"@ || lower == "tar"@ || lower == "gz"@ || lower == "xz"@ || lower == "7z"@ || lower == "rar"@ || lower == "mp4"@ || lower == "mov"@ || lower == "mp3"@ || lower == "wav"@ || lower == "ogg"@ || lower == "ttf"@ || lower == "otf"@ || lower == "woff"@ || lower == "woff2"@ || lower == "class"@ || lower == "jar"@ || lower == "wasm"@ || lower == "so"@ || lower == "dll"@ || lower == "dylib"@ || lower == "exe"@
        }),
{
    proof {
        if path_extension(path@) is Some {
            law_default_excluded_extensions(ascii_lowercase(path_extension(path@)->0));
        }
    }
    match extension_of(path) {
        Some(ext) => {
            let lower = ascii_lowercase_of(ext.as_str());
            is_listed(lower.as_str(), &excluded_extension_list())
        },
        None => false,
    }
}

/// Whether a sample of a file's first bytes marks it as binary: it holds a
/// zero byte.
pub fn looks_binary(sample: &[u8]) -> (r: bool)
    ensures
        r == sample@.contains(0u8),
{
    for i in 0..sample.len()
        invariant
            forall|j: int| 0 <= j < i ==> sample@[j] != 0u8,
    {
        if sample[i] == 0 {
            return true;
        }
    }
    false
}

/// What to do with a walked file.
#[derive(Debug, PartialEq, Eq)]
pub enum EntryStep {
    /// Leave the file out.
    Skip,
    /// Read the file's first bytes and ask again with them.
    ReadSample,
    /// Keep the file.
    Keep(CandidateFile),
    /// The file's path does not lie under the repository root.
    NotUnderRoot,
}

/// The step for the file at `path` of `size_bytes` bytes, in a walk of the
/// repository rooted at `root`, given a sample of its first bytes once read.
pub open spec fn entry_step(root: Seq<char>, path: Seq<char>, size_bytes: u64, sample: Option<Seq<u8>>) -> EntryStepView {
    if size_bytes > MAX_FILE_SIZE_BYTES {
        EntryStepView::Skip
    } else if path_extension(path) matches Some(ext) && default_excluded_extensions().contains(ascii_lowercase(ext)) {
        EntryStepView::Skip
    } else {
        match sample {
            None => EntryStepView::ReadSample,
            Some(bytes) => if bytes.contains(0u8) {
                EntryStepView::Skip
            } else {
                match path_strip_prefix(path, root) {
                    Some(relative) => EntryStepView::Keep(path, relative, size_bytes),
                    None => EntryStepView::NotUnderRoot,
                }
            },
        }
    }
}

/// A step as plain values: `Keep` carries the absolute path, the relative
/// path and the size.
pub enum EntryStepView {
    Skip,
    ReadSample,
    Keep(Seq<char>, Seq<char>, u64),
    NotUnderRoot,
}

impl EntryStep {
    pub open spec fn view_of(self) -> EntryStepView {
        match self {
            EntryStep::Skip => EntryStepView::Skip,
            EntryStep::ReadSample => EntryStepView::ReadSample,
            EntryStep::Keep(f) => EntryStepView::Keep(f.absolute_path@, f.relative_path@, f.size_bytes),
            EntryStep::NotUnderRoot => EntryStepView::NotUnderRoot,
        }
    }
}

/// The binary test is a zero byte in the sample and nothing else: a file
/// within the size limit, without an excluded extension and under the root
/// is kept, with its path relative to the root, exactly when its sample
/// holds no zero byte.
pub proof fn law_kept_unless_zero_byte(root: Seq<char>, path: Seq<char>, size_bytes: u64, sample: Seq<u8>)
    requires
        size_bytes <= 524288,
        !(path_extension(path) matches Some(ext) && default_excluded_extensions().contains(ascii_lowercase(ext))),
        path_strip_prefix(path, root) is Some,
    ensures
        entry_step(root, path, size_bytes, Some(sample)) == (if exists|j: int| 0 <= j < sample.len() && sample[j] == 0u8 {
            EntryStepView::Skip
        } else {
            EntryStepView::Keep(path, path_strip_prefix(path, root)->0, size_bytes)
        }),
{
    if exists|j: int| 0 <= j < sample.len() && sample[j] == 0u8 {
        let j = choose|j: int| 0 <= j < sample.len() && sample[j] == 0u8;
        assert(sample.contains(0u8));
    } else {
        assert(!sample.contains(0u8));
    }
}

/// A file larger than 512 KiB is always skipped.
pub proof fn law_over_size_limit_skipped(root: Seq<char>, path: Seq<char>, size_bytes: u64, sample: Option<Seq<u8>>)
    requires
        size_bytes > 524288,
    ensures
        entry_step(root, path, size_bytes, sample) == EntryStepView::Skip,
{
}

/// Decides on a walked file: files over the size limit, with an excluded
/// extension, or whose sample holds a zero byte are left out; the sample is
/// asked for only when the other checks pass; a kept file carries its path
/// relative to `root`.
pub fn admit_entry(root: &str, path: &str, size_bytes: u64, sample: Option<&[u8]>) -> (step: EntryStep)
    ensures
        step.view_of() == entry_step(root@, path@, size_bytes, match sample {
            Some(s) => Some(s@),
            None => None,
        }),
{
    if size_bytes > MAX_FILE_SIZE_BYTES {
        return EntryStep::Skip;
    }
    if is_default_excluded_extension(path) {
        return EntryStep::Skip;
    }
    match sample {
        None => EntryStep::ReadSample,
        Some(bytes) => {
            if looks_binary(bytes) {
                return EntryStep::Skip;
            }
            match strip_prefix_of(path, root) {
                Some(relative) => EntryStep::Keep(CandidateFile {
                    absolute_path: path.to_owned(),
                    relative_path: relative,
                    size_bytes,
                }),
                None => EntryStep::NotUnderRoot,
            }
        },
    }
}


/// The rank of a component in `Path`'s order of components: the root
/// directory, then `.`, then `..`, then names (which never equal these).
pub open spec fn component_rank(c: Seq<char>) -> int {
    if c == seq!['/'] {
        1
    } else if c == seq!['.'] {
        2
    } else if c == seq!['.', '.'] {
        3
    } else {
        4
    }
}

/// The order of path components: by rank, then by text.
pub open spec fn component_lt(a: Seq<char>, b: Seq<char>) -> bool {
    component_rank(a) < component_rank(b) || (component_rank(a) == component_rank(b) && chars_lt(a, b))
}

/// The order of paths: lexicographic over their components, as `Path`
/// compares them.
pub open spec fn path_lt(a: Seq<Seq<char>>, b: Seq<Seq<char>>) -> bool
    decreases a.len(),
{
    if b.len() == 0 {
        false
    } else if a.len() == 0 {
        true
    } else if a[0] != b[0] {
        component_lt(a[0], b[0])
    } else {
        path_lt(a.drop_first(), b.drop_first())
    }
}

proof fn lemma_component_lt_props(a: Seq<char>, b: Seq<char>, c: Seq<char>)
    ensures
        !component_lt(a, a),
        component_lt(a, b) ==> !component_lt(b, a),
        component_lt(a, b) && component_lt(b, c) ==> component_lt(a, c),
        a != b ==> component_lt(a, b) || component_lt(b, a),
{
    lemma_chars_lt_irreflexive(a);
    if chars_lt(a, b) {
        lemma_chars_lt_asymmetric(a, b);
    }
    if chars_lt(a, b) && chars_lt(b, c) {
        lemma_chars_lt_transitive(a, b, c);
    }
    if a != b {
        lemma_chars_lt_total(a, b);
    }
}

pub proof fn lemma_path_lt_irreflexive(a: Seq<Seq<char>>)
    ensures
        !path_lt(a, a),
    decreases a.len(),
{
    if a.len() > 0 {
        lemma_path_lt_irreflexive(a.drop_first());
    }
}

pub proof fn lemma_path_lt_asymmetric(a: Seq<Seq<char>>, b: Seq<Seq<char>>)
    requires
        path_lt(a, b),
    ensures
        !path_lt(b, a),
    decreases a.len(),
{
    if a.len() > 0 && b.len() > 0 {
        if a[0] == b[0] {
            lemma_path_lt_asymmetric(a.drop_first(), b.drop_first());
        } else {
            lemma_component_lt_props(a[0], b[0], b[0]);
        }
    }
}

pub proof fn lemma_path_lt_transitive(a: Seq<Seq<char>>, b: Seq<Seq<char>>, c: Seq<Seq<char>>)
    requires
        path_lt(a, b),
        path_lt(b, c),
    ensures
        path_lt(a, c),
    decreases a.len(),
{
    if a.len() > 0 {
        lemma_component_lt_props(a[0], b[0], c[0]);
        if a[0] == b[0] && b[0] == c[0] {
            lemma_path_lt_transitive(a.drop_first(), b.drop_first(), c.drop_first());
        }
    }
}

pub proof fn lemma_path_lt_total(a: Seq<Seq<char>>, b: Seq<Seq<char>>)
    requires
        a != b,
    ensures
        path_lt(a, b) || path_lt(b, a),
    decreases a.len(),
{
    if a.len() > 0 && b.len() > 0 {
        if a[0] == b[0] {
            if a.drop_first() == b.drop_first() {
                assert(a =~= seq![a[0]] + a.drop_first());
                assert(b =~= seq![b[0]] + b.drop_first());
            }
            lemma_path_lt_total(a.drop_first(), b.drop_first());
        } else {
            lemma_component_lt_props(a[0], b[0], b[0]);
        }
    } else if a.len() == 0 && b.len() == 0 {
        assert(a =~= b);
    }
}

/// In a stable sort by path, the file at `i` comes before the file at `j`:
/// its path is smaller, or the paths are equal and it came first.
pub open spec fn sorts_before(paths: Seq<Seq<Seq<char>>>, i: int, j: int) -> bool {
    path_lt(paths[i], paths[j]) || (paths[i] == paths[j] && i < j)
}

proof fn lemma_sorts_before_transitive(paths: Seq<Seq<Seq<char>>>, i: int, j: int, k: int)
    requires
        sorts_before(paths, i, j),
        sorts_before(paths, j, k),
    ensures
        sorts_before(paths, i, k),
{
    if path_lt(paths[i], paths[j]) && path_lt(paths[j], paths[k]) {
        lemma_path_lt_transitive(paths[i], paths[j], paths[k]);
    }
}

/// `perm` lists each index below `n` once.
pub open spec fn is_permutation(perm: Seq<usize>, n: nat) -> bool {
    &&& perm.len() == n
    &&& forall|k: int| 0 <= k < n ==> #[trigger] perm[k] < n
    &&& forall|k: int, l: int| 0 <= k < l < n ==> #[trigger] perm[k] != #[trigger] perm[l]
}

/// `sorted` holds the files of `files`, each once, stably sorted by path.
pub open spec fn stably_sorted_by_path(files: Seq<CandidateFile>, sorted: Seq<CandidateFile>) -> bool {
    exists|perm: Seq<usize>| {
        &&& is_permutation(perm, files.len())
        &&& forall|k: int| 0 <= k < files.len() ==> #[trigger] sorted[k] == files[perm[k] as int]
        &&& forall|k: int, l: int| 0 <= k < l < files.len() ==> sorts_before(file_paths(files), #[trigger] perm[k] as int, #[trigger] perm[l] as int)
    } && sorted.len() == files.len()
}

/// The views of the components of a path, one character vector each.
pub open spec fn key_view(key: Seq<Vec<char>>) -> Seq<Seq<char>> {
    key.map_values(|c: Vec<char>| c@)
}

fn component_rank_of(c: &Vec<char>) -> (r: u8)
    ensures
        r as int == component_rank(c@),
{
    if c.len() == 1 && c[0] == '/' {
        assert(c@ =~= seq!['/']);
        1
    } else if c.len() == 1 && c[0] == '.' {
        assert(c@ =~= seq!['.']);
        assert(c@ != seq!['/']);
        2
    } else if c.len() == 2 && c[0] == '.' && c[1] == '.' {
        assert(c@ =~= seq!['.', '.']);
        assert(c@ != seq!['/'] && c@ != seq!['.']);
        3
    } else {
        assert(c@ != seq!['/']) by { if c@ == seq!['/'] { assert(c@[0] == '/'); } }
        assert(c@ != seq!['.']) by { if c@ == seq!['.'] { assert(c@[0] == '.'); } }
        assert(c@ != seq!['.', '.']) by { if c@ == seq!['.', '.'] { assert(c@[0] == '.' && c@[1] == '.'); } }
        4
    }
}

fn chars_equal(a: &Vec<char>, b: &Vec<char>) -> (r: bool)
    ensures
        r == (a@ == b@),
{
    if a.len() != b.len() {
        return false;
    }
    for i in 0..a.len()
        invariant
            a.len() == b.len(),
            forall|j: int| 0 <= j < i ==> a@[j] == b@[j],
    {
        if a[i] != b[i] {
            return false;
        }
    }
    assert(a@ =~= b@);
    true
}

fn component_less(a: &Vec<char>, b: &Vec<char>) -> (r: bool)
    ensures
        r == component_lt(a@, b@),
{
    let ra = component_rank_of(a);
    let rb = component_rank_of(b);
    ra < rb || (ra == rb && chars_less(a, b))
}

fn path_less(a: &Vec<Vec<char>>, b: &Vec<Vec<char>>) -> (r: bool)
    ensures
        r == path_lt(key_view(a@), key_view(b@)),
{
    let ghost ka = key_view(a@);
    let ghost kb = key_view(b@);
    let mut i: usize = 0;
    assert(ka.skip(0) =~= ka);
    assert(kb.skip(0) =~= kb);
    while i < a.len() && i < b.len() && chars_equal(&a[i], &b[i])
        invariant
            ka == key_view(a@),
            kb == key_view(b@),
            i <= a.len(),
            i <= b.len(),
            path_lt(ka, kb) == path_lt(ka.skip(i as int), kb.skip(i as int)),
        decreases a.len() - i,
    {
        assert(ka.skip(i as int).drop_first() =~= ka.skip(i + 1));
        assert(kb.skip(i as int).drop_first() =~= kb.skip(i + 1));
        assert(ka.skip(i as int)[0] == a@[i as int]@);
        assert(kb.skip(i as int)[0] == b@[i as int]@);
        i = i + 1;
    }
    if i == b.len() {
        false
    } else if i == a.len() {
        true
    } else {
        assert(ka.skip(i as int)[0] == a@[i as int]@);
        assert(kb.skip(i as int)[0] == b@[i as int]@);
        component_less(&a[i], &b[i])
    }
}

fn path_key(path: &str) -> (key: Vec<Vec<char>>)
    ensures
        key_view(key@) == path_components(path@),
{
    let components = components_of(path);
    let mut key: Vec<Vec<char>> = Vec::new();
    for i in 0..components.len()
        invariant
            key_view(key@) == strings_view(components@).take(i as int),
    {
        let component = char_vec(components[i].as_str());
        assert(component@ == strings_view(components@)[i as int]);
        let ghost before = key@;
        key.push(component);
        assert(key@ == before.push(component));
        assert(key_view(key@) =~= key_view(before).push(component@));
        assert(key_view(key@) =~= strings_view(components@).take(i + 1));
    }
    assert(strings_view(components@).take(components.len() as int) =~= strings_view(components@));
    key
}

/// Sorts `files` by relative path, as `Path` orders paths (component by
/// component); files with equal paths keep their order.
pub fn sort_candidates(files: &mut Vec<CandidateFile>)
    ensures
        stably_sorted_by_path(old(files)@, final(files)@),
{
    let n = files.len();
    let ghost paths = file_paths(files@);
    let mut keys: Vec<Vec<Vec<char>>> = Vec::new();
    for i in 0..n
        invariant
            n == files.len(),
            paths == file_paths(files@),
            keys.len() == i,
            forall|j: int| 0 <= j < i ==> key_view(#[trigger] keys@[j]@) == paths[j],
    {
        keys.push(path_key(files[i].relative_path.as_str()));
    }
    let mut perm: Vec<usize> = Vec::new();
    for i in 0..n
        invariant
            n == files.len(),
            paths.len() == n,
            keys.len() == n,
            forall|j: int| 0 <= j < n ==> key_view(#[trigger] keys@[j]@) == paths[j],
            perm.len() == i,
            forall|k: int| 0 <= k < i ==> #[trigger] perm@[k] < i,
            forall|k: int, l: int| 0 <= k < l < i ==> #[trigger] perm@[k] != #[trigger] perm@[l],
            forall|k: int, l: int| 0 <= k < l < i ==> sorts_before(paths, #[trigger] perm@[k] as int, #[trigger] perm@[l] as int),
    {
        let mut lo: usize = 0;
        let mut hi: usize = perm.len();
        while lo < hi
            invariant
                0 <= lo <= hi <= perm.len(),
                perm.len() == i,
                i < n,
                keys.len() == n,
                paths.len() == n,
                forall|j: int| 0 <= j < n ==> key_view(#[trigger] keys@[j]@) == paths[j],
                forall|k: int| 0 <= k < i ==> #[trigger] perm@[k] < i,
                forall|k: int, l: int| 0 <= k < l < i ==> sorts_before(paths, #[trigger] perm@[k] as int, #[trigger] perm@[l] as int),
                forall|k: int| 0 <= k < lo ==> sorts_before(paths, #[trigger] perm@[k] as int, i as int),
                forall|k: int| hi <= k < i ==> sorts_before(paths, i as int, #[trigger] perm@[k] as int),
            decreases hi - lo,
        {
            let mid = lo + (hi - lo) / 2;
            let other = perm[mid];
            assert(key_view(keys@[i as int]@) == paths[i as int]);
            assert(key_view(keys@[other as int]@) == paths[other as int]);
            if path_less(&keys[i], &keys[other]) {
                proof {
                    assert forall|k: int| mid <= k < i implies sorts_before(paths, i as int, #[trigger] perm@[k] as int) by {
                        if k > mid {
                            assert(sorts_before(paths, perm@[mid as int] as int, perm@[k] as int));
                            lemma_sorts_before_transitive(paths, i as int, other as int, perm@[k] as int);
                        }
                    }
                }
                hi = mid;
            } else {
                proof {
                    if paths[other as int] != paths[i as int] {
                        lemma_path_lt_total(paths[other as int], paths[i as int]);
                    }
                    assert(sorts_before(paths, other as int, i as int));
                    assert forall|k: int| 0 <= k <= mid implies sorts_before(paths, #[trigger] perm@[k] as int, i as int) by {
                        if k < mid {
                            assert(sorts_before(paths, perm@[k] as int, perm@[mid as int] as int));
                            lemma_sorts_before_transitive(paths, perm@[k] as int, other as int, i as int);
                        }
                    }
                }
                lo = mid + 1;
            }
        }
        let ghost before = perm@;
        perm.insert(lo, i);
        proof {
            assert(perm@ == before.insert(lo as int, i));
            assert forall|k: int| 0 <= k < i + 1 implies #[trigger] perm@[k] < i + 1 by {
                if k < lo { assert(perm@[k] == before[k]); } else if k > lo { assert(perm@[k] == before[k - 1]); }
            }
            assert forall|k: int, l: int| 0 <= k < l < i + 1 implies
                #[trigger] perm@[k] != #[trigger] perm@[l] && sorts_before(paths, perm@[k] as int, perm@[l] as int) by {
                if l < lo {
                    assert(perm@[k] == before[k] && perm@[l] == before[l]);
                } else if l == lo {
                    assert(perm@[k] == before[k]);
                    assert(before[k] < i);
                } else if k < lo {
                    assert(perm@[k] == before[k] && perm@[l] == before[l - 1]);
                    lemma_sorts_before_transitive(paths, before[k] as int, i as int, before[l - 1] as int);
                } else if k == lo {
                    assert(perm@[l] == before[l - 1]);
                    assert(before[l - 1] < i);
                } else {
                    assert(perm@[k] == before[k - 1] && perm@[l] == before[l - 1]);
                }
            }
        }
    }
    let mut sorted: Vec<CandidateFile> = Vec::new();
    for k in 0..n
        invariant
            n == files.len(),
            perm.len() == n,
            forall|m: int| 0 <= m < n ==> #[trigger] perm@[m] < n,
            sorted.len() == k,
            forall|m: int| 0 <= m < k ==> #[trigger] sorted@[m] == files@[perm@[m] as int],
    {
        sorted.push(copy_candidate(&files[perm[k]]));
    }
    let ghost original = files@;
    *files = sorted;
    proof {
        assert(is_permutation(perm@, original.len()));
        assert(paths == file_paths(original));
        assert forall|k: int, l: int| 0 <= k < l < original.len() implies
            sorts_before(file_paths(original), #[trigger] perm@[k] as int, #[trigger] perm@[l] as int) by {}
    }
}

} // verus!
