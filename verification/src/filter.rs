//! Include and exclude filters over relative paths, by glob patterns that
//! `globset` parses and matches.

use vstd::prelude::*;

use globset::{Glob, GlobSet, GlobSetBuilder};

use crate::path::strings_view;
use crate::walk::{copy_candidate, CandidateFile};

verus! {

/// `globset::Glob`, a parsed glob pattern; opaque here.
#[verifier::external_type_specification]
#[verifier::external_body]
pub struct ExGlob(globset::Glob);

/// `globset::GlobSet`, a compiled group of globs; opaque here.
#[verifier::external_type_specification]
#[verifier::external_body]
pub struct ExGlobSet(globset::GlobSet);

/// `globset::GlobSetBuilder`, the globs collected for a set; opaque here.
#[verifier::external_type_specification]
#[verifier::external_body]
pub struct ExGlobSetBuilder(globset::GlobSetBuilder);

/// `globset::Error`, why a glob could not be parsed or compiled; opaque here.
#[verifier::external_type_specification]
#[verifier::external_body]
pub struct ExGlobError(globset::Error);

/// Whether `Glob::new` accepts `pattern`.
pub uninterp spec fn glob_is_valid(pattern: Seq<char>) -> bool;

/// The pattern text a glob was built from, as `Glob::glob` returns it.
pub uninterp spec fn glob_pattern(glob: Glob) -> Seq<char>;

/// The patterns of the globs added to a builder, in order.
pub uninterp spec fn builder_patterns(builder: GlobSetBuilder) -> Seq<Seq<char>>;

/// The patterns of the globs a set was built from, in order.
pub uninterp spec fn set_patterns(set: GlobSet) -> Seq<Seq<char>>;

/// Whether `GlobSetBuilder::build` succeeds on globs with these patterns
/// (it fails where compiling them exceeds globset's fixed size limits).
pub uninterp spec fn glob_set_compiles(patterns: Seq<Seq<char>>) -> bool;

/// Whether the glob `pattern`, parsed with default options, matches `path`
/// (as `GlobMatcher::is_match` decides).
pub uninterp spec fn glob_matches(pattern: Seq<char>, path: Seq<char>) -> bool;

/// Calls `Glob::new`; claims it succeeds exactly when `glob_is_valid`
/// holds of the pattern, and that the glob keeps the pattern's text.
#[verifier::external_body]
fn new_glob(pattern: &str) -> (r: Result<Glob, globset::Error>)
    ensures
        r is Ok == glob_is_valid(pattern@),
        r matches Ok(glob) ==> glob_pattern(glob) == pattern@,
{
    Glob::new(pattern)
}

/// Calls `GlobSetBuilder::new`; claims the builder holds no glob.
#[verifier::external_body]
fn new_builder() -> (b: GlobSetBuilder)
    ensures
        builder_patterns(b) == Seq::<Seq<char>>::empty(),
{
    GlobSetBuilder::new()
}

/// Calls `GlobSetBuilder::add`; claims the glob is appended to the builder's globs.
#[verifier::external_body]
fn add_glob(builder: &mut GlobSetBuilder, glob: Glob)
    ensures
        builder_patterns(*final(builder)) == builder_patterns(*old(builder)).push(glob_pattern(glob)),
{
    builder.add(glob);
}

/// Calls `GlobSetBuilder::build`; claims it succeeds exactly when
/// `glob_set_compiles` holds of the builder's patterns, and that a set it
/// returns holds the builder's globs.
#[verifier::external_body]
fn build_set(builder: &GlobSetBuilder) -> (r: Result<GlobSet, globset::Error>)
    ensures
        r is Ok == glob_set_compiles(builder_patterns(*builder)),
        r matches Ok(set) ==> set_patterns(set) == builder_patterns(*builder),
{
    builder.build()
}

/// Calls `GlobSet::is_match`; claims it is true exactly when one of the
/// set's globs matches the path.
#[verifier::external_body]
fn set_is_match(set: &GlobSet, path: &str) -> (r: bool)
    ensures
        r == (exists|i: int| 0 <= i < set_patterns(*set).len() && glob_matches(set_patterns(*set)[i], path@)),
{
    set.is_match(path)
}

/// Formats a `globset::Error` with its `Display` impl. Nothing is claimed
/// of the text.
#[verifier::external_body]
fn glob_error_text(error: &globset::Error) -> String {
    format!("{}", error)
}

/// Some pattern of `patterns` matches `path`.
pub open spec fn matches_any(patterns: Seq<Seq<char>>, path: Seq<char>) -> bool {
    exists|i: int| 0 <= i < patterns.len() && glob_matches(#[trigger] patterns[i], path)
}

/// A path passes the filters: it matches an include pattern, where there
/// are any, and matches no exclude pattern.
pub open spec fn passes(includes: Option<Seq<Seq<char>>>, excludes: Option<Seq<Seq<char>>>, path: Seq<char>) -> bool {
    &&& match includes {
        Some(patterns) => matches_any(patterns, path),
        None => true,
    }
    &&& match excludes {
        Some(patterns) => !matches_any(patterns, path),
        None => true,
    }
}

/// The files of `files` whose relative path passes the filters, in order.
pub open spec fn allowed_files(
    includes: Option<Seq<Seq<char>>>,
    excludes: Option<Seq<Seq<char>>>,
    files: Seq<CandidateFile>,
) -> Seq<CandidateFile>
    decreases files.len(),
{
    if files.len() == 0 {
        Seq::empty()
    } else {
        let kept = allowed_files(includes, excludes, files.drop_last());
        if passes(includes, excludes, files.last().relative_path@) {
            kept.push(files.last())
        } else {
            kept
        }
    }
}

/// With neither include nor exclude patterns, every path passes.
pub proof fn law_no_patterns_pass_everything(path: Seq<char>)
    ensures
        passes(None, None, path),
{
}

/// A path that an exclude pattern matches never passes, whatever the
/// include patterns are.
pub proof fn law_exclude_wins(includes: Option<Seq<Seq<char>>>, excludes: Seq<Seq<char>>, path: Seq<char>)
    requires
        matches_any(excludes, path),
    ensures
        !passes(includes, Some(excludes), path),
{
}

/// Where there are include patterns, only paths that one of them matches pass.
pub proof fn law_include_restricts(includes: Seq<Seq<char>>, excludes: Option<Seq<Seq<char>>>, path: Seq<char>)
    requires
        passes(Some(includes), excludes, path),
    ensures
        matches_any(includes, path),
{
}

/// With neither include nor exclude patterns, filtering keeps every file,
/// in order.
pub proof fn law_no_patterns_keep_every_file(files: Seq<CandidateFile>)
    ensures
        allowed_files(None, None, files) == files,
    decreases files.len(),
{
    if files.len() > 0 {
        law_no_patterns_keep_every_file(files.drop_last());
        assert(files.drop_last().push(files.last()) =~= files);
    }
}

/// Filters built from empty include and exclude lists keep every file.
pub proof fn law_empty_pattern_lists_keep_every_file(files: Seq<CandidateFile>)
    ensures
        optional_patterns(Seq::<String>::empty()) is None,
        allowed_files(optional_patterns(Seq::empty()), optional_patterns(Seq::empty()), files) == files,
{
    law_no_patterns_keep_every_file(files);
}

/// Filtering keeps exactly the files whose relative path passes the
/// filters, in their order.
pub proof fn law_allowed_files_are_the_passing_files(
    includes: Option<Seq<Seq<char>>>,
    excludes: Option<Seq<Seq<char>>>,
    files: Seq<CandidateFile>,
)
    ensures
        allowed_files(includes, excludes, files)
            == files.filter(|f: CandidateFile| passes(includes, excludes, f.relative_path@)),
    decreases files.len(),
{
    reveal(Seq::filter);
    if files.len() > 0 {
        law_allowed_files_are_the_passing_files(includes, excludes, files.drop_last());
    }
}

/// Filtering keeps a subsequence of the files: each kept file is one of
/// the files and passes the filters.
pub proof fn law_allowed_files_pass(
    includes: Option<Seq<Seq<char>>>,
    excludes: Option<Seq<Seq<char>>>,
    files: Seq<CandidateFile>,
)
    ensures
        allowed_files(includes, excludes, files).len() <= files.len(),
        forall|k: int| 0 <= k < allowed_files(includes, excludes, files).len() ==> {
            &&& files.contains(#[trigger] allowed_files(includes, excludes, files)[k])
            &&& passes(includes, excludes, allowed_files(includes, excludes, files)[k].relative_path@)
        },
    decreases files.len(),
{
    if files.len() > 0 {
        let init = files.drop_last();
        law_allowed_files_pass(includes, excludes, init);
        let kept = allowed_files(includes, excludes, init);
        assert forall|k: int| 0 <= k < allowed_files(includes, excludes, files).len() implies {
            &&& files.contains(#[trigger] allowed_files(includes, excludes, files)[k])
            &&& passes(includes, excludes, allowed_files(includes, excludes, files)[k].relative_path@)
        } by {
            if k < kept.len() {
                assert(allowed_files(includes, excludes, files)[k] == kept[k]);
                assert(init.contains(kept[k]));
                let m = choose|m: int| 0 <= m < init.len() && init[m] == kept[k];
                assert(files[m] == init[m]);
            } else {
                assert(files[files.len() - 1] == files.last());
            }
        }
    }
}

/// The patterns a filter is built from: none where the list is empty.
pub open spec fn optional_patterns(patterns: Seq<String>) -> Option<Seq<Seq<char>>> {
    if patterns.len() == 0 { None } else { Some(strings_view(patterns)) }
}

/// Every pattern before position `i` is valid.
pub open spec fn valid_before(patterns: Seq<String>, i: int) -> bool {
    forall|j: int| 0 <= j < i ==> glob_is_valid(#[trigger] patterns[j]@)
}

/// The pattern at `i` is the first invalid one.
pub open spec fn first_invalid_at(patterns: Seq<String>, i: int) -> bool {
    &&& 0 <= i < patterns.len()
    &&& !glob_is_valid(patterns[i]@)
    &&& valid_before(patterns, i)
}

/// Why filters could not be built.
#[derive(Debug, Clone, PartialEq, Eq)]
pub enum FilterError {
    /// `pattern`, one of the `kind` patterns, is not a valid glob; `cause`
    /// is globset's report.
    InvalidPattern { kind: String, pattern: String, cause: String },
    /// The valid `kind` patterns could not be compiled into a set.
    BuildFailed { kind: String, cause: String },
}

/// The message of an error, as the command reports it.
pub open spec fn error_message(e: FilterError) -> Seq<char> {
    match e {
        FilterError::InvalidPattern { kind, pattern, .. } => "invalid "@ + kind@ + " pattern: "@ + pattern@,
        FilterError::BuildFailed { kind, .. } => "failed to build "@ + kind@ + " pattern set"@,
    }
}

impl FilterError {
    /// The error's message.
    pub fn message(&self) -> (m: String)
        ensures
            m@ == error_message(*self),
    {
        match self {
            FilterError::InvalidPattern { kind, pattern, .. } => {
                let mut m = "invalid ".to_owned();
                m.append(kind.as_str());
                m.append(" pattern: ");
                m.append(pattern.as_str());
                m
            },
            FilterError::BuildFailed { kind, .. } => {
                let mut m = "failed to build ".to_owned();
                m.append(kind.as_str());
                m.append(" pattern set");
                m
            },
        }
    }
}

/// The error of a result, if it is one.
pub open spec fn error_of<T>(r: Result<T, FilterError>) -> Option<FilterError> {
    match r {
        Ok(_) => None,
        Err(e) => Some(e),
    }
}

/// `e` reports the first invalid pattern of `patterns`, named `kind`.
pub open spec fn reports_first_invalid(e: Option<FilterError>, patterns: Seq<String>, kind: Seq<char>) -> bool {
    match e {
        Some(FilterError::InvalidPattern { kind: k, pattern: p, .. }) => k@ == kind
            && exists|i: int| first_invalid_at(patterns, i) && #[trigger] patterns[i]@ == p@,
        _ => false,
    }
}

/// `e` reports that the `kind` patterns could not be compiled.
pub open spec fn reports_build_failure(e: Option<FilterError>, kind: Seq<char>) -> bool {
    match e {
        Some(FilterError::BuildFailed { kind: k, .. }) => k@ == kind,
        _ => false,
    }
}

/// The set holds exactly `patterns`.
pub open spec fn built_from(r: Result<Option<GlobSet>, FilterError>, patterns: Seq<String>) -> bool {
    match r {
        Ok(Some(set)) => set_patterns(set) == strings_view(patterns),
        _ => false,
    }
}

/// The glob set of `patterns` can be built: every pattern is valid, and
/// the globs compile (nothing is compiled for an empty list).
pub open spec fn set_builds(patterns: Seq<String>) -> bool {
    &&& valid_before(patterns, patterns.len() as int)
    &&& (patterns.len() == 0 || glob_set_compiles(strings_view(patterns)))
}

/// `e` is the error for `patterns`, named `kind`, that cannot be built: the
/// first invalid pattern, or where all are valid, the failure to compile.
pub open spec fn reports_set_error(e: Option<FilterError>, patterns: Seq<String>, kind: Seq<char>) -> bool {
    if exists|i: int| first_invalid_at(patterns, i) {
        reports_first_invalid(e, patterns, kind)
    } else {
        reports_build_failure(e, kind)
    }
}

/// The outcome of building the glob set of `patterns`, named `kind` in errors.
pub open spec fn set_outcome(patterns: Seq<String>, kind: Seq<char>, r: Result<Option<GlobSet>, FilterError>) -> bool {
    &&& r is Ok == set_builds(patterns)
    &&& patterns.len() == 0 ==> r == Ok::<Option<GlobSet>, FilterError>(None)
    &&& (patterns.len() > 0 && r is Ok) ==> built_from(r, patterns)
    &&& !set_builds(patterns) ==> reports_set_error(error_of(r), patterns, kind)
}

/// Builds the glob set of `patterns`, or none where there are no patterns.
fn build_optional_globset(patterns: &[String], kind: &str) -> (r: Result<Option<GlobSet>, FilterError>)
    ensures
        set_outcome(patterns@, kind@, r),
{
    if patterns.len() == 0 {
        return Ok(None);
    }
    let mut builder = new_builder();
    for i in 0..patterns.len()
        invariant
            valid_before(patterns@, i as int),
            builder_patterns(builder) == strings_view(patterns@.take(i as int)),
    {
        let pattern = &patterns[i];
        match new_glob(pattern.as_str()) {
            Ok(glob) => {
                add_glob(&mut builder, glob);
                assert(strings_view(patterns@.take(i + 1)) =~= strings_view(patterns@.take(i as int)).push(pattern@));
            },
            Err(error) => {
                proof {
                    assert(first_invalid_at(patterns@, i as int));
                    assert forall|j: int| #[trigger] first_invalid_at(patterns@, j) implies j == i by {
                        if j < i {
                            assert(glob_is_valid(patterns@[j]@));
                        } else if j > i {
                            assert(glob_is_valid(patterns@[i as int]@));
                        }
                    }
                }
                return Err(FilterError::InvalidPattern {
                    kind: kind.to_owned(),
                    pattern: pattern.clone(),
                    cause: glob_error_text(&error),
                });
            },
        }
    }
    proof {
        assert(patterns@.take(patterns@.len() as int) =~= patterns@);
        assert forall|j: int| !first_invalid_at(patterns@, j) by {}
        assert(!(exists|j: int| first_invalid_at(patterns@, j)));
    }
    match build_set(&builder) {
        Ok(set) => Ok(Some(set)),
        Err(error) => Err(FilterError::BuildFailed { kind: kind.to_owned(), cause: glob_error_text(&error) }),
    }
}

/// Filters on relative paths by include and exclude glob patterns.
#[derive(Debug, Clone)]
pub struct FileFilters {
    includes: Option<GlobSet>,
    excludes: Option<GlobSet>,
}

/// The patterns of an optional set.
pub open spec fn optional_set_patterns(set: Option<GlobSet>) -> Option<Seq<Seq<char>>> {
    match set {
        Some(s) => Some(set_patterns(s)),
        None => None,
    }
}

impl FileFilters {
    /// The include patterns, `None` where every path is included.
    pub closed spec fn include_patterns(&self) -> Option<Seq<Seq<char>>> {
        optional_set_patterns(self.includes)
    }

    /// The exclude patterns, `None` where no path is excluded.
    pub closed spec fn exclude_patterns(&self) -> Option<Seq<Seq<char>>> {
        optional_set_patterns(self.excludes)
    }

    /// Builds the filters. It succeeds exactly when every pattern is valid
    /// and each non-empty list compiles. The include patterns are checked
    /// and compiled first: the first invalid include pattern, or else the
    /// failure to compile them, is the error; then the exclude patterns in
    /// the same way. Empty lists give no filter.
    pub fn from_patterns(includes: &[String], excludes: &[String]) -> (r: Result<Self, FilterError>)
        ensures
            r is Ok == (set_builds(includes@) && set_builds(excludes@)),
            r is Ok ==> r->Ok_0.include_patterns() == optional_patterns(includes@)
                && r->Ok_0.exclude_patterns() == optional_patterns(excludes@),
            (includes@.len() == 0 && excludes@.len() == 0) ==> (r is Ok && r->Ok_0.include_patterns() is None
                && r->Ok_0.exclude_patterns() is None),
            !set_builds(includes@) ==> reports_set_error(error_of(r), includes@, "include"@),
            (set_builds(includes@) && !set_builds(excludes@)) ==> reports_set_error(error_of(r), excludes@, "exclude"@),
    {
        let includes = match build_optional_globset(includes, "include") {
            Ok(set) => set,
            Err(e) => return Err(e),
        };
        let excludes = match build_optional_globset(excludes, "exclude") {
            Ok(set) => set,
            Err(e) => return Err(e),
        };
        Ok(FileFilters { includes, excludes })
    }

    /// The files of `files` whose relative path passes the filters, in order.
    pub fn retain_allowed(&self, files: &[CandidateFile]) -> (kept: Vec<CandidateFile>)
        ensures
            kept@ == allowed_files(self.include_patterns(), self.exclude_patterns(), files@),
            (self.include_patterns() is None && self.exclude_patterns() is None) ==> kept@ == files@,
    {
        proof {
            law_no_patterns_keep_every_file(files@);
        }
        let mut kept: Vec<CandidateFile> = Vec::new();
        for i in 0..files.len()
            invariant
                kept@ == allowed_files(self.include_patterns(), self.exclude_patterns(), files@.take(i as int)),
        {
            assert(files@.take(i + 1).drop_last() =~= files@.take(i as int));
            assert(files@.take(i + 1).last() == files@[i as int]);
            if self.allows(files[i].relative_path.as_str()) {
                kept.push(copy_candidate(&files[i]));
            }
        }
        assert(files@.take(files@.len() as int) =~= files@);
        kept
    }

    /// Whether `relative_path` passes the filters.
    pub fn allows(&self, relative_path: &str) -> (r: bool)
        ensures
            r == passes(self.include_patterns(), self.exclude_patterns(), relative_path@),
    {
        let included = match &self.includes {
            Some(includes) => set_is_match(includes, relative_path),
            None => true,
        };
        included && match &self.excludes {
            Some(excludes) => !set_is_match(excludes, relative_path),
            None => true,
        }
    }
}

} // verus!
