use globset::{Glob, GlobBuilder, GlobSet, GlobSetBuilder};
use vstd::prelude::*;
use vstd::string::StringExecFns;

verus! {

#[verifier::external_type_specification]
#[verifier::external_body]
pub struct ExGlob(Glob);

#[verifier::external_type_specification]
#[verifier::external_body]
pub struct ExGlobSet(GlobSet);

#[verifier::external_type_specification]
#[verifier::external_body]
pub struct ExGlobSetBuilder(GlobSetBuilder);

/// What `GlobBuilder::build` reports for a pattern compiled with
/// `literal_separator(false)` and `case_insensitive(false)`: `None` when the
/// pattern compiles, otherwise the text of its error.
pub uninterp spec fn glob_build_error(pattern: Seq<char>) -> Option<Seq<char>>;

/// The patterns of the globs added to a `GlobSetBuilder`, in order.
pub uninterp spec fn glob_builder_contents(builder: GlobSetBuilder) -> Seq<Seq<char>>;

/// What `GlobSetBuilder::build` reports for a builder holding globs compiled
/// from `patterns`: `None` when the set compiles, otherwise the text of its
/// error.
pub uninterp spec fn glob_set_build_error(patterns: Seq<Seq<char>>) -> Option<Seq<char>>;

/// Whether a glob compiled from `pattern` (with `literal_separator(false)`
/// and `case_insensitive(false)`) matches a candidate path, as a `GlobSet`
/// holding it tests each of its globs.
pub uninterp spec fn glob_is_match(pattern: Seq<char>, path: Seq<char>) -> bool;

/// Whether any of the globs compiled from `patterns` matches the path.
pub open spec fn glob_set_is_match(patterns: Seq<Seq<char>>, path: Seq<char>) -> bool {
    exists|i: int| 0 <= i < patterns.len() && glob_is_match(#[trigger] patterns[i], path)
}

/// A compiled glob, together with the pattern it was compiled from.
pub struct CompiledGlob {
    glob: Glob,
    source: Ghost<Seq<char>>,
}

/// A compiled set of globs, together with the patterns it was compiled from.
pub struct GlobMatcher {
    set: GlobSet,
    sources: Ghost<Seq<Seq<char>>>,
}

impl View for GlobMatcher {
    type V = Seq<Seq<char>>;

    closed spec fn view(&self) -> Seq<Seq<char>> {
        self.sources@
    }
}

/// Calls `GlobBuilder::new(pattern).literal_separator(false)
/// .case_insensitive(false).build()`. Claims that the outcome depends on the
/// pattern alone (named by `glob_build_error`), with the error's
/// `to_string` as the message, and records the pattern beside the glob.
#[verifier::external_body]
fn compile_glob(pattern: &str) -> (r: Result<CompiledGlob, String>)
    ensures
        match r {
            Ok(g) => glob_build_error(pattern@) is None && g.source@ == pattern@,
            Err(e) => glob_build_error(pattern@) == Some(e@),
        },
{
    match GlobBuilder::new(pattern).literal_separator(false).case_insensitive(false).build() {
        Ok(glob) => Ok(CompiledGlob { glob, source: Ghost(pattern@) }),
        Err(e) => Err(e.to_string()),
    }
}

/// Calls `GlobSetBuilder::new()`, which starts with no globs.
#[verifier::external_body]
fn new_glob_builder() -> (b: GlobSetBuilder)
    ensures
        glob_builder_contents(b) == Seq::<Seq<char>>::empty(),
{
    GlobSetBuilder::new()
}

/// Calls `GlobSetBuilder::add`, which appends the glob to the builder's list.
#[verifier::external_body]
fn add_glob(builder: &mut GlobSetBuilder, g: CompiledGlob)
    ensures
        glob_builder_contents(*final(builder)) == glob_builder_contents(*old(builder)).push(g.source@),
{
    builder.add(g.glob);
}

/// Calls `GlobSetBuilder::build`. Claims that the outcome depends on the
/// builder's patterns alone (named by `glob_set_build_error`), with the
/// error's `to_string` as the message, and, as the source shows, that a
/// builder without globs always builds (an empty set).
#[verifier::external_body]
fn build_glob_set(builder: &GlobSetBuilder) -> (r: Result<GlobMatcher, String>)
    ensures
        match r {
            Ok(m) => glob_set_build_error(glob_builder_contents(*builder)) is None && m@ == glob_builder_contents(*builder),
            Err(e) => glob_set_build_error(glob_builder_contents(*builder)) == Some(e@),
        },
        glob_builder_contents(*builder).len() == 0 ==> r is Ok,
{
    match builder.build() {
        Ok(set) => Ok(GlobMatcher { set, sources: Ghost(glob_builder_contents(*builder)) }),
        Err(e) => Err(e.to_string()),
    }
}

/// Calls `GlobSet::is_match` on the path. Claims, as its documentation
/// says ("Returns true if any glob in this set matches the path given"),
/// that the answer is whether any of the set's globs matches, each glob's
/// answer depending on its pattern and the path alone (named by
/// `glob_is_match`).
#[verifier::external_body]
fn set_is_match(m: &GlobMatcher, path: &str) -> (r: bool)
    ensures
        r == (exists|i: int| 0 <= i < m@.len() && glob_is_match(#[trigger] m@[i], path@)),
{
    m.set.is_match(path)
}

/// The message for the first pattern that does not compile, if any.
pub open spec fn first_glob_problem(patterns: Seq<Seq<char>>) -> Option<Seq<char>>
    decreases patterns.len(),
{
    if patterns.len() == 0 {
        None
    } else {
        match glob_build_error(patterns[0]) {
            Some(err) => Some("invalid glob pattern '"@ + patterns[0] + "': "@ + err),
            None => first_glob_problem(patterns.drop_first()),
        }
    }
}

/// Why a list of patterns gives no glob set: a pattern that does not
/// compile, else a set that does not compile; `None` when it compiles.
pub open spec fn globset_problem(patterns: Seq<Seq<char>>) -> Option<Seq<char>> {
    match first_glob_problem(patterns) {
        Some(msg) => Some(msg),
        None => match glob_set_build_error(patterns) {
            Some(err) => Some("failed to compile glob patterns: "@ + err),
            None => None,
        },
    }
}

/// The views of a list of strings.
pub open spec fn string_views(v: Seq<String>) -> Seq<Seq<char>> {
    v.map_values(|s: String| s@)
}

proof fn lemma_first_problem_prefix(patterns: Seq<Seq<char>>, i: int)
    requires
        0 <= i < patterns.len(),
        first_glob_problem(patterns.take(i)) is None,
    ensures
        first_glob_problem(patterns.take(i + 1)) == (match glob_build_error(patterns[i]) {
            Some(err) => Some("invalid glob pattern '"@ + patterns[i] + "': "@ + err),
            None => None::<Seq<char>>,
        }),
        first_glob_problem(patterns.take(i + 1)) is Some ==> first_glob_problem(patterns) == first_glob_problem(patterns.take(i + 1)),
    decreases i,
{
    let t = patterns.take(i + 1);
    assert(t[0] == patterns[0]);
    if i > 0 {
        let u = patterns.take(i);
        assert(u[0] == patterns[0]);
        assert(u.drop_first() =~= patterns.drop_first().take(i - 1));
        assert(t.drop_first() =~= patterns.drop_first().take(i));
        assert(glob_build_error(patterns[0]) is None);
        assert(first_glob_problem(u.drop_first()) is None);
        lemma_first_problem_prefix(patterns.drop_first(), i - 1);
        assert(patterns.drop_first()[i - 1] == patterns[i]);
        assert(first_glob_problem(t) == first_glob_problem(t.drop_first()));
        assert(first_glob_problem(patterns) == first_glob_problem(patterns.drop_first()));
    } else {
        assert(t.drop_first() =~= Seq::<Seq<char>>::empty());
        assert(first_glob_problem(t.drop_first()) is None);
    }
}

/// The message for a pattern that does not compile, given the glob
/// compiler's error text.
pub fn invalid_pattern_message(pattern: &str, error: &str) -> (r: String)
    ensures
        r@ == "invalid glob pattern '"@ + pattern@ + "': "@ + error@,
{
    let mut msg = String::from_str("invalid glob pattern '");
    msg.append(pattern);
    msg.append("': ");
    msg.append(error);
    msg
}

/// The message for a set of patterns that does not compile, given the glob
/// compiler's error text.
pub fn set_failure_message(error: &str) -> (r: String)
    ensures
        r@ == "failed to compile glob patterns: "@ + error@,
{
    let mut msg = String::from_str("failed to compile glob patterns: ");
    msg.append(error);
    msg
}

/// Build a glob set from a list of pattern strings.
///
/// Returns an error if any pattern is invalid.
pub fn build_globset(patterns: &Vec<String>) -> (r: Result<GlobMatcher, String>)
    ensures
        match r {
            Ok(m) => globset_problem(string_views(patterns@)) is None && m@ == string_views(patterns@),
            Err(e) => globset_problem(string_views(patterns@)) == Some(e@),
        },
{
    let ghost pats = string_views(patterns@);
    let mut builder = new_glob_builder();
    let mut i: usize = 0;
    while i < patterns.len()
        invariant
            i <= patterns@.len(),
            pats == string_views(patterns@),
            glob_builder_contents(builder) == pats.take(i as int),
            first_glob_problem(pats.take(i as int)) is None,
        decreases patterns@.len() - i,
    {
        let pattern = &patterns[i];
        proof {
            lemma_first_problem_prefix(pats, i as int);
        }
        match compile_glob(pattern.as_str()) {
            Ok(g) => {
                add_glob(&mut builder, g);
                assert(pats.take(i + 1) =~= pats.take(i as int).push(pats[i as int]));
            }
            Err(e) => {
                return Err(invalid_pattern_message(pattern.as_str(), e.as_str()));
            }
        }
        i = i + 1;
    }
    assert(pats.take(patterns@.len() as int) =~= pats);
    match build_glob_set(&builder) {
        Ok(m) => Ok(m),
        Err(e) => Err(set_failure_message(e.as_str())),
    }
}

impl GlobMatcher {
    /// Returns true if any glob in this set matches the path given.
    pub fn is_match(&self, path: &str) -> (r: bool)
        ensures
            r == glob_set_is_match(self@, path@),
    {
        set_is_match(self, path)
    }
}

/// What a discovery scan does with a directory entry.
#[derive(Debug, Clone, Copy, PartialEq, Eq, Structural)]
pub enum EntryVerdict {
    /// The entry is reported.
    Keep,
    /// Skipped: not a regular file.
    NotAFile,
    /// Skipped: its path matches no pattern.
    NoMatch,
    /// Skipped: it lies on another device than the root (`--one-file-system`).
    CrossesDevice,
    /// Skipped: a time filter is set and the file's age cannot be known.
    AgeUnknown,
    /// Skipped: modified longer ago than `--newer-than` or `--older-than`
    /// allows.
    TooOld,
}

/// The verdict on an entry, the checks taken in order: a regular file, whose
/// path relative to the root matches, on the root's device when that is
/// required, of an age no greater than `--newer-than`, and no greater than
/// `--older-than`, which skips files older than its duration (an unknown age
/// fails either filter).
pub open spec fn spec_entry_verdict(
    is_file: bool,
    matched: bool,
    root_device: Option<u64>,
    device: u64,
    age_nanos: Option<u128>,
    newer_than_nanos: Option<u128>,
    older_than_nanos: Option<u128>,
) -> EntryVerdict {
    if !is_file {
        EntryVerdict::NotAFile
    } else if !matched {
        EntryVerdict::NoMatch
    } else if root_device is Some && root_device->0 != device {
        EntryVerdict::CrossesDevice
    } else if newer_than_nanos is Some && age_nanos is None {
        EntryVerdict::AgeUnknown
    } else if newer_than_nanos is Some && age_nanos->0 > newer_than_nanos->0 {
        EntryVerdict::TooOld
    } else if older_than_nanos is Some && age_nanos is None {
        EntryVerdict::AgeUnknown
    } else if older_than_nanos is Some && age_nanos->0 > older_than_nanos->0 {
        EntryVerdict::TooOld
    } else {
        EntryVerdict::Keep
    }
}

/// The verdict on a directory entry once it is known whether its path
/// matched the patterns.
pub fn entry_verdict(
    is_file: bool,
    matched: bool,
    root_device: Option<u64>,
    device: u64,
    age_nanos: Option<u128>,
    newer_than_nanos: Option<u128>,
    older_than_nanos: Option<u128>,
) -> (r: EntryVerdict)
    ensures
        r == spec_entry_verdict(
            is_file,
            matched,
            root_device,
            device,
            age_nanos,
            newer_than_nanos,
            older_than_nanos,
        ),
{
    if !is_file {
        return EntryVerdict::NotAFile;
    }
    if !matched {
        return EntryVerdict::NoMatch;
    }
    if let Some(root_dev) = root_device {
        if root_dev != device {
            return EntryVerdict::CrossesDevice;
        }
    }
    if let Some(min_age) = newer_than_nanos {
        match age_nanos {
            None => return EntryVerdict::AgeUnknown,
            Some(age) => {
                if age > min_age {
                    return EntryVerdict::TooOld;
                }
            },
        }
    }
    if let Some(max_age) = older_than_nanos {
        match age_nanos {
            None => return EntryVerdict::AgeUnknown,
            Some(age) => {
                if age > max_age {
                    return EntryVerdict::TooOld;
                }
            },
        }
    }
    EntryVerdict::Keep
}

/// Decide whether a discovery scan keeps a directory entry.
///
/// `relative_path` is the entry's path relative to the scan root; the
/// device is the file's, and `root_device` is set when the scan must stay on
/// the root's filesystem. Ages and the time filters are in nanoseconds. Only
/// regular files are matched against the patterns.
pub fn classify_entry(
    matcher: &GlobMatcher,
    relative_path: &str,
    is_file: bool,
    root_device: Option<u64>,
    device: u64,
    age_nanos: Option<u128>,
    newer_than_nanos: Option<u128>,
    older_than_nanos: Option<u128>,
) -> (r: EntryVerdict)
    ensures
        r == spec_entry_verdict(
            is_file,
            is_file && glob_set_is_match(matcher@, relative_path@),
            root_device,
            device,
            age_nanos,
            newer_than_nanos,
            older_than_nanos,
        ),
{
    let matched = is_file && matcher.is_match(relative_path);
    entry_verdict(is_file, matched, root_device, device, age_nanos, newer_than_nanos, older_than_nanos)
}

/// The checks before the age filters: anything but a regular file is
/// skipped as such, a regular file matching no pattern is skipped as such,
/// and a matching file is skipped for its device exactly when the scan
/// keeps to the root's device and the file lies on another one.
pub proof fn lemma_entry_checks(
    is_file: bool,
    matched: bool,
    root_device: Option<u64>,
    device: u64,
    age_nanos: Option<u128>,
    newer_than_nanos: Option<u128>,
    older_than_nanos: Option<u128>,
)
    ensures
        !is_file ==> spec_entry_verdict(is_file, matched, root_device, device, age_nanos, newer_than_nanos, older_than_nanos)
            == EntryVerdict::NotAFile,
        is_file && !matched ==> spec_entry_verdict(is_file, matched, root_device, device, age_nanos, newer_than_nanos, older_than_nanos)
            == EntryVerdict::NoMatch,
        is_file && matched ==> ((spec_entry_verdict(is_file, matched, root_device, device, age_nanos, newer_than_nanos, older_than_nanos)
            == EntryVerdict::CrossesDevice) <==> (root_device is Some && root_device->0 != device)),
        spec_entry_verdict(is_file, matched, root_device, device, age_nanos, newer_than_nanos, older_than_nanos)
            == EntryVerdict::Keep ==> is_file && matched,
{
}

/// The age filters: a matching regular file on an allowed device is kept
/// when no filter is set; with a filter set and its age known, it is skipped
/// as too old exactly when its age exceeds `--newer-than` or
/// `--older-than`, and kept otherwise; with a filter set and its age
/// unknown, it is skipped for that. A file kept at some age is kept at any
/// younger age.
pub proof fn lemma_age_filters(
    root_device: Option<u64>,
    device: u64,
    age: u128,
    younger: u128,
    newer_than: Option<u128>,
    older_than: Option<u128>,
)
    requires
        root_device is None || root_device == Some(device),
    ensures
        spec_entry_verdict(true, true, root_device, device, Some(age), newer_than, older_than) == (if (
        newer_than is Some && age > newer_than->0) || (older_than is Some && age > older_than->0) {
            EntryVerdict::TooOld
        } else {
            EntryVerdict::Keep
        }),
        newer_than is None && older_than is None ==> spec_entry_verdict(
            true,
            true,
            root_device,
            device,
            None,
            newer_than,
            older_than,
        ) == EntryVerdict::Keep,
        (newer_than is Some || older_than is Some) ==> spec_entry_verdict(
            true,
            true,
            root_device,
            device,
            None,
            newer_than,
            older_than,
        ) == EntryVerdict::AgeUnknown,
        younger <= age && spec_entry_verdict(true, true, root_device, device, Some(age), newer_than, older_than)
            == EntryVerdict::Keep ==> spec_entry_verdict(
            true,
            true,
            root_device,
            device,
            Some(younger),
            newer_than,
            older_than,
        ) == EntryVerdict::Keep,
{
}

/// Several patterns match a path when one of them does: the patterns of
/// two lists together match exactly the paths that either list matches.
pub proof fn lemma_patterns_union(p1: Seq<Seq<char>>, p2: Seq<Seq<char>>, path: Seq<char>)
    ensures
        glob_set_is_match(p1 + p2, path) == (glob_set_is_match(p1, path) || glob_set_is_match(p2, path)),
{
    let p = p1 + p2;
    if glob_set_is_match(p, path) {
        let i = choose|i: int| 0 <= i < p.len() && glob_is_match(#[trigger] p[i], path);
        if i < p1.len() {
            assert(p1[i] == p[i]);
        } else {
            assert(p2[i - p1.len()] == p[i]);
        }
    }
    if glob_set_is_match(p1, path) {
        let i = choose|i: int| 0 <= i < p1.len() && glob_is_match(#[trigger] p1[i], path);
        assert(p[i] == p1[i]);
    }
    if glob_set_is_match(p2, path) {
        let i = choose|i: int| 0 <= i < p2.len() && glob_is_match(#[trigger] p2[i], path);
        assert(p[p1.len() + i] == p2[i]);
    }
}

/// Discovery with two lists of patterns together keeps exactly the entries
/// that discovery with either list keeps (the other settings alike).
pub proof fn lemma_discovery_union(
    p1: Seq<Seq<char>>,
    p2: Seq<Seq<char>>,
    path: Seq<char>,
    is_file: bool,
    root_device: Option<u64>,
    device: u64,
    age_nanos: Option<u128>,
    newer_than_nanos: Option<u128>,
    older_than_nanos: Option<u128>,
)
    ensures
        (spec_entry_verdict(
            is_file,
            is_file && glob_set_is_match(p1 + p2, path),
            root_device,
            device,
            age_nanos,
            newer_than_nanos,
            older_than_nanos,
        ) == EntryVerdict::Keep) == (spec_entry_verdict(
            is_file,
            is_file && glob_set_is_match(p1, path),
            root_device,
            device,
            age_nanos,
            newer_than_nanos,
            older_than_nanos,
        ) == EntryVerdict::Keep || spec_entry_verdict(
            is_file,
            is_file && glob_set_is_match(p2, path),
            root_device,
            device,
            age_nanos,
            newer_than_nanos,
            older_than_nanos,
        ) == EntryVerdict::Keep),
{
    lemma_patterns_union(p1, p2, path);
}

} // verus!
