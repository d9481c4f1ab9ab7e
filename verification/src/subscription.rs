//! Subscription sets: glob patterns over the full names of points, matched
//! by the `globset` crate. What a glob matches is known to the proofs only
//! by name; the contracts of the calls into the crate are taken on trust.

use crate::text::{lower, str_eq};
use vstd::prelude::*;
use vstd::string::*;

verus! {

#[verifier::external_type_specification]
#[verifier::external_body]
pub struct ExGlob(globset::Glob);

#[verifier::external_type_specification]
#[verifier::external_body]
pub struct ExGlobSetBuilder(globset::GlobSetBuilder);

#[verifier::external_type_specification]
#[verifier::external_body]
pub struct ExGlobSet(globset::GlobSet);

/// Whether a pattern is a glob that the crate accepts, to be matched
/// without regard to case, with `/` matched only by `/`, and with `\` as
/// the escape character.
pub uninterp spec fn glob_compiles(pattern: Seq<char>) -> bool;

/// Whether the glob of a pattern, built in that way, matches a candidate.
pub uninterp spec fn glob_matches(pattern: Seq<char>, candidate: Seq<char>) -> bool;

/// Whether the crate can compile the globs of the patterns, built in that
/// way, into one set.
pub uninterp spec fn set_compiles(patterns: Seq<Seq<char>>) -> bool;

/// The pattern of a glob that was built in that way; `None` for a glob
/// that was built in another way.
pub uninterp spec fn glob_pattern(glob: globset::Glob) -> Option<Seq<char>>;

/// What a builder holds: for each glob that was added, in order, what
/// `glob_pattern` says of it.
pub uninterp spec fn builder_patterns(
    builder: globset::GlobSetBuilder,
) -> Seq<Option<Seq<char>>>;

/// What a set holds: for each glob that it was built from, in order, what
/// `glob_pattern` says of it.
pub uninterp spec fn set_patterns(set: globset::GlobSet) -> Seq<Option<Seq<char>>>;

/// Whether every glob of a sequence was built in that way.
pub open spec fn all_strict(globs: Seq<Option<Seq<char>>>) -> bool {
    forall|i: int| 0 <= i < globs.len() ==> (#[trigger] globs[i]) is Some
}

/// The patterns of globs that were built in that way.
pub open spec fn patterns_of(globs: Seq<Option<Seq<char>>>) -> Seq<Seq<char>> {
    Seq::new(globs.len(), |i: int| globs[i]->0)
}

/// Whether one of the patterns matches the candidate, the case of its
/// letters set aside.
pub open spec fn any_matches(patterns: Seq<Seq<char>>, candidate: Seq<char>) -> bool {
    exists|i: int| 0 <= i < patterns.len() && #[trigger] glob_matches(patterns[i], lower(candidate))
}

/// `GlobBuilder::new`, its options `case_insensitive`, `literal_separator`
/// and `backslash_escape`, all switched on, and `GlobBuilder::build` of
/// globset: the glob of the pattern, or the text of the crate's error where
/// the pattern is no glob.
#[verifier::external_body]
fn build_glob(pattern: &str) -> (built: Result<globset::Glob, String>)
    ensures
        built is Ok <==> glob_compiles(pattern@),
        built matches Ok(glob) ==> glob_pattern(glob) == Some(pattern@),
{
    match globset::GlobBuilder::new(pattern).case_insensitive(true).literal_separator(
        true,
    ).backslash_escape(true).build() {
        Ok(glob) => Ok(glob),
        Err(e) => Err(format!("{}", e)),
    }
}

/// `GlobSetBuilder::new` of globset: a builder that holds no glob.
#[verifier::external_body]
fn builder_new() -> (builder: globset::GlobSetBuilder)
    ensures
        builder_patterns(builder).len() == 0,
{
    globset::GlobSetBuilder::new()
}

/// `GlobSetBuilder::add` of globset: the glob is added behind the others.
#[verifier::external_body]
fn builder_add(builder: &mut globset::GlobSetBuilder, glob: globset::Glob)
    ensures
        builder_patterns(*final(builder)) == builder_patterns(*old(builder)).push(
            glob_pattern(glob),
        ),
{
    builder.add(glob);
}

/// `GlobSetBuilder::build` of globset: the set of the globs that were
/// added, or the text of the crate's error where it cannot compile them.
#[verifier::external_body]
fn builder_build(builder: &globset::GlobSetBuilder) -> (built: Result<globset::GlobSet, String>)
    requires
        all_strict(builder_patterns(*builder)),
    ensures
        built is Ok <==> set_compiles(patterns_of(builder_patterns(*builder))),
        built matches Ok(set) ==> set_patterns(set) == builder_patterns(*builder),
{
    match builder.build() {
        Ok(set) => Ok(set),
        Err(e) => Err(format!("{}", e)),
    }
}

/// `GlobSet::is_match` of globset: whether one of the globs of the set
/// matches the candidate. The globs match without regard to case, so the
/// answer is that for the candidate in lower case. A set of no globs
/// matches nothing.
#[verifier::external_body]
fn set_is_match(set: &globset::GlobSet, candidate: &str) -> (matched: bool)
    requires
        all_strict(set_patterns(*set)),
    ensures
        matched == (exists|i: int|
            0 <= i < set_patterns(*set).len() && #[trigger] glob_matches(
                set_patterns(*set)[i]->0,
                lower(candidate@),
            )),
{
    set.is_match(candidate)
}

/// `GlobSet::empty` of globset: the set of no globs.
#[verifier::external_body]
fn set_empty() -> (set: globset::GlobSet)
    ensures
        set_patterns(set).len() == 0,
{
    globset::GlobSet::empty()
}

/// Why a pattern was refused, in the words of the glob matcher.
#[derive(Debug, Clone, PartialEq, Eq)]
pub struct SubscriptionError {
    pub message: String,
}

/// A set of glob patterns over the full names of points, with the matcher
/// compiled from them.
#[derive(Debug)]
pub struct SubscriptionSet {
    points: Vec<String>,
    globset: globset::GlobSet,
}

/// The texts of a sequence of strings.
pub open spec fn texts(strings: Seq<String>) -> Seq<Seq<char>> {
    Seq::new(strings.len(), |i: int| strings[i]@)
}

/// What adding a pattern makes of a sequence of patterns: the pattern is
/// added behind the others unless it is there already.
pub open spec fn with_pattern(patterns: Seq<Seq<char>>, pattern: Seq<char>) -> Seq<Seq<char>> {
    if patterns.contains(pattern) {
        patterns
    } else {
        patterns.push(pattern)
    }
}

/// What gathering patterns one by one makes of them: each pattern once, in
/// the order of its first occurrence.
pub open spec fn gathered(source: Seq<Seq<char>>) -> Seq<Seq<char>>
    decreases source.len(),
{
    if source.len() == 0 {
        Seq::empty()
    } else {
        with_pattern(gathered(source.drop_last()), source.last())
    }
}

/// Whether every pattern is a glob and all of them compile into one set.
pub open spec fn compiles(patterns: Seq<Seq<char>>) -> bool {
    (forall|i: int| 0 <= i < patterns.len() ==> glob_compiles(#[trigger] patterns[i]))
        && set_compiles(patterns)
}

impl View for SubscriptionSet {
    type V = Seq<Seq<char>>;

    closed spec fn view(&self) -> Seq<Seq<char>> {
        texts(self.points@)
    }
}

impl SubscriptionSet {
    #[verifier::type_invariant]
    spec fn inv(&self) -> bool {
        &&& self.points@.len() == set_patterns(self.globset).len()
        &&& all_strict(set_patterns(self.globset))
        &&& patterns_of(set_patterns(self.globset)) == texts(self.points@)
        &&& texts(self.points@).no_duplicates()
    }

    /// Whether the set matches a candidate: one of its patterns does, the
    /// case of the candidate's letters set aside.
    pub open spec fn spec_matches(&self, candidate: Seq<char>) -> bool {
        any_matches(self@, candidate)
    }

    /// The set of the given patterns, each taken once; the error of the
    /// glob matcher where it refuses them.
    pub fn new(source: Vec<String>) -> (made: Result<SubscriptionSet, SubscriptionError>)
        ensures
            match made {
                Ok(set) => compiles(gathered(texts(source@))) && set@ == gathered(texts(source@)),
                Err(_) => !compiles(gathered(texts(source@))),
            },
    {
        let mut points: Vec<String> = Vec::new();
        let mut i: usize = 0;
        proof {
            assert(texts(source@.subrange(0, 0)) =~= Seq::<Seq<char>>::empty());
            assert(texts(points@) =~= Seq::<Seq<char>>::empty());
        }
        while i < source.len()
            invariant
                i <= source@.len(),
                texts(points@) == gathered(texts(source@.subrange(0, i as int))),
            decreases source@.len() - i,
        {
            let ghost before = texts(points@);
            let ghost shorter = texts(source@.subrange(0, i as int));
            let ghost longer = texts(source@.subrange(0, i + 1));
            proof {
                assert(longer.drop_last() =~= shorter);
                assert(longer.last() == source@[i as int]@);
            }
            if !contains_text(&points, source[i].as_str()) {
                points.push(source[i].clone());
                assert(texts(points@) =~= before.push(source@[i as int]@));
            }
            i = i + 1;
        }
        proof {
            assert(source@.subrange(0, i as int) =~= source@);
            lemma_gathered_no_duplicates(texts(source@));
        }
        match build_glob_matcher(&points) {
            Ok(globset) => Ok(SubscriptionSet { points, globset }),
            Err(message) => Err(SubscriptionError { message }),
        }
    }

    /// The set of no patterns. It matches nothing.
    pub fn empty() -> (set: SubscriptionSet)
        ensures
            set@.len() == 0,
            forall|candidate: Seq<char>| !set.spec_matches(candidate),
    {
        let points: Vec<String> = Vec::new();
        let globset = set_empty();
        assert(texts(points@) =~= Seq::<Seq<char>>::empty());
        assert(patterns_of(set_patterns(globset)) =~= Seq::<Seq<char>>::empty());
        SubscriptionSet { points, globset }
    }

    /// Adds a pattern to the set and compiles the matcher anew. Where the
    /// glob matcher refuses the pattern, or the set with the pattern in it,
    /// the error is returned and the set stays as it was.
    pub fn insert_point(&mut self, new_point: &str) -> (done: Result<(), SubscriptionError>)
        ensures
            match done {
                Ok(()) => compiles(with_pattern(old(self)@, new_point@)) && final(self)@
                    == with_pattern(old(self)@, new_point@),
                Err(_) => !compiles(with_pattern(old(self)@, new_point@)) && final(self)@ == old(
                    self,
                )@,
            },
    {
        proof {
            use_type_invariant(&*self);
        }
        let mut points = self.points.clone();
        assert(texts(points@) =~= texts(self.points@)) by {
            assert(points@.len() == self.points@.len());
            assert forall|i: int| 0 <= i < points@.len() implies points@[i]@ == self.points@[i]@
                by {
                assert(vstd::pervasive::cloned::<String>(self.points@[i], points@[i]));
            }
        }
        let ghost before = texts(points@);
        if !contains_text(&points, new_point) {
            points.push(new_point.to_owned());
            assert(texts(points@) =~= before.push(new_point@));
        }
        match build_glob_matcher(&points) {
            Ok(globset) => {
                proof {
                    lemma_with_pattern_no_duplicates(old(self)@, new_point@);
                }
                *self = SubscriptionSet { points, globset };
                Ok(())
            },
            Err(message) => Err(SubscriptionError { message }),
        }
    }

    /// Whether one of the patterns of the set matches the candidate.
    pub fn matches(&self, candidate: &str) -> (matched: bool)
        ensures
            matched == self.spec_matches(candidate@),
    {
        proof {
            use_type_invariant(self);
        }
        let matched = set_is_match(&self.globset, candidate);
        proof {
            let globs = set_patterns(self.globset);
            let patterns = patterns_of(globs);
            if matched {
                let i = choose|i: int|
                    0 <= i < globs.len() && #[trigger] glob_matches(globs[i]->0, lower(candidate@));
                assert(glob_matches(patterns[i], lower(candidate@)));
            }
            if any_matches(patterns, candidate@) {
                let i = choose|i: int|
                    0 <= i < patterns.len() && #[trigger] glob_matches(
                        patterns[i],
                        lower(candidate@),
                    );
                assert(glob_matches(globs[i]->0, lower(candidate@)));
            }
        }
        matched
    }

    /// The patterns of the set, in the order in which they were added.
    pub fn patterns(&self) -> (patterns: &Vec<String>)
        ensures
            texts(patterns@) == self@,
    {
        &self.points
    }

    /// A set matches a candidate whatever the case of the candidate's
    /// letters: candidates that are the same in lower case are matched
    /// alike.
    pub proof fn lemma_case_is_immaterial(&self, one: Seq<char>, other: Seq<char>)
        requires
            lower(one) == lower(other),
        ensures
            self.spec_matches(one) == self.spec_matches(other),
    {
    }

    /// A set of no patterns matches nothing.
    pub proof fn lemma_empty_matches_nothing(&self, candidate: Seq<char>)
        requires
            self@.len() == 0,
        ensures
            !self.spec_matches(candidate),
    {
    }
}

/// Whether one of the strings has the given text.
fn contains_text(strings: &Vec<String>, text: &str) -> (found: bool)
    ensures
        found == texts(strings@).contains(text@),
{
    let mut i: usize = 0;
    while i < strings.len()
        invariant
            i <= strings@.len(),
            forall|j: int| 0 <= j < i ==> strings@[j]@ != text@,
        decreases strings@.len() - i,
    {
        if str_eq(strings[i].as_str(), text) {
            assert(texts(strings@)[i as int] == text@);
            return true;
        }
        i = i + 1;
    }
    assert(!texts(strings@).contains(text@)) by {
        if texts(strings@).contains(text@) {
            let j = choose|j: int| 0 <= j < texts(strings@).len() && texts(strings@)[j] == text@;
            assert(strings@[j]@ == text@);
        }
    }
    false
}

/// Adding a pattern to patterns without duplicates makes no duplicate.
pub proof fn lemma_with_pattern_no_duplicates(patterns: Seq<Seq<char>>, pattern: Seq<char>)
    requires
        patterns.no_duplicates(),
    ensures
        with_pattern(patterns, pattern).no_duplicates(),
{
}

/// Gathered patterns hold no pattern twice.
pub proof fn lemma_gathered_no_duplicates(source: Seq<Seq<char>>)
    ensures
        gathered(source).no_duplicates(),
    decreases source.len(),
{
    if source.len() > 0 {
        lemma_gathered_no_duplicates(source.drop_last());
    }
}

/// The matcher of the given patterns: each is built into a glob, the globs
/// are compiled into one set. The text of the glob matcher's error where it
/// refuses a pattern or the set.
fn build_glob_matcher(source: &Vec<String>) -> (built: Result<globset::GlobSet, String>)
    ensures
        match built {
            Ok(set) => {
                &&& compiles(texts(source@))
                &&& all_strict(set_patterns(set))
                &&& set_patterns(set).len() == source@.len()
                &&& patterns_of(set_patterns(set)) == texts(source@)
            },
            Err(_) => !compiles(texts(source@)),
        },
{
    let mut builder = builder_new();
    let mut i: usize = 0;
    assert(patterns_of(builder_patterns(builder)) =~= texts(source@.subrange(0, 0)));
    while i < source.len()
        invariant
            i <= source@.len(),
            all_strict(builder_patterns(builder)),
            builder_patterns(builder).len() == i,
            patterns_of(builder_patterns(builder)) == texts(source@.subrange(0, i as int)),
            forall|j: int| 0 <= j < i ==> glob_compiles(#[trigger] texts(source@)[j]),
        decreases source@.len() - i,
    {
        let ghost before = builder_patterns(builder);
        match build_glob(source[i].as_str()) {
            Ok(glob) => {
                builder_add(&mut builder, glob);
            },
            Err(message) => {
                assert(!glob_compiles(texts(source@)[i as int]));
                return Err(message);
            },
        }
        i = i + 1;
        proof {
            let now = builder_patterns(builder);
            assert(now == before.push(Some(source@[i - 1]@)));
            assert forall|j: int| 0 <= j < i implies patterns_of(now)[j] == texts(
                source@.subrange(0, i as int),
            )[j] by {
                if j < i - 1 {
                    assert(now[j] == before[j]);
                    assert(patterns_of(before)[j] == texts(source@.subrange(0, i - 1))[j]);
                }
            }
            assert(patterns_of(now) =~= texts(source@.subrange(0, i as int)));
            assert forall|j: int| 0 <= j < i implies glob_compiles(#[trigger] texts(source@)[j])
                by {
                if j == i - 1 {
                    assert(texts(source@)[j] == source@[i - 1]@);
                }
            }
        }
    }
    proof {
        assert(source@.subrange(0, i as int) =~= source@);
    }
    builder_build(&builder)
}

} // verus!
