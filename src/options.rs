//! Settings of a run: sampling interval, repository, cohort pattern and file filters.
use vstd::prelude::*;

verus! {

#[verifier::external_type_specification]
#[verifier::external_body]
pub struct ExRegex(regex::Regex);

/// Whether the regex crate accepts `pattern` under its default limits.
pub uninterp spec fn regex_compiles(pattern: Seq<char>) -> bool;

/// Whether the regular expression `pattern` matches somewhere in `text`.
pub uninterp spec fn regex_finds(pattern: Seq<char>, text: Seq<char>) -> bool;

/// Relies on `regex::Regex::new`: it fails exactly on the patterns it does not accept.
#[verifier::external_body]
fn compile(pattern: &str) -> (r: Option<regex::Regex>)
    ensures
        r is Some == regex_compiles(pattern@),
{
    regex::Regex::new(pattern).ok()
}

/// A compiled regular expression together with its source.
pub struct Pattern {
    source: String,
    re: regex::Regex,
}

/// Relies on `regex::Regex::is_match` (a match anywhere in `text`) for a
/// `Pattern`, whose expression was compiled from its source by `Pattern::new`.
#[verifier::external_body]
fn finds(p: &Pattern, text: &str) -> (r: bool)
    ensures
        r == regex_finds(p.source@, text@),
{
    p.re.is_match(text)
}

impl Pattern {
    pub closed spec fn source(&self) -> Seq<char> {
        self.source@
    }

    /// Compiles `source`; `None` when it is not a valid regular expression.
    pub fn new(source: &String) -> (r: Option<Pattern>)
        ensures
            r is Some == regex_compiles(source@),
            r matches Some(p) ==> p.source() == source@,
    {
        match compile(source.as_str()) {
            Some(re) => Some(Pattern { source: source.clone(), re }),
            None => None,
        }
    }

    /// Whether the expression matches somewhere in `text`.
    pub fn is_match(&self, text: &String) -> (r: bool)
        ensures
            r == regex_finds(self.source(), text@),
    {
        finds(self, text.as_str())
    }

    pub fn as_str(&self) -> (r: &str)
        ensures
            r@ == self.source(),
    {
        self.source.as_str()
    }
}

/// Whether a file is left out of the analysis: it matches the ignore
/// pattern, or there is a pattern of files to keep and it does not match it.
pub open spec fn skips(ignore: Option<Seq<char>>, only: Option<Seq<char>>, name: Seq<char>) -> bool {
    let ignored = match ignore {
        Some(p) => regex_finds(p, name),
        None => false,
    };
    let kept = match only {
        Some(p) => regex_finds(p, name),
        None => true,
    };
    ignored || !kept
}

pub open spec fn source_of(p: Option<Pattern>) -> Option<Seq<char>> {
    match p {
        Some(q) => Some(q.source()),
        None => None,
    }
}

/// Settings of one run.
pub struct Options {
    /// Least time, in seconds, between two sampled commits.
    pub interval: i64,
    pub repo_path: String,
    /// strftime-style pattern that turns a commit time into a cohort label.
    pub cohort_fmt: String,
    /// Files matching this are ignored.
    pub ignore: Option<Pattern>,
    /// When set, only files matching this are analysed.
    pub only: Option<Pattern>,
}

impl Options {
    /// Whether the file `name` matches the ignore pattern.
    pub fn should_ignore(&self, name: &String) -> (r: bool)
        ensures
            r == match source_of(self.ignore) {
                Some(p) => regex_finds(p, name@),
                None => false,
            },
    {
        match &self.ignore {
            Some(p) => p.is_match(name),
            None => false,
        }
    }

    /// Whether the file `name` passes the pattern of files to keep, if there is one.
    pub fn should_keep(&self, name: &String) -> (r: bool)
        ensures
            r == match source_of(self.only) {
                Some(p) => regex_finds(p, name@),
                None => true,
            },
    {
        match &self.only {
            Some(p) => p.is_match(name),
            None => true,
        }
    }

    /// Whether the file `name` is left out of the analysis.
    pub fn should_skip(&self, name: &String) -> (r: bool)
        ensures
            r == skips(source_of(self.ignore), source_of(self.only), name@),
    {
        self.should_ignore(name) || !self.should_keep(name)
    }

    pub fn path(&self) -> (r: &String)
        ensures
            r == &self.repo_path,
    {
        &self.repo_path
    }

    pub fn format(&self) -> (r: &String)
        ensures
            r == &self.cohort_fmt,
    {
        &self.cohort_fmt
    }

    pub fn interval(&self) -> (r: i64)
        ensures
            r == self.interval,
    {
        self.interval
    }
}

} // verus!
