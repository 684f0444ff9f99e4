//! Globs, as the crate `ignore` reads and matches them.
use ignore::gitignore::{Gitignore, GitignoreBuilder};
use ignore::Match;
use vstd::prelude::*;

use crate::bytes;
use crate::path;

verus! {

/// A builder of matchers, of the crate `ignore`.
#[verifier::external_type_specification]
#[verifier::external_body]
pub struct ExGitignoreBuilder(GitignoreBuilder);

/// A matcher, of the crate `ignore`.
#[verifier::external_type_specification]
#[verifier::external_body]
pub struct ExGitignore(Gitignore);

/// The globs that a builder holds, each as it was written.
pub uninterp spec fn builder_globs(builder: GitignoreBuilder) -> Seq<Seq<u8>>;

/// The globs that a matcher holds, each as it was written.
pub uninterp spec fn matcher_globs(matcher: Gitignore) -> Seq<Seq<u8>>;

/// What is wrong with a line that is not a glob, in words; nothing for any other line.
pub uninterp spec fn line_problem(line: Seq<u8>) -> Option<Seq<u8>>;

/// Why globs make no matcher, in words; nothing where they make one.
pub uninterp spec fn build_problem(globs: Seq<Seq<u8>>) -> Option<Seq<u8>>;

/// What globs say of a path, or of the nearest directory above it of which they say anything.
pub uninterp spec fn verdict_on(globs: Seq<Seq<u8>>, p: Seq<u8>, is_directory: bool) -> Verdict;

/// What a matcher says of a path.
#[derive(Clone, Copy, PartialEq, Eq, Structural, Debug)]
pub enum Verdict {
    /// No glob matches.
    Unmatched,
    /// A glob matches.
    Matched,
    /// A negated glob matches.
    Negated,
}

/// The globs that a line adds: itself without white space at its end, unless it is a comment or
/// nothing is left of it. A space behind a backslash at the end stays.
pub open spec fn kept(line: Seq<u8>) -> Seq<Seq<u8>> {
    let escaped = line.len() >= 2 && line[line.len() - 2] == 92 && line[line.len() - 1] == 32;
    let glob = if escaped {
        line
    } else {
        bytes::trimmed(line)
    };
    if bytes::begins(line, seq![35u8]) || glob.len() == 0 {
        Seq::empty()
    } else {
        seq![glob]
    }
}

/// Whether a path can be matched: it is relative and does not begin with the component `.`.
pub open spec fn matchable(p: Seq<u8>) -> bool {
    &&& !path::absolute(p)
    &&& p != seq![bytes::DOT]
    &&& !bytes::begins(p, seq![bytes::DOT, bytes::SLASH])
}

/// Calls `GitignoreBuilder::new` with an empty root: the builder holds no globs, and paths will
/// be matched as they are.
#[verifier::external_body]
pub(crate) fn new_builder() -> (r: GitignoreBuilder)
    ensures
        builder_globs(r) == Seq::<Seq<u8>>::empty(),
{
    GitignoreBuilder::new("")
}

/// Calls `GitignoreBuilder::add_line`: it fails on a line that is not a glob, and then leaves
/// the builder as it was; else the builder holds the globs that the line adds.
#[verifier::external_body]
pub(crate) fn add_line(builder: &mut GitignoreBuilder, line: &str) -> (r: Result<(), String>)
    ensures
        match r {
            Ok(_) => {
                &&& line_problem(bytes::text(line@)) is None
                &&& builder_globs(*final(builder)) == builder_globs(*old(builder)) + kept(
                    bytes::text(line@),
                )
            },
            Err(problem) => {
                &&& line_problem(bytes::text(line@)) == Some(bytes::text(problem@))
                &&& builder_globs(*final(builder)) == builder_globs(*old(builder))
            },
        },
{
    match builder.add_line(None, line) {
        Ok(_) => Ok(()),
        Err(problem) => Err(problem.to_string()),
    }
}

/// Calls `GitignoreBuilder::build`: the matcher holds the globs of the builder, unless they make
/// none.
#[verifier::external_body]
pub(crate) fn build(builder: &GitignoreBuilder) -> (r: Result<Gitignore, String>)
    ensures
        match r {
            Ok(matcher) => {
                &&& build_problem(builder_globs(*builder)) is None
                &&& matcher_globs(matcher) == builder_globs(*builder)
            },
            Err(problem) => build_problem(builder_globs(*builder)) == Some(bytes::text(problem@)),
        },
{
    builder.build().map_err(|problem| problem.to_string())
}

/// Calls `Gitignore::matched_path_or_any_parents`, which looks at the path and then at the
/// directories above it.
#[verifier::external_body]
pub(crate) fn verdict(matcher: &Gitignore, p: &str, is_directory: bool) -> (r: Verdict)
    requires
        matchable(bytes::text(p@)),
    ensures
        r == verdict_on(matcher_globs(*matcher), bytes::text(p@), is_directory),
{
    match matcher.matched_path_or_any_parents(p, is_directory) {
        Match::None => Verdict::Unmatched,
        Match::Ignore(_) => Verdict::Matched,
        Match::Whitelist(_) => Verdict::Negated,
    }
}

} // verus!
