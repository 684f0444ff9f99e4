//! What is said of a failure.
use vstd::prelude::*;

use crate::bytes;
use crate::error::{Error, FaultKind, Refusal, RuleProblem, Stage, Tool, Trouble};

verus! {

/// The form in which a text is shown between quotation marks.
pub uninterp spec fn debug_form(text: Seq<u8>) -> Seq<u8>;

/// Calls the `Debug` formatting of `str`, which puts a text between quotation marks and escapes
/// what cannot be shown in it; `debug_form` names what it writes.
#[verifier::external_body]
fn quoted(text: &str) -> (r: Vec<u8>)
    ensures
        r@ == debug_form(bytes::text(text@)),
{
    format!("{:?}", text).into_bytes()
}

/// The form in which a character is shown.
pub uninterp spec fn escape_form(text: Seq<u8>) -> Seq<u8>;

/// Calls `str::escape_debug`, which escapes each character that cannot be shown; `escape_form` names
/// what it gives. It is asked of single characters only.
#[verifier::external_body]
fn escaped(text: &str) -> (r: Vec<u8>)
    ensures
        r@ == escape_form(bytes::text(text@)),
{
    text.escape_debug().to_string().into_bytes()
}

/// The number of bytes that encode the first character, or zero where the first byte begins none.
pub open spec fn width(s: Seq<u8>) -> int {
    if s.len() >= 1 && vstd::utf8::valid_utf8(s.take(1)) {
        1
    } else if s.len() >= 2 && vstd::utf8::valid_utf8(s.take(2)) {
        2
    } else if s.len() >= 3 && vstd::utf8::valid_utf8(s.take(3)) {
        3
    } else if s.len() >= 4 && vstd::utf8::valid_utf8(s.take(4)) {
        4
    } else {
        0
    }
}

/// A number below sixteen as a digit.
pub open spec fn digit(n: u8) -> u8 {
    if n < 10 {
        (48 + n) as u8
    } else {
        (55 + n) as u8
    }
}

/// A byte as it is shown: a backslash, an `x` and two digits.
pub open spec fn byte_form(b: u8) -> Seq<u8> {
    seq![92u8, 120u8, digit(b / 16), digit(b % 16)]
}

/// Characters as they are shown, and bytes that are of none as they are.
pub open spec fn escapes(s: Seq<u8>) -> Seq<u8>
    decreases s.len(),
{
    if s.len() == 0 {
        Seq::empty()
    } else if width(s) > 0 {
        escape_form(s.take(width(s))) + escapes(s.skip(width(s)))
    } else {
        byte_form(s[0]) + escapes(s.skip(1))
    }
}

/// A subject between quotation marks; where it is not UTF-8, with its characters escaped one by one,
/// and the bytes that are of none written with their numbers.
pub open spec fn shown(subject: Seq<u8>) -> Seq<u8> {
    if vstd::utf8::valid_utf8(subject) {
        debug_form(subject)
    } else {
        around("\""@, escapes(subject), "\""@)
    }
}

/// What is said of output that is not UTF-8.
pub open spec fn unreadable(output: Seq<u8>) -> Seq<u8> {
    if vstd::utf8::valid_utf8(output) {
        Seq::empty()
    } else {
        bytes::utf8_complaint(output)
    }
}

/// `before`, then the subject, then `after`.
pub open spec fn around(before: Seq<char>, subject: Seq<u8>, after: Seq<char>) -> Seq<u8> {
    bytes::text(before) + subject + bytes::text(after)
}

/// What is said of a broken rule.
pub open spec fn refusal_message(why: Refusal, subject: Seq<u8>) -> Seq<u8> {
    match why {
        Refusal::SourceNotAbsolute => around("layer source "@, subject, " is not absolute"@),
        Refusal::SourceNotDirectory => around("layer source "@, subject, " is not a directory"@),
        Refusal::TargetNotRelative => around("layer target "@, subject, " must be relative"@),
        Refusal::PathNotUtf8 => around("path is not UTF-8: "@, subject, ""@),
        Refusal::Unsupported => around("unsupported filesystem object "@, subject, ""@),
        Refusal::SpecialFile => around("cannot back up special file "@, subject, ""@),
        Refusal::Changed => around("managed path "@, subject, " has changed"@),
        Refusal::ChangedInTransition => around(
            "managed path "@,
            subject,
            " changed during transition"@,
        ),
        Refusal::Unmanaged => around(
            "cannot restore over directory with unmanaged entries "@,
            subject,
            ""@,
        ),
        Refusal::EntryNotUtf8 => bytes::text("managed directory contains a non-UTF-8 entry"@),
        Refusal::NotInStore => around(
            ""@,
            subject,
            " is not in the Nix store: prefix not found"@,
        ),
        Refusal::NotStoreObject => around(""@, subject, " does not identify a Nix store object"@),
        Refusal::NoActivationName => bytes::text("activation has no store object name"@),
        Refusal::NotKept => around("store path of "@, subject, " was never kept"@),
        Refusal::NoParent => around("path "@, subject, " has no parent"@),
        Refusal::StateNotUtf8 => around("image state name is not UTF-8: "@, shown(subject), ""@),
        Refusal::OutputNotUtf8 => unreadable(subject),
        Refusal::NotMounted => around("image "@, subject, " is not mounted"@),
        Refusal::UnknownImage => around("unknown image "@, subject, ""@),
        Refusal::InvalidName => around(
            "image name "@,
            shown(subject),
            " must be a normal path component"@,
        ),
        Refusal::NoManifest => bytes::text("this executable is not bound to a manifest"@),
        Refusal::NoHome => bytes::text("HOME is not set"@),
        Refusal::NoStateHome => bytes::text("HOME or XDG_STATE_HOME must be set"@),
        Refusal::RootNotAbsolute => around(
            "image root "@,
            shown(subject),
            " must be ~, below ~, or absolute"@,
        ),
        Refusal::RootNotDirectory => around("image root "@, subject, " is not a directory"@),
        Refusal::ImageChanged => around("image "@, subject, " has changed"@),
        Refusal::Malformed => around("activation record is malformed at "@, subject, ""@),
    }
}

/// What is said of a wrong rule, behind its line.
pub open spec fn problem_message(problem: RuleProblem) -> Seq<char> {
    match problem {
        RuleProblem::NoPattern => ": permissions require a pattern"@,
        RuleProblem::BadPermissions => ": permissions must contain four octal digits"@,
        RuleProblem::UnknownAction => ": expected -, +, =, or *MODE"@,
        RuleProblem::EmptyOrNegated => ": invalid empty or negated pattern"@,
    }
}

/// What is said of what was being done.
pub open spec fn stage_message(stage: Stage, subject: Seq<u8>) -> Seq<u8> {
    match stage {
        Stage::Transition => around("transition "@, subject, ": "@),
        Stage::ReadManifest => around("read manifest "@, subject, ": "@),
        Stage::ReadRoot => around("read image root "@, subject, ": "@),
        Stage::StoreAdd => bytes::text("run nix store add: "@),
        Stage::RegisterRoot => bytes::text("register activation GC root: "@),
        Stage::DiffTool => around("run diff tool "@, subject, ": "@),
    }
}

/// What is said of a command that reported failure, before its output.
pub open spec fn tool_message(tool: Tool) -> Seq<char> {
    match tool {
        Tool::StoreAdd => "nix store add failed: "@,
        Tool::RegisterRoot => "nix-store failed to register activation GC root: "@,
    }
}

/// What is said of a failure.
pub open spec fn message(e: Trouble) -> Seq<u8>
    decreases e,
{
    match e {
        Error::Io(fault) => if fault.kind is Unexpected {
            bytes::text("unexpected answer"@)
        } else {
            fault.text
        },
        Error::Refused(why, subject) => refusal_message(why, subject),
        Error::Rule(line, problem) => around(
            "rule "@,
            bytes::decimal(line as nat),
            problem_message(problem),
        ),
        Error::Glob(line, problem) => around("rule "@, bytes::decimal(line as nat), ": "@)
            + problem,
        Error::Matcher(problem) => problem,
        Error::Overlap(name, root) => around("image "@, name, ""@) + around(
            " is already mounted at overlapping root "@,
            root,
            ""@,
        ),
        Error::Command(tool, output) => around(tool_message(tool), output, ""@),
        Error::Within(stage, subject, cause) => stage_message(stage, subject) + message(*cause),
        Error::Unrecovered(first, second) => message(*first) + around(
            "; recovery failed: "@,
            message(*second),
            ""@,
        ),
    }
}

/// `before`, then the subject, then `after`.
fn surround(before: &str, subject: &[u8], after: &str) -> (r: Vec<u8>)
    ensures
        r@ == around(before@, subject@, after@),
{
    let head = bytes::literal(before);
    let tail = bytes::literal(after);
    let start = bytes::joined(&head, subject);
    bytes::joined(&start, &tail)
}

/// The character that begins at `from`, escaped, and the number of its bytes; nothing where none
/// begins there.
fn character(s: &[u8], from: usize) -> (r: Option<(Vec<u8>, usize)>)
    requires
        from < s.len(),
    ensures
        match r {
            Some(found) => found.1 == width(s@.skip(from as int)) && found.1 > 0 && found.0@
                == escape_form(s@.skip(from as int).take(found.1 as int)),
            None => width(s@.skip(from as int)) == 0,
        },
{
    let rest = bytes::rest(s, from);
    let mut n: usize = 1;
    while n <= 4 && n <= rest.len()
        invariant
            rest@ == s@.skip(from as int),
            1 <= n <= 5,
            forall|k: int| 1 <= k < n ==> !vstd::utf8::valid_utf8(#[trigger] rest@.take(k)),
        decreases 5 - n,
    {
        let part = bytes::front(&rest, n);
        match bytes::as_text(&part) {
            Ok(text) => {
                return Some((escaped(text), n));
            },
            Err(_) => {},
        }
        n += 1;
    }
    None
}

/// A number below sixteen as a digit.
fn write_digit(n: u8) -> (r: u8)
    requires
        n < 16,
    ensures
        r == digit(n),
{
    if n < 10 {
        48 + n
    } else {
        55 + n
    }
}

/// Characters as they are shown, and bytes that are of none as they are.
fn escape(s: &[u8]) -> (r: Vec<u8>)
    ensures
        r@ == escapes(s@),
{
    let mut r: Vec<u8> = Vec::new();
    let mut i: usize = 0;
    assert(s@.skip(0) =~= s@);
    assert(r@ + escapes(s@.skip(0)) =~= escapes(s@));
    while i < s.len()
        invariant
            i <= s.len(),
            escapes(s@) == r@ + escapes(s@.skip(i as int)),
        decreases s.len() - i,
    {
        let ghost before = r@;
        let ghost left = s@.skip(i as int);
        match character(s, i) {
            Some((mut form, n)) => {
                r.append(&mut form);
                proof {
                    assert(left.skip(n as int) =~= s@.skip(i + n));
                    assert(escapes(s@) =~= r@ + escapes(s@.skip(i + n)));
                }
                i += n;
            },
            None => {
                let b: u8 = s[i];
                r.push(92);
                r.push(120);
                r.push(write_digit(b / 16));
                r.push(write_digit(b % 16));
                proof {
                    assert(left[0] == b);
                    assert(left.skip(1) =~= s@.skip(i + 1));
                    assert(r@ =~= before + byte_form(b));
                    assert(escapes(s@) =~= r@ + escapes(s@.skip(i + 1)));
                }
                i += 1;
            },
        }
    }
    assert(s@.skip(i as int) =~= Seq::<u8>::empty());
    assert(r@ =~= escapes(s@));
    r
}

/// A subject between quotation marks; where it is not UTF-8, with its characters escaped one by one,
/// and the bytes that are of none written with their numbers.
fn show(subject: &[u8]) -> (r: Vec<u8>)
    ensures
        r@ == shown(subject@),
{
    match bytes::as_text(subject) {
        Ok(text) => quoted(text),
        Err(_) => {
            let inner = escape(subject);
            surround("\"", &inner, "\"")
        },
    }
}

fn refusal_text(why: Refusal, subject: &[u8]) -> (r: Vec<u8>)
    ensures
        r@ == refusal_message(why, subject@),
{
    match why {
        Refusal::SourceNotAbsolute => surround("layer source ", subject, " is not absolute"),
        Refusal::SourceNotDirectory => surround("layer source ", subject, " is not a directory"),
        Refusal::TargetNotRelative => surround("layer target ", subject, " must be relative"),
        Refusal::PathNotUtf8 => surround("path is not UTF-8: ", subject, ""),
        Refusal::Unsupported => surround("unsupported filesystem object ", subject, ""),
        Refusal::SpecialFile => surround("cannot back up special file ", subject, ""),
        Refusal::Changed => surround("managed path ", subject, " has changed"),
        Refusal::ChangedInTransition => surround(
            "managed path ",
            subject,
            " changed during transition",
        ),
        Refusal::Unmanaged => surround(
            "cannot restore over directory with unmanaged entries ",
            subject,
            "",
        ),
        Refusal::EntryNotUtf8 => bytes::literal("managed directory contains a non-UTF-8 entry"),
        Refusal::NotInStore => surround(
            "",
            subject,
            " is not in the Nix store: prefix not found",
        ),
        Refusal::NotStoreObject => surround("", subject, " does not identify a Nix store object"),
        Refusal::NoActivationName => bytes::literal("activation has no store object name"),
        Refusal::NotKept => surround("store path of ", subject, " was never kept"),
        Refusal::NoParent => surround("path ", subject, " has no parent"),
        Refusal::StateNotUtf8 => {
            let subject = show(subject);
            surround("image state name is not UTF-8: ", &subject, "")
        },
        Refusal::OutputNotUtf8 => match bytes::as_text(subject) {
            Ok(_) => {
                let none: Vec<u8> = Vec::new();
                assert(none@ =~= Seq::<u8>::empty());
                none
            },
            Err(problem) => bytes::literal(problem.as_str()),
        },
        Refusal::NotMounted => surround("image ", subject, " is not mounted"),
        Refusal::UnknownImage => surround("unknown image ", subject, ""),
        Refusal::InvalidName => {
            let subject = show(subject);
            surround("image name ", &subject, " must be a normal path component")
        },
        Refusal::NoManifest => bytes::literal("this executable is not bound to a manifest"),
        Refusal::NoHome => bytes::literal("HOME is not set"),
        Refusal::NoStateHome => bytes::literal("HOME or XDG_STATE_HOME must be set"),
        Refusal::RootNotAbsolute => {
            let subject = show(subject);
            surround("image root ", &subject, " must be ~, below ~, or absolute")
        },
        Refusal::RootNotDirectory => surround("image root ", subject, " is not a directory"),
        Refusal::ImageChanged => surround("image ", subject, " has changed"),
        Refusal::Malformed => surround("activation record is malformed at ", subject, ""),
    }
}

fn problem_text(problem: RuleProblem) -> (r: &'static str)
    ensures
        r@ == problem_message(problem),
{
    match problem {
        RuleProblem::NoPattern => ": permissions require a pattern",
        RuleProblem::BadPermissions => ": permissions must contain four octal digits",
        RuleProblem::UnknownAction => ": expected -, +, =, or *MODE",
        RuleProblem::EmptyOrNegated => ": invalid empty or negated pattern",
    }
}

fn stage_text(stage: Stage, subject: &[u8]) -> (r: Vec<u8>)
    ensures
        r@ == stage_message(stage, subject@),
{
    match stage {
        Stage::Transition => surround("transition ", subject, ": "),
        Stage::ReadManifest => surround("read manifest ", subject, ": "),
        Stage::ReadRoot => surround("read image root ", subject, ": "),
        Stage::StoreAdd => bytes::literal("run nix store add: "),
        Stage::RegisterRoot => bytes::literal("register activation GC root: "),
        Stage::DiffTool => surround("run diff tool ", subject, ": "),
    }
}

fn tool_text(tool: Tool) -> (r: &'static str)
    ensures
        r@ == tool_message(tool),
{
    match tool {
        Tool::StoreAdd => "nix store add failed: ",
        Tool::RegisterRoot => "nix-store failed to register activation GC root: ",
    }
}

impl Error {
    /// What is said of this failure.
    pub fn message(&self) -> (r: Vec<u8>)
        ensures
            r@ == message(self.seen()),
        decreases self,
    {
        match self {
            Error::Io(fault) => match fault.kind {
                FaultKind::Unexpected => bytes::literal("unexpected answer"),
                _ => bytes::copied(&fault.text),
            },
            Error::Refused(why, subject) => refusal_text(*why, subject),
            Error::Rule(line, problem) => {
                let number = bytes::number(*line);
                surround("rule ", &number, problem_text(*problem))
            },
            Error::Glob(line, problem) => {
                let number = bytes::number(*line);
                let start = surround("rule ", &number, ": ");
                bytes::joined(&start, problem)
            },
            Error::Matcher(problem) => bytes::copied(problem),
            Error::Overlap(name, root) => {
                let start = surround("image ", name, "");
                let end = surround(" is already mounted at overlapping root ", root, "");
                bytes::joined(&start, &end)
            },
            Error::Command(tool, output) => surround(tool_text(*tool), output, ""),
            Error::Within(stage, subject, cause) => {
                let start = stage_text(*stage, subject);
                let end = cause.message();
                bytes::joined(&start, &end)
            },
            Error::Unrecovered(first, second) => {
                let start = first.message();
                let end = second.message();
                let end = surround("; recovery failed: ", &end, "");
                bytes::joined(&start, &end)
            },
        }
    }
}

} // verus!
