use tohru::error::{Error, Fault, FaultKind, Refusal, RuleProblem, Stage, Tool};

fn said(error: Error) -> String {
    String::from_utf8(error.message()).unwrap()
}

fn refused(why: Refusal, subject: &str) -> Error {
    Error::Refused(why, subject.as_bytes().to_vec())
}

fn io(text: &str) -> Error {
    Error::Io(Fault { kind: FaultKind::Other, text: text.as_bytes().to_vec() })
}

#[test]
fn every_refusal_has_its_message() {
    let cases = [
        (Refusal::SourceNotAbsolute, "layer source /x y is not absolute"),
        (Refusal::SourceNotDirectory, "layer source /x y is not a directory"),
        (Refusal::TargetNotRelative, "layer target /x y must be relative"),
        (Refusal::PathNotUtf8, "path is not UTF-8: /x y"),
        (Refusal::Unsupported, "unsupported filesystem object /x y"),
        (Refusal::SpecialFile, "cannot back up special file /x y"),
        (Refusal::Changed, "managed path /x y has changed"),
        (Refusal::ChangedInTransition, "managed path /x y changed during transition"),
        (Refusal::Unmanaged, "cannot restore over directory with unmanaged entries /x y"),
        (Refusal::EntryNotUtf8, "managed directory contains a non-UTF-8 entry"),
        (Refusal::NotInStore, "/x y is not in the Nix store: prefix not found"),
        (Refusal::NotStoreObject, "/x y does not identify a Nix store object"),
        (Refusal::NoActivationName, "activation has no store object name"),
        (Refusal::NotMounted, "image /x y is not mounted"),
        (Refusal::UnknownImage, "unknown image /x y"),
        (Refusal::InvalidName, "image name \"/x y\" must be a normal path component"),
        (Refusal::NoManifest, "this executable is not bound to a manifest"),
        (Refusal::NoHome, "HOME is not set"),
        (Refusal::NoStateHome, "HOME or XDG_STATE_HOME must be set"),
        (Refusal::RootNotAbsolute, "image root \"/x y\" must be ~, below ~, or absolute"),
        (Refusal::RootNotDirectory, "image root /x y is not a directory"),
        (Refusal::ImageChanged, "image /x y has changed"),
    ];
    for (why, text) in cases {
        assert_eq!(said(refused(why, "/x y")), text);
    }
}

#[test]
fn quoted_names_are_escaped() {
    assert_eq!(
        said(refused(Refusal::InvalidName, "a\n\"b\"/")),
        "image name \"a\\n\\\"b\\\"/\" must be a normal path component"
    );
}

#[test]
fn names_that_are_not_utf8_are_escaped_character_by_character() {
    let shown = |name: &[u8]| said(Error::Refused(Refusal::StateNotUtf8, name.to_vec()));
    assert_eq!(shown(b"\xff"), "image state name is not UTF-8: \"\\xFF\"");
    assert_eq!(
        shown(b"a\n\xc3\xa9\"\xe2\x82\x0a\xf0\x9f\x98\x80\x9f"),
        "image state name is not UTF-8: \"a\\n\u{e9}\\\"\\xE2\\x82\\n\u{1f600}\\x9F\""
    );
}

#[test]
fn output_that_is_not_utf8_is_told_by_its_place() {
    let error = Error::Refused(Refusal::OutputNotUtf8, vec![b'a', 0xff]);
    assert_eq!(said(error), "invalid utf-8 sequence of 1 bytes from index 1");
}

#[test]
fn rules_are_told_by_their_line() {
    assert_eq!(said(Error::Rule(3, RuleProblem::NoPattern)), "rule 3: permissions require a pattern");
    assert_eq!(
        said(Error::Rule(12, RuleProblem::BadPermissions)),
        "rule 12: permissions must contain four octal digits"
    );
    assert_eq!(said(Error::Rule(1, RuleProblem::UnknownAction)), "rule 1: expected -, +, =, or *MODE");
    assert_eq!(
        said(Error::Rule(1, RuleProblem::EmptyOrNegated)),
        "rule 1: invalid empty or negated pattern"
    );
    assert_eq!(said(Error::Glob(4, b"what".to_vec())), "rule 4: what");
    assert_eq!(said(Error::Matcher(b"what".to_vec())), "what");
}

#[test]
fn causes_follow_what_was_being_done() {
    let within = |stage: Stage| said(Error::Within(stage, b"/p".to_vec(), Box::new(io("denied"))));
    assert_eq!(within(Stage::Transition), "transition /p: denied");
    assert_eq!(within(Stage::ReadManifest), "read manifest /p: denied");
    assert_eq!(within(Stage::ReadRoot), "read image root /p: denied");
    assert_eq!(within(Stage::StoreAdd), "run nix store add: denied");
    assert_eq!(within(Stage::RegisterRoot), "register activation GC root: denied");
    assert_eq!(within(Stage::DiffTool), "run diff tool /p: denied");
    let nested = Error::Within(
        Stage::Transition,
        b"/a".to_vec(),
        Box::new(Error::Within(Stage::Transition, b"/a/b".to_vec(), Box::new(io("denied")))),
    );
    assert_eq!(said(nested), "transition /a: transition /a/b: denied");
}

#[test]
fn commands_overlaps_and_recoveries_have_their_messages() {
    assert_eq!(said(Error::Command(Tool::StoreAdd, b"no space".to_vec())), "nix store add failed: no space");
    assert_eq!(
        said(Error::Command(Tool::RegisterRoot, b"no space".to_vec())),
        "nix-store failed to register activation GC root: no space"
    );
    assert_eq!(
        said(Error::Overlap(b"other".to_vec(), b"/home".to_vec())),
        "image other is already mounted at overlapping root /home"
    );
    assert_eq!(
        said(Error::Unrecovered(Box::new(io("first")), Box::new(io("second")))),
        "first; recovery failed: second"
    );
    assert_eq!(
        said(Error::Io(Fault { kind: FaultKind::Unexpected, text: Vec::new() })),
        "unexpected answer"
    );
}
