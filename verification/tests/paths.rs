use tohru::bytes;
use tohru::path;
use tohru::path::Component;
use tohru::state::StatePaths;
use tohru::store;
use tohru::error::{Error, Refusal};

fn names(p: &str) -> Vec<String> {
    path::parts(p.as_bytes())
        .into_iter()
        .map(|part| match part {
            Component::Root => String::from("/"),
            Component::Current => String::from("."),
            Component::Parent => String::from(".."),
            Component::Normal(name) => String::from_utf8(name).unwrap(),
        })
        .collect()
}

#[test]
fn paths_fall_into_components() {
    assert_eq!(names("/a//b/./c/"), ["/", "a", "b", "c"]);
    assert_eq!(names("./a"), [".", "a"]);
    assert_eq!(names("a/../b"), ["a", "..", "b"]);
    assert_eq!(names(""), Vec::<String>::new());
    assert_eq!(names("/"), ["/"]);
    assert_eq!(names("."), ["."]);
}

#[test]
fn the_components_are_those_of_the_standard_library() {
    for p in [
        "", "/", ".", "..", "a", "a/", "a//", "/a", "//a", "/a/b", "a/./b", "./a", "././a", "a/.", "/.", "/./a",
        "../a", "a/..", "...", ".a/b.", "/..", "a//b///c",
    ] {
        let expected: Vec<String> = std::path::Path::new(p)
            .components()
            .map(|part| String::from(part.as_os_str().to_str().unwrap()))
            .collect();
        assert_eq!(names(p), expected, "{p:?}");
        let parent = std::path::Path::new(p).parent().map(|q| String::from(q.to_str().unwrap()));
        let found = path::parent_of(p.as_bytes()).map(|q| String::from_utf8(q).unwrap());
        assert_eq!(found, parent, "{p:?}");
        let name = std::path::Path::new(p).file_name().map(|q| String::from(q.to_str().unwrap()));
        let found = path::name_of(p.as_bytes()).map(|q| String::from_utf8(q).unwrap());
        assert_eq!(found, name, "{p:?}");
        for q in ["", "/", "a", "/a", "./a", "../x", "b/c", "a/b"] {
            let left = std::path::Path::new(p);
            let right = std::path::Path::new(q);
            assert_eq!(path::same(p.as_bytes(), q.as_bytes()), left == right, "{p:?} {q:?}");
            assert_eq!(path::less(p.as_bytes(), q.as_bytes()), left < right, "{p:?} {q:?}");
            assert_eq!(
                path::starts_with(p.as_bytes(), q.as_bytes()),
                left.starts_with(right),
                "{p:?} {q:?}"
            );
            assert_eq!(
                path::extend(p.as_bytes(), q.as_bytes()),
                left.join(right).to_str().unwrap().as_bytes(),
                "{p:?} {q:?}"
            );
        }
    }
}

#[test]
fn white_space_at_the_end_is_cut_as_the_standard_library_does() {
    for text in [
        "", "a", "a \n", "a\u{a0}", "a\u{2003}\t ", "\u{3000}", "a\u{200b}", "a b", "\u{1680}x\u{2028}", "a\u{85}", "\u{1f}a\u{1f}",
    ] {
        assert_eq!(bytes::trim_end(text.as_bytes()), text.trim_end().as_bytes(), "{text:?}");
    }
}

#[test]
fn numbers_are_written_in_decimal() {
    assert_eq!(bytes::number(0), b"0");
    assert_eq!(bytes::number(1907), b"1907");
    assert_eq!(bytes::number(usize::MAX), usize::MAX.to_string().into_bytes());
}

#[test]
fn state_is_kept_below_the_name_of_the_image() {
    let paths = StatePaths::new(b"/state", "test");
    assert_eq!(paths.state_root, b"/state");
    assert_eq!(paths.directory, b"/state/images/test");
    assert_eq!(paths.current, b"/state/images/test/current");
    assert_eq!(paths.journal, b"/state/images/test/transaction");
    assert_eq!(paths.preparing, b"/state/images/test/preparing");
    assert_eq!(paths.gc_roots, b"/state/images/test/gc-roots");
}

#[test]
fn store_objects_are_the_first_names_below_the_store() {
    assert_eq!(store::store_object_path(b"/nix/store/abc-x").unwrap(), b"/nix/store/abc-x");
    assert_eq!(store::store_object_path(b"/nix/store/abc-x/y/z").unwrap(), b"/nix/store/abc-x");
    match store::store_object_path(b"/tmp/abc") {
        Err(Error::Refused(Refusal::NotInStore, p)) => assert_eq!(p, b"/tmp/abc"),
        other => panic!("{other:?}"),
    }
    match store::store_object_path(b"/nix/store") {
        Err(Error::Refused(Refusal::NotStoreObject, p)) => assert_eq!(p, b"/nix/store"),
        other => panic!("{other:?}"),
    }
    match store::store_object_path(b"/nix/store/../x") {
        Err(Error::Refused(Refusal::NotStoreObject, _)) => {}
        other => panic!("{other:?}"),
    }
}

#[test]
fn paths_are_put_in_order_once_each() {
    let list = vec![b"/b".to_vec(), b"/a/x".to_vec(), b"/b/".to_vec(), b"/a".to_vec(), b"/a.b".to_vec()];
    let mut expected: Vec<std::path::PathBuf> = list
        .iter()
        .map(|p| std::path::PathBuf::from(String::from_utf8(p.clone()).unwrap()))
        .collect();
    expected.sort();
    expected.dedup();
    let expected: Vec<Vec<u8>> = expected.iter().map(|p| p.to_str().unwrap().as_bytes().to_vec()).collect();
    assert_eq!(store::order_paths(&list), expected);
    assert_eq!(
        store::order_paths(&list),
        [b"/a".to_vec(), b"/a/x".to_vec(), b"/a.b".to_vec(), b"/b".to_vec()]
    );
}
