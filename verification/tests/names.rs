use tohru::command::{validate_name, validate_names, Manifest};
use tohru::error::{Error, Refusal};
use tohru::projection::Image;

#[test]
fn image_names_are_single_literal_path_components() {
    assert!(validate_name("shell").is_ok());
    for name in ["", ".", "..", "shell/", "shell//", "shell/editor", "/shell"] {
        assert!(validate_name(name).is_err(), "accepted {name:?}");
    }
}

#[test]
fn names_that_only_look_like_dots_are_accepted() {
    for name in ["...", ".a", "a.", "a b", "\u{fc}ber"] {
        assert!(validate_name(name).is_ok(), "refused {name:?}");
    }
}

#[test]
fn the_first_wrong_name_of_a_manifest_is_refused() {
    let image = |name: &str| {
        (
            String::from(name),
            Image {
                root: String::from("/root"),
                layers: Vec::new(),
            },
        )
    };
    let manifest = Manifest {
        images: vec![image("good"), image("bad/one"), image("..")],
    };
    match validate_names(&manifest) {
        Err(Error::Refused(Refusal::InvalidName, name)) => assert_eq!(name, b"bad/one"),
        other => panic!("{other:?}"),
    }
    let manifest = Manifest {
        images: vec![image("good"), image("better")],
    };
    assert!(validate_names(&manifest).is_ok());
}
