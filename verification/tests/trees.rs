use tohru::tree::{wrap, Entry, Tree};

fn link(source: &str) -> Entry {
    Entry::Link { source: source.as_bytes().to_vec() }
}

fn dir(mode: u32, tree: Tree) -> Entry {
    Entry::Directory { mode, tree }
}

fn tree(entries: Vec<(&str, Entry)>) -> Tree {
    let mut tree = Tree::new();
    for (name, entry) in entries {
        tree.insert(name.as_bytes().to_vec(), entry);
    }
    tree
}

fn shown(tree: &Tree) -> String {
    let mut text = String::new();
    for (name, entry) in &tree.entries {
        let name = String::from_utf8(name.clone()).unwrap();
        match entry {
            Entry::Directory { mode, tree } => {
                text = format!("{text}{name}:{mode:o}{{{}}} ", shown(tree));
            }
            Entry::Link { source } => {
                text = format!("{text}{name}->{} ", String::from_utf8(source.clone()).unwrap());
            }
            other => text = format!("{text}{name}={other:?} "),
        }
    }
    text
}

#[test]
fn entries_stand_in_the_order_of_their_names() {
    let t = tree(vec![("b", link("1")), ("a", link("2")), ("B", link("3")), ("a.", link("4"))]);
    assert_eq!(shown(&t), "B->3 a->2 a.->4 b->1 ");
}

#[test]
fn an_entry_takes_the_place_of_one_with_its_name() {
    let t = tree(vec![("a", link("1")), ("b", link("2")), ("a", link("3"))]);
    assert_eq!(shown(&t), "a->3 b->2 ");
}

#[test]
fn later_layers_win_and_directories_become_one() {
    let mut first = tree(vec![
        ("linked", link("first")),
        ("etc", dir(0o755, tree(vec![("x", link("1")), ("y", link("1"))]))),
        ("gone", dir(0o700, tree(vec![("z", link("1"))]))),
    ]);
    first.merge(tree(vec![
        ("linked", link("second")),
        ("etc", dir(0o700, tree(vec![("y", link("2")), ("w", link("2"))]))),
        ("gone", link("2")),
    ]));
    assert_eq!(shown(&first), "etc:700{w->2 x->1 y->2 } gone->2 linked->second ");
}

#[test]
fn a_target_wraps_its_layer() {
    let t = wrap(tree(vec![("x", link("1"))]), b"./a//b");
    assert_eq!(shown(&t), "a:755{b:755{x->1 } } ");
    let t = wrap(tree(vec![("x", link("1"))]), b".");
    assert_eq!(shown(&t), "x->1 ");
}

#[test]
fn sources_are_the_store_paths_in_order() {
    let t = tree(vec![
        ("a", link("/nix/store/a/x")),
        ("b", dir(0o755, tree(vec![("c", Entry::Copy { source: b"/nix/store/b/y".to_vec(), mode: 0o644 })]))),
        ("d", Entry::Symlink { target: b"/nix/store/c".to_vec() }),
        ("e", Entry::Symlink { target: b"../elsewhere".to_vec() }),
        ("f", Entry::Snapshot { source: b"/nix/store/d".to_vec(), modes: Vec::new() }),
        ("g", Entry::Absent),
        ("h", Entry::Symlink { target: b"/nix/storeroom".to_vec() }),
    ]);
    let mut sources = vec![b"first".to_vec()];
    t.sources(&mut sources);
    assert_eq!(
        sources,
        [
            b"first".to_vec(),
            b"/nix/store/a/x".to_vec(),
            b"/nix/store/b/y".to_vec(),
            b"/nix/store/c".to_vec(),
            b"/nix/store/d".to_vec(),
        ]
    );
}
