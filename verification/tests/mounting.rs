use std::cell::RefCell;
use std::collections::BTreeMap;
use std::rc::Rc;

use tohru::command::{run, Arguments, Command, Manifest};
use tohru::error::{Error, Fault, FaultKind, Refusal, Stage, Tool};
use tohru::host::{Action, Host, Kind, Metadata, Reply};
use tohru::projection::{Image, Layer};
use tohru::session::Session;
use tohru::state::{Activation, Transaction};

#[derive(Clone, PartialEq, Debug)]
enum Object {
    Directory(u32),
    File(Vec<u8>, u32),
    Symlink(Vec<u8>),
    Pipe,
}

/// A file system, a store and an environment in memory.
#[derive(Default)]
struct World {
    objects: BTreeMap<Vec<u8>, Object>,
    variables: BTreeMap<String, String>,
    activations: Vec<Activation>,
    transactions: Vec<Transaction>,
    manifest: Vec<(String, String, Vec<(String, String, String)>)>,
    printed: Vec<String>,
    attached: Vec<Vec<String>>,
    changes: Vec<String>,
    counter: usize,
    lost: usize,
    broken: Option<String>,
    strange: bool,
    left: Option<usize>,
}

fn missing() -> Reply {
    Reply::Failed(Fault { kind: FaultKind::NotFound, text: b"no such file".to_vec() })
}

fn failed(text: &str) -> Reply {
    Reply::Failed(Fault { kind: FaultKind::Other, text: text.as_bytes().to_vec() })
}

fn text(bytes: &[u8]) -> String {
    String::from_utf8_lossy(bytes).into_owned()
}

impl World {
    /// The path without symbolic links before its last name, or at all.
    fn locate(&self, p: &[u8], follow: bool) -> Vec<u8> {
        let mut found: Vec<u8> = Vec::new();
        let names: Vec<&[u8]> = p.split(|b| *b == b'/').filter(|n| !n.is_empty() && *n != b".").collect();
        for (i, name) in names.iter().enumerate() {
            if *name == b".." {
                let cut = found.iter().rposition(|b| *b == b'/').unwrap_or(0);
                found.truncate(cut);
                continue;
            }
            let mut next = found.clone();
            next.push(b'/');
            next.extend_from_slice(name);
            if i + 1 < names.len() || follow {
                if let Some(Object::Symlink(target)) = self.objects.get(&next) {
                    next = if target.starts_with(b"/") {
                        self.locate(target, true)
                    } else {
                        let mut p = found.clone();
                        p.push(b'/');
                        p.extend_from_slice(target);
                        self.locate(&p, true)
                    };
                }
            }
            found = next;
        }
        found
    }

    fn get(&self, p: &[u8]) -> Option<&Object> {
        let key = self.locate(p, false);
        if key.is_empty() {
            return Some(&Object::Directory(0o755));
        }
        self.objects.get(&key)
    }

    fn parent_is_directory(&self, key: &[u8]) -> bool {
        let cut = key.iter().rposition(|b| *b == b'/').unwrap();
        cut == 0 || matches!(self.objects.get(&key[..cut]), Some(Object::Directory(_)))
    }

    fn below(&self, key: &[u8]) -> Vec<Vec<u8>> {
        let mut prefix = key.to_vec();
        prefix.push(b'/');
        self.objects.keys().filter(|k| k.starts_with(&prefix)).cloned().collect()
    }

    fn put(&mut self, p: &str, object: Object) {
        let key = self.locate(p.as_bytes(), false);
        assert!(self.parent_is_directory(&key), "{p}");
        self.objects.insert(key, object);
    }

    fn mkdir(&mut self, p: &str) {
        self.put(p, Object::Directory(0o755));
    }

    fn write(&mut self, p: &str, data: &str) {
        let mode = match self.get(p.as_bytes()) {
            Some(Object::File(_, mode)) => *mode,
            _ => 0o644,
        };
        self.put(p, Object::File(data.as_bytes().to_vec(), mode));
    }

    fn read(&self, p: &str) -> Option<String> {
        match self.objects.get(&self.locate(p.as_bytes(), true)) {
            Some(Object::File(data, _)) => Some(text(data)),
            _ => None,
        }
    }

    fn mode(&self, p: &str) -> u32 {
        match self.get(p.as_bytes()) {
            Some(Object::File(_, mode)) | Some(Object::Directory(mode)) => *mode,
            _ => panic!("no mode at {p}"),
        }
    }

    fn remove(&mut self, p: &str) {
        let key = self.locate(p.as_bytes(), false);
        self.remove_tree(&key);
    }

    fn remove_tree(&mut self, key: &[u8]) {
        for k in self.below(key) {
            self.objects.remove(&k);
        }
        self.objects.remove(key);
    }

    fn move_tree(&mut self, from: &[u8], to: &[u8]) {
        self.remove_tree(to);
        let mut moved = vec![from.to_vec()];
        moved.extend(self.below(from));
        for k in moved {
            let object = self.objects.remove(&k).unwrap();
            let mut target = to.to_vec();
            target.extend_from_slice(&k[from.len()..]);
            self.objects.insert(target, object);
        }
    }

    /// Copies a tree into the store; its name tells what is in it.
    fn add(&mut self, p: &[u8], name: &str) -> String {
        let key = self.locate(p, false);
        let mut digest: u64 = 5381;
        let mut copied = Vec::new();
        let mut keys = vec![key.clone()];
        keys.extend(self.below(&key));
        for k in keys {
            let object = match &self.objects[&k] {
                Object::File(data, mode) => {
                    Object::File(data.clone(), if mode & 0o100 != 0 { 0o555 } else { 0o444 })
                }
                Object::Directory(_) => Object::Directory(0o555),
                other => other.clone(),
            };
            for b in format!("{}{object:?}", text(&k[key.len()..])).bytes() {
                digest = digest.wrapping_mul(33) ^ u64::from(b);
            }
            copied.push((k[key.len()..].to_vec(), object));
        }
        let target = format!("/nix/store/{digest:016x}-{name}");
        for (rest, object) in copied {
            let mut k = target.clone().into_bytes();
            k.extend_from_slice(&rest);
            self.objects.insert(k, object);
        }
        target
    }

    fn execute(&mut self, words: Vec<String>) -> Reply {
        let output = |success: bool, stdout: String, stderr: &str| Reply::Output {
            success,
            stdout: stdout.into_bytes(),
            stderr: stderr.as_bytes().to_vec(),
        };
        let words: Vec<&str> = words.iter().map(|w| w.as_str()).collect();
        if let Some(broken) = &self.broken {
            if words[0] == broken {
                return failed("no such command");
            }
            if words.join(" ").contains(broken.as_str()) {
                return output(false, String::new(), "out of space\n");
            }
        }
        match words.as_slice() {
            ["nix", "store", "add", "--mode", mode, "--name", name, p] => {
                assert!(*mode == "nar" || *mode == "text");
                if self.strange {
                    return Reply::Output { success: true, stdout: vec![0xff], stderr: Vec::new() };
                }
                let path = self.add(p.as_bytes(), name);
                if self.lost > 0 {
                    self.lost -= 1;
                    self.remove(&path);
                }
                output(true, format!("{path}\n"), "")
            }
            ["nix-store", "--add-root", root, "--realise", object] => {
                if self.get(object.as_bytes()).is_none() {
                    return output(false, String::new(), "no such object\n");
                }
                self.put(root, Object::Symlink(object.as_bytes().to_vec()));
                output(true, String::new(), "")
            }
            other => panic!("{other:?}"),
        }
    }

    fn temporary(&mut self, dir: &[u8], object: Object) -> Reply {
        self.counter += 1;
        let path = format!("{}/.tmp{}", text(dir), self.counter);
        if !matches!(self.get(dir), Some(Object::Directory(_))) {
            return missing();
        }
        self.put(&path, object);
        Reply::Data(path.into_bytes())
    }

    fn answer(&mut self, action: Action) -> Reply {
        match action {
            Action::Stat(p) => match self.get(&p) {
                None => missing(),
                Some(Object::Directory(mode)) => Reply::Stats(Metadata { kind: Kind::Directory, mode: mode | 0o40000 }),
                Some(Object::File(_, mode)) => Reply::Stats(Metadata { kind: Kind::File, mode: mode | 0o100000 }),
                Some(Object::Symlink(_)) => Reply::Stats(Metadata { kind: Kind::Symlink, mode: 0o120777 }),
                Some(Object::Pipe) => Reply::Stats(Metadata { kind: Kind::Other, mode: 0o10644 }),
            },
            Action::ReadLink(p) => match self.get(&p) {
                Some(Object::Symlink(target)) => Reply::Data(target.clone()),
                Some(_) => failed("not a link"),
                None => missing(),
            },
            Action::ReadFile(p) | Action::ReadText(p) => match self.objects.get(&self.locate(&p, true)) {
                Some(Object::File(data, _)) => Reply::Data(data.clone()),
                Some(_) => failed("not a file"),
                None => missing(),
            },
            Action::ReadDir(p) => {
                let key = self.locate(&p, true);
                if !matches!(self.objects.get(&key), Some(Object::Directory(_))) {
                    return missing();
                }
                let names: Vec<Vec<u8>> = self
                    .below(&key)
                    .iter()
                    .map(|k| k[key.len() + 1..].to_vec())
                    .filter(|n| !n.contains(&b'/'))
                    .rev()
                    .collect();
                Reply::Names(names)
            }
            Action::Exists(p) => Reply::Flag(self.objects.contains_key(&self.locate(&p, true))),
            Action::Canonicalize(p) => Reply::Data(self.locate(&p, true)),
            Action::Variable(name) => {
                Reply::Value(self.variables.get(&text(&name)).map(|v| v.clone().into_bytes()))
            }
            Action::CreateDir(p) => {
                let key = self.locate(&p, false);
                if self.objects.contains_key(&key) {
                    return failed("exists");
                }
                if !self.parent_is_directory(&key) {
                    return missing();
                }
                self.objects.insert(key, Object::Directory(0o755));
                Reply::Done
            }
            Action::CreateDirs(p) => {
                let key = self.locate(&p, false);
                for (i, _) in key.iter().enumerate().filter(|(i, b)| *i > 0 && **b == b'/') {
                    self.objects.entry(key[..i].to_vec()).or_insert(Object::Directory(0o755));
                }
                self.objects.entry(key).or_insert(Object::Directory(0o755));
                Reply::Done
            }
            Action::RemoveFile(p) => {
                let key = self.locate(&p, false);
                match self.objects.get(&key) {
                    None => missing(),
                    Some(Object::Directory(_)) => failed("is a directory"),
                    Some(_) => {
                        self.objects.remove(&key);
                        Reply::Done
                    }
                }
            }
            Action::RemoveDir(p) => {
                let key = self.locate(&p, false);
                match self.objects.get(&key) {
                    None => missing(),
                    Some(Object::Directory(_)) if self.below(&key).is_empty() => {
                        self.objects.remove(&key);
                        Reply::Done
                    }
                    Some(Object::Directory(_)) => {
                        Reply::Failed(Fault { kind: FaultKind::NotEmpty, text: b"not empty".to_vec() })
                    }
                    Some(_) => failed("not a directory"),
                }
            }
            Action::RemoveTree(p) => {
                let key = self.locate(&p, false);
                if !self.objects.contains_key(&key) {
                    return missing();
                }
                self.remove_tree(&key);
                Reply::Done
            }
            Action::SetMode(p, mode) => {
                let key = self.locate(&p, true);
                match self.objects.get_mut(&key) {
                    Some(Object::Directory(m)) | Some(Object::File(_, m)) => {
                        *m = mode & 0o7777;
                        Reply::Done
                    }
                    Some(_) => failed("no mode"),
                    None => missing(),
                }
            }
            Action::Sync(p) => {
                if self.objects.contains_key(&self.locate(&p, true)) {
                    Reply::Done
                } else {
                    missing()
                }
            }
            Action::Symlink(target, p) => {
                let key = self.locate(&p, false);
                if self.objects.contains_key(&key) || !self.parent_is_directory(&key) {
                    return failed("cannot link");
                }
                self.objects.insert(key, Object::Symlink(target));
                Reply::Done
            }
            Action::Rename(from, to) | Action::Persist(from, to) => {
                let from = self.locate(&from, false);
                let to = self.locate(&to, false);
                let source = self.objects.get(&from).cloned();
                let target = self.objects.get(&to).cloned();
                match (source, target) {
                    (None, _) => missing(),
                    (Some(Object::Directory(_)), None) => {
                        self.move_tree(&from, &to);
                        Reply::Done
                    }
                    (Some(Object::Directory(_)), Some(Object::Directory(_))) if self.below(&to).is_empty() => {
                        self.move_tree(&from, &to);
                        Reply::Done
                    }
                    (Some(Object::Directory(_)), Some(_)) => failed("not a directory"),
                    (Some(_), Some(Object::Directory(_))) => failed("is a directory"),
                    _ => {
                        self.move_tree(&from, &to);
                        Reply::Done
                    }
                }
            }
            Action::CopyFile(from, to) => match self.objects.get(&self.locate(&from, true)).cloned() {
                Some(Object::File(data, mode)) => {
                    let key = self.locate(&to, true);
                    if !self.parent_is_directory(&key) {
                        return missing();
                    }
                    self.objects.insert(key, Object::File(data, mode));
                    Reply::Done
                }
                Some(_) => failed("not a file"),
                None => missing(),
            },
            Action::TempDir(p) => self.temporary(&p, Object::Directory(0o700)),
            Action::TempFile(p) => self.temporary(&p, Object::File(Vec::new(), 0o600)),
            Action::WriteFile(p, mut data) => {
                let key = self.locate(&p, false);
                match self.objects.get_mut(&key) {
                    Some(Object::File(found, _)) => {
                        found.append(&mut data);
                        Reply::Done
                    }
                    _ => failed("not a file"),
                }
            }
            Action::Discard(p) => {
                let key = self.locate(&p, false);
                self.remove_tree(&key);
                Reply::Done
            }
            Action::Lock(p) => {
                let p = text(&p);
                self.write(&p, "");
                Reply::Done
            }
            Action::Execute(words) => self.execute(words.iter().map(|w| text(w)).collect()),
            Action::Attach(words) => {
                let words: Vec<String> = words.iter().map(|w| text(w)).collect();
                if Some(&words[0]) == self.broken.as_ref() {
                    return missing();
                }
                self.attached.push(words);
                Reply::Done
            }
            Action::Print(line) => {
                self.printed.push(text(&line));
                Reply::Done
            }
            Action::EncodeActivation(a) => {
                self.activations.push(a);
                Reply::Data(format!("activation {}", self.activations.len() - 1).into_bytes())
            }
            Action::DecodeActivation(data) => match text(&data).strip_prefix("activation ") {
                Some(number) => {
                    let number: usize = number.parse().unwrap();
                    Reply::Activation(self.activations[number].duplicate())
                }
                None => failed("expected value at line 1 column 1"),
            },
            Action::EncodeTransaction(t) => {
                self.transactions.push(t);
                Reply::Data(format!("transaction {}", self.transactions.len() - 1).into_bytes())
            }
            Action::DecodeTransaction(data) => match text(&data).strip_prefix("transaction ") {
                Some(number) => {
                    let number: usize = number.parse().unwrap();
                    Reply::Transaction(match &self.transactions[number] {
                        Transaction::Mount { previous, next } => Transaction::Mount {
                            previous: previous.clone(),
                            next: next.clone(),
                        },
                        Transaction::Unmount { activation } => Transaction::Unmount {
                            activation: activation.clone(),
                        },
                    })
                }
                None => failed("expected value at line 1 column 1"),
            },
            Action::DecodeManifest(data) => {
                if data != b"manifest" {
                    return failed("expected value at line 1 column 1");
                }
                let images = self
                    .manifest
                    .iter()
                    .map(|(name, root, layers)| {
                        let layers = layers
                            .iter()
                            .map(|(source, target, rules)| Layer {
                                source: source.clone().into_bytes(),
                                target: target.clone().into_bytes(),
                                rules: rules.clone(),
                            })
                            .collect();
                        (name.clone(), Image { root: root.clone(), layers })
                    })
                    .collect();
                Reply::Manifest(Manifest { images })
            }
        }
    }
}

#[derive(Clone)]
struct Shared(Rc<RefCell<World>>);

impl Host for Shared {
    fn perform(&mut self, action: Action) -> Reply {
        let change = match &action {
            Action::Stat(_)
            | Action::ReadLink(_)
            | Action::ReadFile(_)
            | Action::ReadText(_)
            | Action::ReadDir(_)
            | Action::Exists(_)
            | Action::Canonicalize(_)
            | Action::Variable(_)
            | Action::Print(_)
            | Action::DecodeActivation(_)
            | Action::DecodeManifest(_)
            | Action::DecodeTransaction(_) => None,
            other => Some(format!("{other:?}")),
        };
        let mut world = self.0.borrow_mut();
        if let Some(change) = change {
            world.changes.push(change);
        }
        match world.left {
            Some(0) => return failed("interrupted"),
            Some(n) => world.left = Some(n - 1),
            None => {}
        }
        world.answer(action)
    }
}

impl Shared {
    fn new() -> Shared {
        let mut world = World::default();
        for p in ["/nix", "/nix/store", "/tmp", "/root", "/home", "/home/me"] {
            world.mkdir(p);
        }
        world.write("/tmp/images.json", "manifest");
        world.variables.insert(String::from("HOME"), String::from("/home/me"));
        Shared(Rc::new(RefCell::new(world)))
    }

    fn declare(&self, name: &str, root: &str, layers: Vec<(&str, &str, &str)>) {
        let layers = layers
            .into_iter()
            .map(|(a, b, c)| (String::from(a), String::from(b), String::from(c)))
            .collect();
        let mut world = self.0.borrow_mut();
        world.manifest.retain(|image| image.0 != name);
        world.manifest.push((String::from(name), String::from(root), layers));
        world.manifest.sort();
    }

    fn run(&self, command: Command) -> Result<(), Error> {
        self.0.borrow_mut().printed.clear();
        self.0.borrow_mut().changes.clear();
        let mut session = Session::new(self.clone());
        run(
            &mut session,
            Arguments {
                manifest: Some(b"/tmp/images.json".to_vec()),
                state: Some(b"/tmp/state".to_vec()),
                command,
            },
        )
    }

    fn mount(&self, image: &str) -> Result<(), Error> {
        self.run(Command::Mount { image: String::from(image) })
    }

    fn refresh(&self, image: &str) -> Result<(), Error> {
        self.run(Command::Refresh { image: String::from(image) })
    }

    fn unmount(&self, image: &str) -> Result<(), Error> {
        self.run(Command::Unmount { image: String::from(image) })
    }

    fn check(&self, image: &str, fix: bool) -> Result<(), Error> {
        self.run(Command::Check { image: String::from(image), fix, diff: false, diff_tool: None })
    }

    fn printed(&self) -> Vec<String> {
        self.0.borrow().printed.clone()
    }

    fn add_layer(&self, files: Vec<(&str, &str)>) -> String {
        let mut world = self.0.borrow_mut();
        world.mkdir("/tmp/layer");
        for (name, data) in files {
            let p = format!("/tmp/layer/{name}");
            if data == "DIR" {
                world.mkdir(&p);
            } else {
                world.write(&p, data);
            }
        }
        let path = world.add(b"/tmp/layer", "tohru-test");
        world.remove("/tmp/layer");
        path
    }

    /// One image with one linked, one copied and one nested file, mounted at `/root`.
    fn simple(&self) {
        let layer = self.add_layer(vec![("linked", "1"), ("copied", "2"), ("dir", "DIR"), ("dir/nested", "3")]);
        self.declare("test", "/root", vec![(&layer, ".", "+ copied\n*0600 copied")]);
    }
}

fn refusal(result: Result<(), Error>) -> (Refusal, String) {
    match result {
        Err(Error::Refused(why, subject)) => (why, text(&subject)),
        other => panic!("{other:?}"),
    }
}

#[test]
fn rejects_image_names_that_are_not_literal_path_components() {
    for name in ["../outside", "/outside", "image/"] {
        let host = Shared::new();
        let result = host.run(Command::Status { image: Some(String::from(name)) });
        assert!(result.is_err(), "accepted {name:?}");
        assert!(text(&result.err().unwrap().message()).contains("normal path component"));
        assert!(host.0.borrow().changes.is_empty());
    }
}

#[test]
fn mount_check_fix_and_unmount_a_layered_tree() {
    let host = Shared::new();
    {
        let mut world = host.0.borrow_mut();
        world.write("/root/linked", "original");
        world.mkdir("/root/copied");
        world.write("/root/copied/original", "original");
    }
    let first = host.add_layer(vec![("empty", "DIR"), ("linked", "first"), ("copied", "copy")]);
    let second = host.add_layer(vec![("linked", "second")]);
    host.declare(
        "test",
        "/root",
        vec![(&first, ".", "+ copied\n*0600 copied"), (&second, ".", "")],
    );

    host.mount("test").unwrap();
    let activation = host.0.borrow().read("/tmp/state/images/test/current").unwrap();
    let root = format!(
        "/tmp/state/images/test/gc-roots/{}",
        activation.trim_end().rsplit('/').next().unwrap()
    );
    {
        let world = host.0.borrow();
        let kept: Vec<String> = world
            .below(root.as_bytes())
            .iter()
            .map(|k| match &world.objects[k] {
                Object::Symlink(target) => text(target),
                other => panic!("{other:?}"),
            })
            .collect();
        assert!(kept.contains(&String::from(activation.trim_end())));
        assert!(kept.contains(&first) && kept.contains(&second));
        assert_eq!(world.read("/root/linked").unwrap(), "second");
        assert!(matches!(world.get(b"/root/copied"), Some(Object::File(_, 0o600))));
        assert_eq!(world.mode("/root/copied"), 0o600);
    }

    {
        let mut world = host.0.borrow_mut();
        world.write("/root/empty/user-file", "user");
        world.write("/root/copied", "changed");
    }
    assert!(host.check("test", false).is_err());
    host.check("test", true).unwrap();
    assert_eq!(host.0.borrow().read("/root/copied").unwrap(), "copy");

    {
        let mut world = host.0.borrow_mut();
        world.mkdir("/tmp/invalid");
        world.write("/tmp/invalid/linked", "invalid");
    }
    host.declare("test", "/root", vec![("/tmp/invalid", ".", "")]);
    assert!(host.refresh("test").is_err());
    assert_eq!(host.0.borrow().read("/root/linked").unwrap(), "second");
    assert!(host.0.borrow().get(b"/tmp/state/images/test/transaction").is_none());

    let refreshed = host.add_layer(vec![("linked", "refreshed")]);
    host.declare("test", "/root", vec![(&refreshed, ".", "")]);
    host.refresh("test").unwrap();
    assert!(host.printed()[0].starts_with("refreshed test at "));
    assert_eq!(host.0.borrow().read("/root/linked").unwrap(), "refreshed");

    host.unmount("test").unwrap();
    {
        let world = host.0.borrow();
        assert_eq!(world.read("/root/linked").unwrap(), "original");
        assert_eq!(world.read("/root/copied/original").unwrap(), "original");
        assert_eq!(world.read("/root/empty/user-file").unwrap(), "user");
    }
    assert!(host.refresh("test").is_err());

    host.mount("test").unwrap();
    let activation = host.0.borrow().read("/tmp/state/images/test/current").unwrap();
    let activation = activation.trim_end().as_bytes().to_vec();
    {
        let mut world = host.0.borrow_mut();
        world.transactions.push(Transaction::Mount {
            previous: Some(activation.clone()),
            next: Some(activation.clone()),
        });
        let form = format!("transaction {}", world.transactions.len() - 1);
        world.write("/tmp/state/images/test/transaction", &form);
        world.remove("/root/linked");
    }
    host.run(Command::List).unwrap();
    assert_eq!(host.0.borrow().read("/root/linked").unwrap(), "refreshed");

    {
        let mut world = host.0.borrow_mut();
        world.transactions.push(Transaction::Unmount { activation });
        let form = format!("transaction {}", world.transactions.len() - 1);
        world.write("/tmp/state/images/test/transaction", &form);
        world.remove("/root/linked");
    }
    host.run(Command::List).unwrap();
    let world = host.0.borrow();
    assert!(world.get(b"/tmp/state/images/test/current").is_none());
    assert_eq!(world.read("/root/linked").unwrap(), "original");
    assert_eq!(world.read("/root/copied/original").unwrap(), "original");
    assert_eq!(world.read("/root/empty/user-file").unwrap(), "user");
}

#[test]
fn mounting_and_unmounting_leaves_the_root_as_it_was() {
    let host = Shared::new();
    {
        let mut world = host.0.borrow_mut();
        world.put("/root/linked", Object::Symlink(b"elsewhere".to_vec()));
        world.put("/root/copied", Object::File(b"old".to_vec(), 0o751));
        world.put("/root/dir", Object::Directory(0o750));
        world.write("/root/dir/other", "unmanaged");
        world.write("/root/dir/nested", "old");
    }
    let before = host.0.borrow().objects.clone();
    let below = |objects: &BTreeMap<Vec<u8>, Object>| -> Vec<(Vec<u8>, Object)> {
        objects
            .iter()
            .filter(|(k, _)| k.starts_with(b"/root"))
            .map(|(k, o)| (k.clone(), o.clone()))
            .collect()
    };
    host.simple();
    host.mount("test").unwrap();
    assert_eq!(host.printed(), ["mounted test at /root"]);
    assert_ne!(below(&host.0.borrow().objects), below(&before));
    host.unmount("test").unwrap();
    assert_eq!(host.printed(), ["unmounted test"]);
    assert_eq!(below(&host.0.borrow().objects), below(&before));
}

#[test]
fn mounting_twice_changes_nothing_below_the_root() {
    let host = Shared::new();
    host.simple();
    host.mount("test").unwrap();
    let before = host.0.borrow().objects.clone();
    host.mount("test").unwrap();
    let after = host.0.borrow().objects.clone();
    for (k, object) in &before {
        if k.starts_with(b"/root") {
            assert_eq!(after.get(k), Some(object));
        }
    }
    host.check("test", false).unwrap();
    assert_eq!(host.printed(), ["test is intact"]);
}

#[test]
fn drifts_are_told_by_kind_and_path() {
    let host = Shared::new();
    host.simple();
    host.mount("test").unwrap();
    {
        let mut world = host.0.borrow_mut();
        world.put("/root/dir", Object::Directory(0o700));
        world.remove("/root/linked");
        world.put("/root/copied", Object::File(b"2".to_vec(), 0o644));
    }
    assert_eq!(refusal(host.check("test", false)), (Refusal::ImageChanged, String::from("test")));
    assert_eq!(
        host.printed(),
        ["modified\t/root/copied", "permissions\t/root/dir", "modified\t/root/linked"]
    );
    host.run(Command::Status { image: None }).unwrap();
    assert_eq!(host.printed(), ["changed\ttest\t/root"]);
    host.check("test", true).unwrap();
    assert_eq!(host.printed().last().unwrap(), "repaired test");
    host.run(Command::Status { image: Some(String::from("test")) }).unwrap();
    assert_eq!(host.printed(), ["mounted\ttest\t/root"]);

    host.0.borrow_mut().remove("/root/dir");
    assert!(host.check("test", false).is_err());
    assert_eq!(host.printed(), ["missing\t/root/dir"]);
    host.0.borrow_mut().write("/root/dir", "");
    assert!(host.check("test", false).is_err());
    assert_eq!(host.printed(), ["replaced\t/root/dir"]);
    host.check("test", true).unwrap();
    host.check("test", false).unwrap();
}

#[test]
fn looking_changes_nothing() {
    let host = Shared::new();
    host.simple();
    host.mount("test").unwrap();
    host.0.borrow_mut().remove("/root/linked");
    let root = |objects: &BTreeMap<Vec<u8>, Object>| -> Vec<Vec<u8>> {
        objects.keys().filter(|k| k.starts_with(b"/root")).cloned().collect()
    };
    let before = root(&host.0.borrow().objects);
    assert!(host.check("test", false).is_err());
    host.run(Command::Status { image: None }).unwrap();
    host.run(Command::List).unwrap();
    assert_eq!(host.printed(), ["mounted\ttest"]);
    assert_eq!(root(&host.0.borrow().objects), before);
}

#[test]
fn differences_are_shown_by_the_chosen_tool() {
    let host = Shared::new();
    host.simple();
    host.mount("test").unwrap();
    {
        let mut world = host.0.borrow_mut();
        world.write("/root/copied", "changed");
        world.remove("/root/linked");
    }
    let diff = |tool: Option<&str>| {
        host.0.borrow_mut().attached.clear();
        let result = host.run(Command::Check {
            image: String::from("test"),
            fix: false,
            diff: true,
            diff_tool: tool.map(|t| t.as_bytes().to_vec()),
        });
        (result, host.0.borrow().attached.clone())
    };
    let (_, attached) = diff(None);
    assert_eq!(attached.len(), 1);
    assert_eq!(attached[0][0], "diff");
    assert!(attached[0][1].ends_with("/copied") && attached[0][1].starts_with("/nix/store/"));
    assert_eq!(attached[0][2], "/root/copied");
    host.0.borrow_mut().variables.insert(String::from("TOHRU_DIFF_TOOL"), String::from("compare"));
    assert_eq!(diff(None).1[0][0], "compare");
    assert_eq!(diff(Some("given")).1[0][0], "given");
    host.0.borrow_mut().broken = Some(String::from("given"));
    match diff(Some("given")).0 {
        Err(Error::Within(Stage::DiffTool, tool, _)) => assert_eq!(tool, b"given"),
        other => panic!("{other:?}"),
    }
}

#[test]
fn a_changed_image_is_neither_unmounted_nor_refreshed() {
    let host = Shared::new();
    host.simple();
    host.mount("test").unwrap();
    host.0.borrow_mut().write("/root/copied", "changed");
    let before = host.0.borrow().objects.clone();
    assert_eq!(refusal(host.unmount("test")), (Refusal::Changed, String::from("/root/copied")));
    assert_eq!(refusal(host.mount("test")), (Refusal::Changed, String::from("/root/copied")));
    for (k, object) in &before {
        if k.starts_with(b"/root") {
            assert_eq!(host.0.borrow().objects.get(k), Some(object));
        }
    }
}

#[test]
fn overlapping_roots_are_refused() {
    let host = Shared::new();
    host.simple();
    host.mount("test").unwrap();
    host.0.borrow_mut().mkdir("/root/dir/below");
    let layer = host.add_layer(vec![("x", "1")]);
    host.declare("other", "/root/dir/below", vec![(&layer, ".", "")]);
    match host.mount("other") {
        Err(Error::Overlap(name, root)) => {
            assert_eq!((text(&name), text(&root)), (String::from("test"), String::from("/root")));
        }
        other => panic!("{other:?}"),
    }
    host.declare("other", "/home/me", vec![(&layer, ".", "")]);
    host.mount("other").unwrap();
    host.run(Command::List).unwrap();
    assert_eq!(host.printed(), ["mounted\tother", "mounted\ttest"]);
}

#[test]
fn roots_are_found_below_home() {
    let host = Shared::new();
    let layer = host.add_layer(vec![("x", "1")]);
    host.0.borrow_mut().mkdir("/home/me/sub");
    host.declare("test", "~/sub", vec![(&layer, "a/b", "")]);
    host.mount("test").unwrap();
    assert_eq!(host.printed(), ["mounted test at /home/me/sub"]);
    assert_eq!(host.0.borrow().read("/home/me/sub/a/b/x").unwrap(), "1");
    host.unmount("test").unwrap();
    assert!(host.0.borrow().get(b"/home/me/sub/a").is_none());
    host.declare("test", "~", vec![(&layer, ".", "")]);
    host.mount("test").unwrap();
    assert_eq!(host.0.borrow().read("/home/me/x").unwrap(), "1");

    host.declare("next", "relative", vec![]);
    assert_eq!(refusal(host.mount("next")), (Refusal::RootNotAbsolute, String::from("relative")));
    host.declare("next", "/tmp/images.json", vec![]);
    assert_eq!(
        refusal(host.mount("next")),
        (Refusal::RootNotDirectory, String::from("/tmp/images.json"))
    );
    host.declare("next", "/nowhere", vec![]);
    match host.mount("next") {
        Err(Error::Within(Stage::ReadRoot, p, _)) => assert_eq!(p, b"/nowhere"),
        other => panic!("{other:?}"),
    }
    host.0.borrow_mut().variables.clear();
    host.declare("next", "~", vec![]);
    assert_eq!(refusal(host.mount("next")).0, Refusal::NoHome);
}

#[test]
fn wrong_layers_are_refused() {
    let host = Shared::new();
    let layer = host.add_layer(vec![("x", "1")]);
    let mut attempt = |source: &str, target: &str, rules: &str| {
        host.declare("test", "/root", vec![(source, target, rules)]);
        host.mount("test")
    };
    assert_eq!(refusal(attempt("x", ".", "")).0, Refusal::SourceNotAbsolute);
    assert_eq!(refusal(attempt("/tmp/images.json", ".", "")).0, Refusal::SourceNotDirectory);
    for target in ["", "/x", "a/../b"] {
        assert_eq!(refusal(attempt(&layer, target, "")).0, Refusal::TargetNotRelative);
    }
    match attempt(&layer, ".", "x") {
        Err(Error::Rule(1, _)) => {}
        other => panic!("{other:?}"),
    }
    host.0.borrow_mut().mkdir("/tmp/odd");
    host.0.borrow_mut().put("/tmp/odd/pipe", Object::Pipe);
    assert_eq!(refusal(attempt("/tmp/odd", ".", "")), (Refusal::Unsupported, String::from("/tmp/odd/pipe")));
    attempt("/tmp/odd", ".", "- pipe").unwrap();
    host.0.borrow_mut().objects.insert(b"/tmp/odd/\xff".to_vec(), Object::Pipe);
    assert_eq!(refusal(attempt("/tmp/odd", ".", "- pipe")).0, Refusal::PathNotUtf8);
}

#[test]
fn what_cannot_be_backed_up_is_refused() {
    let host = Shared::new();
    host.simple();
    host.0.borrow_mut().put("/root/linked", Object::Pipe);
    assert_eq!(refusal(host.mount("test")), (Refusal::SpecialFile, String::from("/root/linked/")));
    assert_eq!(host.0.borrow().get(b"/root/linked"), Some(&Object::Pipe));
    assert!(host.0.borrow().get(b"/root/copied").is_none());
}

#[test]
fn unmanaged_entries_keep_a_backup_from_being_restored() {
    let host = Shared::new();
    host.simple();
    host.0.borrow_mut().write("/root/dir", "was a file");
    host.mount("test").unwrap();
    host.0.borrow_mut().write("/root/dir/mine", "user");
    assert_eq!(refusal(host.unmount("test")), (Refusal::Unmanaged, String::from("/root/dir")));
    host.0.borrow_mut().remove("/root/dir/mine");
    host.unmount("test").unwrap();
    assert_eq!(host.0.borrow().read("/root/dir").unwrap(), "was a file");
}

#[test]
fn commands_want_an_image_that_is_declared_and_mounted() {
    let host = Shared::new();
    host.simple();
    assert_eq!(refusal(host.mount("nothing")), (Refusal::UnknownImage, String::from("nothing")));
    assert_eq!(refusal(host.refresh("test")).0, Refusal::NotMounted);
    assert_eq!(refusal(host.unmount("test")).0, Refusal::NotMounted);
    assert_eq!(refusal(host.check("test", false)).0, Refusal::NotMounted);
    host.run(Command::Status { image: Some(String::from("test")) }).unwrap();
    assert_eq!(host.printed(), ["unmounted\ttest"]);
    host.run(Command::List).unwrap();
    assert_eq!(host.printed(), ["unmounted\ttest"]);
}

#[test]
fn the_manifest_must_be_given_and_readable() {
    let host = Shared::new();
    let attempt = |manifest: Option<&str>| {
        let mut session = Session::new(host.clone());
        run(
            &mut session,
            Arguments {
                manifest: manifest.map(|p| p.as_bytes().to_vec()),
                state: None,
                command: Command::List,
            },
        )
    };
    assert_eq!(refusal(attempt(None)).0, Refusal::NoManifest);
    match attempt(Some("/tmp/nowhere")) {
        Err(Error::Within(Stage::ReadManifest, p, _)) => assert_eq!(p, b"/tmp/nowhere"),
        other => panic!("{other:?}"),
    }
    host.declare("a/b", "/root", vec![]);
    assert_eq!(refusal(attempt(Some("/tmp/images.json"))), (Refusal::InvalidName, String::from("a/b")));
}

#[test]
fn state_is_found_through_the_environment() {
    let host = Shared::new();
    let attempt = || {
        let mut session = Session::new(host.clone());
        run(
            &mut session,
            Arguments {
                manifest: Some(b"/tmp/images.json".to_vec()),
                state: None,
                command: Command::List,
            },
        )
    };
    attempt().unwrap();
    assert!(host.0.borrow().get(b"/home/me/.local/state/tohru/lock").is_some());
    host.0.borrow_mut().variables.insert(String::from("XDG_STATE_HOME"), String::from("/home/x"));
    attempt().unwrap();
    assert!(host.0.borrow().get(b"/home/x/tohru/lock").is_some());
    host.0.borrow_mut().variables.clear();
    assert_eq!(refusal(attempt()).0, Refusal::NoStateHome);
}

#[test]
fn an_object_that_was_gone_is_added_again() {
    let host = Shared::new();
    host.simple();
    host.0.borrow_mut().lost = 2;
    host.mount("test").unwrap();
    host.check("test", false).unwrap();
}

#[test]
fn failures_of_the_store_are_told_and_undone() {
    let host = Shared::new();
    host.simple();
    host.0.borrow_mut().write("/root/linked", "old");
    host.0.borrow_mut().broken = Some(String::from("nix"));
    match host.mount("test") {
        Err(Error::Within(Stage::StoreAdd, _, _)) => {}
        other => panic!("{other:?}"),
    }
    host.0.borrow_mut().broken = Some(String::from("nix-store"));
    match host.mount("test") {
        Err(Error::Within(Stage::RegisterRoot, _, _)) => {}
        other => panic!("{other:?}"),
    }
    host.0.borrow_mut().broken = Some(String::from("--mode text"));
    match host.mount("test") {
        Err(Error::Command(Tool::StoreAdd, output)) => assert_eq!(output, b"out of space"),
        other => panic!("{other:?}"),
    }
    host.0.borrow_mut().broken = None;
    host.0.borrow_mut().strange = true;
    assert_eq!(refusal(host.mount("test")).0, Refusal::OutputNotUtf8);
    host.0.borrow_mut().strange = false;
    let world = host.0.borrow();
    assert_eq!(world.read("/root/linked").unwrap(), "old");
    assert!(world.get(b"/root/copied").is_none());
    assert!(world.get(b"/tmp/state/images/test/transaction").is_none());
    assert!(world.get(b"/tmp/state/images/test/preparing").is_none());
}

#[test]
fn a_failed_refresh_brings_the_previous_activation_back() {
    let host = Shared::new();
    host.simple();
    host.mount("test").unwrap();
    let layer = host.add_layer(vec![("linked", "new")]);
    host.declare("test", "/root", vec![(&layer, ".", "")]);
    host.0.borrow_mut().broken = Some(String::from("--mode text"));
    match host.refresh("test") {
        Err(Error::Command(Tool::StoreAdd, _)) => {}
        other => panic!("{other:?}"),
    }
    host.0.borrow_mut().broken = None;
    assert_eq!(host.0.borrow().read("/root/linked").unwrap(), "1");
    host.check("test", false).unwrap();
    host.refresh("test").unwrap();
    assert_eq!(host.0.borrow().read("/root/linked").unwrap(), "new");
    assert!(host.0.borrow().get(b"/root/copied").is_none());
}

#[test]
fn a_transaction_that_nothing_writes_is_refused() {
    let host = Shared::new();
    host.simple();
    host.mount("test").unwrap();
    {
        let mut world = host.0.borrow_mut();
        world.transactions.push(Transaction::Mount { previous: None, next: None });
        let form = format!("transaction {}", world.transactions.len() - 1);
        world.write("/tmp/state/images/test/transaction", &form);
    }
    assert_eq!(refusal(host.run(Command::List)).0, Refusal::Malformed);
    host.0.borrow_mut().write("/tmp/state/images/test/transaction", "garbage");
    match host.run(Command::List) {
        Err(Error::Io(fault)) => assert_eq!(fault.text, b"expected value at line 1 column 1"),
        other => panic!("{other:?}"),
    }
}

#[test]
fn a_state_whose_name_is_not_utf8_is_refused() {
    let host = Shared::new();
    host.simple();
    host.mount("test").unwrap();
    host.0
        .borrow_mut()
        .objects
        .insert(b"/tmp/state/images/\xff".to_vec(), Object::Directory(0o755));
    match host.run(Command::List) {
        Err(Error::Refused(Refusal::StateNotUtf8, name)) => assert_eq!(name, b"\xff"),
        other => panic!("{other:?}"),
    }
}

#[test]
fn old_roots_are_removed() {
    let host = Shared::new();
    host.simple();
    host.mount("test").unwrap();
    let first = host.0.borrow().read("/tmp/state/images/test/current").unwrap();
    let layer = host.add_layer(vec![("linked", "new")]);
    host.declare("test", "/root", vec![(&layer, ".", "")]);
    host.refresh("test").unwrap();
    let second = host.0.borrow().read("/tmp/state/images/test/current").unwrap();
    assert_ne!(first, second);
    let names: Vec<String> = {
        let world = host.0.borrow();
        world
            .below(b"/tmp/state/images/test/gc-roots")
            .iter()
            .map(|k| text(&k[b"/tmp/state/images/test/gc-roots/".len()..]))
            .filter(|n| !n.contains('/'))
            .collect()
    };
    assert_eq!(names, [second.trim_end().rsplit('/').next().unwrap()]);
    host.unmount("test").unwrap();
    assert!(host.0.borrow().below(b"/tmp/state/images/test/gc-roots").is_empty());
}

#[test]
fn the_journal_is_written_before_anything_changes_below_the_root() {
    let host = Shared::new();
    host.simple();
    let order = |host: &Shared| {
        let world = host.0.borrow();
        let journal = world
            .changes
            .iter()
            .position(|c| c.starts_with("Persist") && c.contains(&format!("{:?}", b"/tmp/state/images/test/transaction")));
        let change = world
            .changes
            .iter()
            .position(|c| !c.starts_with("Execute") && !c.starts_with("Encode") && c.contains(&format!("{:?}", b"/root").replace(']', "")));
        (journal, change)
    };
    host.mount("test").unwrap();
    let (journal, change) = order(&host);
    assert!(journal.unwrap() < change.unwrap());
    host.unmount("test").unwrap();
    let (journal, change) = order(&host);
    assert!(journal.unwrap() < change.unwrap());
}

/// A root with something at each of the managed paths of the simple image but one.
fn furnished() -> Shared {
    let host = Shared::new();
    {
        let mut world = host.0.borrow_mut();
        world.put("/root/linked", Object::Symlink(b"elsewhere".to_vec()));
        world.put("/root/copied", Object::Directory(0o750));
        world.write("/root/copied/old", "old");
        world.write("/root/other", "unmanaged");
    }
    host.simple();
    host
}

/// What stands below the root.
fn standing(host: &Shared) -> Vec<(Vec<u8>, Object)> {
    host.0
        .borrow()
        .objects
        .iter()
        .filter(|(k, _)| k.starts_with(b"/root"))
        .map(|(k, o)| (k.clone(), o.clone()))
        .collect()
}

/// Lets a command be interrupted after every number of requests that it makes; recovers, sweeps
/// away temporary objects that were left, and looks at what came of it.
fn interrupted_anywhere(
    prepare: impl Fn() -> Shared,
    command: impl Fn(&Shared) -> Result<(), Error>,
    look: impl Fn(&Shared, usize),
) {
    let mut n: usize = 0;
    loop {
        let host = prepare();
        host.0.borrow_mut().left = Some(n);
        let result = command(&host);
        let whole = host.0.borrow().left != Some(0);
        host.0.borrow_mut().left = None;
        host.run(Command::List).unwrap();
        assert!(host.0.borrow().get(b"/tmp/state/images/test/transaction").is_none());
        assert!(host.0.borrow().get(b"/tmp/state/images/test/preparing").is_none());
        host.0.borrow_mut().objects.retain(|k, _| !text(k).contains("/.tmp"));
        look(&host, n);
        if whole {
            result.unwrap();
            break;
        }
        n += 1;
    }
    assert!(n > 40, "{n}");
}

#[test]
fn a_mount_may_be_interrupted_at_any_time() {
    let before = standing(&furnished());
    interrupted_anywhere(furnished, |host| host.mount("test"), |host, n| {
        if host.0.borrow().get(b"/tmp/state/images/test/current").is_some() {
            host.check("test", false).unwrap();
            host.unmount("test").unwrap();
        }
        assert_eq!(standing(host), before, "{n}");
    });
}

#[test]
fn an_unmount_may_be_interrupted_at_any_time() {
    let before = standing(&furnished());
    let mounted = || {
        let host = furnished();
        host.mount("test").unwrap();
        host
    };
    interrupted_anywhere(mounted, |host| host.unmount("test"), |host, n| {
        if host.0.borrow().get(b"/tmp/state/images/test/current").is_some() {
            host.check("test", false).unwrap();
            host.unmount("test").unwrap();
        }
        assert_eq!(standing(host), before, "{n}");
    });
}

#[test]
fn a_refresh_may_be_interrupted_at_any_time() {
    let before = standing(&furnished());
    let mounted = || {
        let host = furnished();
        host.mount("test").unwrap();
        let layer = host.add_layer(vec![("linked", "new"), ("added", "more")]);
        host.declare("test", "/root", vec![(&layer, ".", "+ added")]);
        host
    };
    interrupted_anywhere(mounted, |host| host.refresh("test"), |host, n| {
        host.check("test", false).unwrap();
        let linked = host.0.borrow().read("/root/linked").unwrap();
        let added = host.0.borrow().read("/root/added");
        assert!(
            (linked == "1" && added.is_none()) || (linked == "new" && added == Some(String::from("more"))),
            "{n}"
        );
        host.unmount("test").unwrap();
        assert_eq!(standing(host), before, "{n}");
    });
}

#[test]
fn a_recovery_may_be_interrupted_at_any_time() {
    let half = || {
        let host = furnished();
        host.mount("test").unwrap();
        let activation = host.0.borrow().read("/tmp/state/images/test/current").unwrap();
        let activation = activation.trim_end().as_bytes().to_vec();
        let mut world = host.0.borrow_mut();
        world.transactions.push(Transaction::Unmount { activation });
        let form = format!("transaction {}", world.transactions.len() - 1);
        world.write("/tmp/state/images/test/transaction", &form);
        world.remove("/root/linked");
        drop(world);
        host
    };
    let before = standing(&furnished());
    interrupted_anywhere(half, |host| host.run(Command::List), |host, n| {
        assert!(host.0.borrow().get(b"/tmp/state/images/test/current").is_none());
        assert_eq!(standing(host), before, "{n}");
    });
}

#[test]
fn images_do_not_disturb_each_other() {
    let host = furnished();
    host.0.borrow_mut().mkdir("/home/me/a");
    let layer = host.add_layer(vec![("b", "c")]);
    host.declare("other", "~/a", vec![(&layer, ".", "")]);
    host.mount("test").unwrap();
    host.mount("other").unwrap();
    let mounted = standing(&host);
    let activation = host.0.borrow().read("/tmp/state/images/other/current").unwrap();
    {
        let mut world = host.0.borrow_mut();
        world.transactions.push(Transaction::Unmount {
            activation: activation.trim_end().as_bytes().to_vec(),
        });
        let form = format!("transaction {}", world.transactions.len() - 1);
        world.write("/tmp/state/images/other/transaction", &form);
    }
    host.run(Command::List).unwrap();
    assert_eq!(host.printed(), ["unmounted\tother", "mounted\ttest"]);
    assert_eq!(standing(&host), mounted);
    assert!(host.0.borrow().get(b"/home/me/a/b").is_none());
    host.check("test", false).unwrap();
}

/// An image that is mounted, with files of a user beside and inside the managed directory.
fn shared_with_a_user() -> Shared {
    let host = furnished();
    host.mount("test").unwrap();
    let mut world = host.0.borrow_mut();
    world.write("/root/mine", "one");
    world.write("/root/dir/mine", "two");
    world.mkdir("/root/dir/own");
    world.put("/root/dir/own/link", Object::Symlink(b"../nested".to_vec()));
    drop(world);
    host
}

fn assert_the_user_is_spared(host: &Shared, n: usize) {
    let world = host.0.borrow();
    assert_eq!(world.get(b"/root/other"), Some(&Object::File(b"unmanaged".to_vec(), 0o644)), "{n}");
    assert_eq!(world.get(b"/root/mine"), Some(&Object::File(b"one".to_vec(), 0o644)), "{n}");
    assert_eq!(world.get(b"/root/dir/mine"), Some(&Object::File(b"two".to_vec(), 0o644)), "{n}");
    assert_eq!(world.get(b"/root/dir/own"), Some(&Object::Directory(0o755)), "{n}");
    assert_eq!(world.get(b"/root/dir/own/link"), Some(&Object::Symlink(b"../nested".to_vec())), "{n}");
}

#[test]
fn an_interrupted_unmount_spares_what_is_not_managed() {
    interrupted_anywhere(shared_with_a_user, |host| host.unmount("test"), |host, n| {
        assert_the_user_is_spared(host, n);
        if host.0.borrow().get(b"/tmp/state/images/test/current").is_some() {
            host.unmount("test").unwrap();
        }
        assert_the_user_is_spared(host, n);
        assert!(host.0.borrow().get(b"/root/dir/nested").is_none());
    });
}

#[test]
fn an_interrupted_refresh_spares_what_is_not_managed() {
    let prepare = || {
        let host = shared_with_a_user();
        let layer = host.add_layer(vec![("linked", "new")]);
        host.declare("test", "/root", vec![(&layer, ".", "")]);
        host
    };
    interrupted_anywhere(prepare, |host| host.refresh("test"), |host, n| {
        assert_the_user_is_spared(host, n);
        host.unmount("test").unwrap();
        assert_the_user_is_spared(host, n);
    });
}

#[test]
fn a_repair_spares_what_is_not_managed() {
    let host = shared_with_a_user();
    host.0.borrow_mut().write("/root/copied", "changed");
    host.0.borrow_mut().remove("/root/dir/nested");
    host.0.borrow_mut().put("/root/dir", Object::Directory(0o500));
    host.check("test", true).unwrap();
    assert_the_user_is_spared(&host, 0);
    host.check("test", false).unwrap();
}

#[test]
fn a_repair_after_a_repair_changes_nothing() {
    let host = furnished();
    host.mount("test").unwrap();
    host.0.borrow_mut().write("/root/copied", "changed");
    host.check("test", true).unwrap();
    let before = standing(&host);
    host.check("test", true).unwrap();
    assert_eq!(host.printed(), ["test is intact"]);
    assert_eq!(standing(&host), before);
}

#[test]
fn lines_come_in_the_order_of_the_names() {
    let host = Shared::new();
    for name in ["b", "a", "B", "ab"] {
        host.declare(name, "/root", vec![]);
    }
    host.run(Command::List).unwrap();
    assert_eq!(host.printed(), ["unmounted\tB", "unmounted\ta", "unmounted\tab", "unmounted\tb"]);
    host.run(Command::Status { image: None }).unwrap();
    assert_eq!(host.printed(), ["unmounted\tB", "unmounted\ta", "unmounted\tab", "unmounted\tb"]);
}

#[test]
fn a_lost_activation_is_not_taken_for_none() {
    let host = Shared::new();
    host.simple();
    host.mount("test").unwrap();
    let activation = host.0.borrow().read("/tmp/state/images/test/current").unwrap();
    host.0.borrow_mut().remove(activation.trim_end());
    assert!(host.run(Command::Status { image: Some(String::from("test")) }).is_err());
}

/// Runs a command with the state where it is by default, below the home directory.
fn at_home(host: &Shared, command: Command) -> Result<(), Error> {
    host.0.borrow_mut().printed.clear();
    let mut session = Session::new(host.clone());
    run(
        &mut session,
        Arguments { manifest: Some(b"/tmp/images.json".to_vec()), state: None, command },
    )
}

fn mount_at_home(host: &Shared) -> Result<(), Error> {
    at_home(host, Command::Mount { image: String::from("test") })
}

fn unmount_at_home(host: &Shared) -> Result<(), Error> {
    at_home(host, Command::Unmount { image: String::from("test") })
}

/// A home directory with an image for it, one directory of which the state lies in.
fn homely() -> Shared {
    let host = Shared::new();
    let layer = host.add_layer(vec![
        (".profile", "new"),
        (".local", "DIR"),
        (".local/bin", "DIR"),
        (".local/bin/tool", "run"),
    ]);
    host.declare("test", "~", vec![(&layer, ".", "")]);
    let mut world = host.0.borrow_mut();
    world.write("/home/me/.profile", "old");
    world.write("/home/me/notes", "mine");
    drop(world);
    host
}

fn assert_home_is_as_it_was(host: &Shared, n: usize) {
    let world = host.0.borrow();
    assert_eq!(world.get(b"/home/me/.profile"), Some(&Object::File(b"old".to_vec(), 0o644)), "{n}");
    assert_eq!(world.get(b"/home/me/notes"), Some(&Object::File(b"mine".to_vec(), 0o644)), "{n}");
    assert_eq!(world.get(b"/home/me/.local/bin"), None, "{n}");
    assert_eq!(world.get(b"/home/me/.local/bin/tool"), None, "{n}");
}

#[test]
fn a_root_may_hold_the_state_of_its_image() {
    let host = homely();
    mount_at_home(&host).unwrap();
    assert_eq!(host.printed(), ["mounted test at /home/me"]);
    assert_eq!(host.0.borrow().read("/home/me/.profile").unwrap(), "new");
    assert_eq!(host.0.borrow().read("/home/me/.local/bin/tool").unwrap(), "run");
    assert!(host.0.borrow().get(b"/home/me/.local/state/tohru/images/test/current").is_some());
    at_home(&host, Command::List).unwrap();
    assert_eq!(host.printed(), ["mounted\ttest"]);
    at_home(&host, Command::Status { image: None }).unwrap();
    assert_eq!(host.printed(), ["mounted\ttest\t/home/me"]);
    host.0.borrow_mut().remove("/home/me/.local/bin/tool");
    at_home(&host, Command::Status { image: None }).unwrap();
    assert_eq!(host.printed(), ["changed\ttest\t/home/me"]);
    at_home(
        &host,
        Command::Check { image: String::from("test"), fix: true, diff: false, diff_tool: None },
    )
    .unwrap();
    assert!(host.0.borrow().get(b"/home/me/.local/state/tohru/images/test/current").is_some());
    at_home(&host, Command::Refresh { image: String::from("test") }).unwrap();
    unmount_at_home(&host).unwrap();
    assert_home_is_as_it_was(&host, 0);
    let world = host.0.borrow();
    assert!(matches!(world.get(b"/home/me/.local"), Some(Object::Directory(_))));
    assert!(world.get(b"/home/me/.local/state/tohru/images/test/gc-roots").is_some());
    assert!(world.get(b"/home/me/.local/state/tohru/images/test/current").is_none());
    drop(world);
    at_home(&host, Command::Status { image: None }).unwrap();
    assert_eq!(host.printed(), ["unmounted\ttest"]);
}

/// Lets a command be interrupted after every number of requests that it makes, and unmounts.
fn interrupted_at_home(
    prepare: impl Fn() -> Shared,
    command: impl Fn(&Shared) -> Result<(), Error>,
) {
    let mut n: usize = 0;
    loop {
        let host = prepare();
        host.0.borrow_mut().left = Some(n);
        let result = command(&host);
        let whole = host.0.borrow().left != Some(0);
        host.0.borrow_mut().left = None;
        at_home(&host, Command::List).unwrap();
        host.0.borrow_mut().objects.retain(|k, _| !text(k).contains("/.tmp"));
        if host.0.borrow().get(b"/home/me/.local/state/tohru/images/test/current").is_some() {
            assert_eq!(host.printed(), ["mounted\ttest"], "{n}");
            assert_eq!(host.0.borrow().read("/home/me/.profile").unwrap(), "new", "{n}");
            unmount_at_home(&host).unwrap();
        } else {
            assert_eq!(host.printed(), ["unmounted\ttest"], "{n}");
        }
        assert_home_is_as_it_was(&host, n);
        if whole {
            result.unwrap();
            break;
        }
        n += 1;
    }
    assert!(n > 40, "{n}");
}

#[test]
fn a_mount_above_the_state_may_be_interrupted_at_any_time() {
    interrupted_at_home(homely, mount_at_home);
}

#[test]
fn an_unmount_above_the_state_may_be_interrupted_at_any_time() {
    let mounted = || {
        let host = homely();
        mount_at_home(&host).unwrap();
        host
    };
    interrupted_at_home(mounted, unmount_at_home);
}

#[test]
fn a_state_of_another_image_below_the_root_is_left_alone() {
    let host = homely();
    let layer = host.add_layer(vec![("b", "c")]);
    host.declare("other", "/root", vec![(&layer, ".", "")]);
    at_home(&host, Command::Mount { image: String::from("other") }).unwrap();
    mount_at_home(&host).unwrap();
    at_home(&host, Command::Unmount { image: String::from("other") }).unwrap();
    at_home(&host, Command::Status { image: None }).unwrap();
    assert_eq!(host.printed(), ["unmounted\tother", "mounted\ttest\t/home/me"]);
    at_home(&host, Command::Mount { image: String::from("other") }).unwrap();
    unmount_at_home(&host).unwrap();
    assert_home_is_as_it_was(&host, 0);
    at_home(&host, Command::Status { image: None }).unwrap();
    assert_eq!(host.printed(), ["mounted\tother\t/root", "unmounted\ttest"]);
    assert_eq!(host.0.borrow().read("/root/b").unwrap(), "c");
}
