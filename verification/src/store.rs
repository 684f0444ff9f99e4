//! The store, and the roots that keep its objects.
use vstd::prelude::*;

use crate::atomic;
use crate::bytes;
use crate::error;
use crate::error::{Error, Refusal, Stage, Tool, Trouble};
use crate::host::{Host, Metadata, Output};
use crate::path;
use crate::path::Component;
use crate::program;
use crate::program::Program;
use crate::session;
use crate::session::Session;
use crate::tree;

verus! {

broadcast use crate::program::group_program;

/// The object of the store that holds `p`.
pub open spec fn object_of(p: Seq<u8>) -> Result<Seq<u8>, Trouble> {
    let list = path::components(p);
    let depth = path::components(tree::store()).len() as int;
    if !path::within(p, tree::store()) {
        Err(Error::Refused(Refusal::NotInStore, p))
    } else if list.len() > depth {
        match list[depth] {
            Component::Normal(name) => Ok(path::join(tree::store(), name)),
            _ => Err(Error::Refused(Refusal::NotStoreObject, p)),
        }
    } else {
        Err(Error::Refused(Refusal::NotStoreObject, p))
    }
}

/// The objects that hold the paths, or the first failure.
pub open spec fn objects_of(list: Seq<Seq<u8>>) -> Result<Seq<Seq<u8>>, Trouble>
    decreases list.len(),
{
    if list.len() == 0 {
        Ok(Seq::empty())
    } else {
        match objects_of(list.drop_last()) {
            Ok(before) => match object_of(list.last()) {
                Ok(object) => Ok(before.push(object)),
                Err(e) => Err(e),
            },
            Err(e) => Err(e),
        }
    }
}

/// `list`, which is in the order of paths, with `item` in its place, unless it holds an equal
/// path already.
pub open spec fn with_path(list: Seq<Seq<u8>>, item: Seq<u8>) -> Seq<Seq<u8>>
    decreases list.len(),
{
    if list.len() == 0 {
        seq![item]
    } else if path::equal(list[0], item) {
        list
    } else if path::precedes(item, list[0]) {
        seq![item] + list
    } else {
        seq![list[0]] + with_path(list.skip(1), item)
    }
}

/// The paths of `list` in their order, of equal ones the first.
pub open spec fn ordered(list: Seq<Seq<u8>>) -> Seq<Seq<u8>>
    decreases list.len(),
{
    if list.len() == 0 {
        Seq::empty()
    } else {
        with_path(ordered(list.drop_last()), list.last())
    }
}

/// The words of the command that makes `root` keep `object`.
pub open spec fn keep_words(root: Seq<u8>, object: Seq<u8>) -> Seq<Seq<u8>> {
    seq![
        bytes::text("nix-store"@),
        bytes::text("--add-root"@),
        root,
        bytes::text("--realise"@),
        object,
    ]
}

/// The words of the command that adds what stands at `p` to the store.
pub open spec fn add_words(p: Seq<u8>, mode: Seq<u8>, name: Seq<u8>) -> Seq<Seq<u8>> {
    seq![
        bytes::text("nix"@),
        bytes::text("store"@),
        bytes::text("add"@),
        bytes::text("--mode"@),
        mode,
        bytes::text("--name"@),
        name,
        p,
    ]
}

/// What came of a command: its output, unless it could not be run or reported failure.
pub open spec fn judged(r: Result<Output<Seq<u8>>, Trouble>, stage: Stage, tool: Tool) -> Result<
    Seq<u8>,
    Trouble,
> {
    match r {
        Ok(output) => if output.success {
            Ok(output.stdout)
        } else {
            Err(Error::Command(tool, bytes::trimmed(output.stderr)))
        },
        Err(e) => Err(Error::Within(stage, Seq::empty(), Box::new(e))),
    }
}

/// Makes `root` keep `object`.
pub open spec fn keep_program(root: Seq<u8>, object: Seq<u8>) -> Program<Result<(), Trouble>> {
    session::execute(keep_words(root, object)).bind(
        |r: Result<Output<Seq<u8>>, Trouble>|
            match judged(r, Stage::RegisterRoot, Tool::RegisterRoot) {
                Ok(_) => program::give(()),
                Err(e) => program::fail(e),
            },
    )
}

/// The path that a command printed.
pub open spec fn printed_path(printed: Seq<u8>) -> Result<Seq<u8>, Trouble> {
    if vstd::utf8::valid_utf8(printed) {
        Ok(bytes::trimmed(printed))
    } else {
        Err(Error::Refused(Refusal::OutputNotUtf8, printed))
    }
}

/// Adds what stands at `p` to the store and makes `root` keep it, in at most `attempts` attempts;
/// another attempt is made where the object was gone before it was kept.
pub open spec fn add_program(
    p: Seq<u8>,
    mode: Seq<u8>,
    name: Seq<u8>,
    root: Seq<u8>,
    attempts: nat,
) -> Program<Result<Seq<u8>, Trouble>>
    decreases attempts,
{
    if attempts == 0 {
        program::fail(Error::Refused(Refusal::NotKept, p))
    } else {
        session::execute(add_words(p, mode, name)).bind(
            |r: Result<Output<Seq<u8>>, Trouble>|
                match judged(r, Stage::StoreAdd, Tool::StoreAdd) {
                    Err(e) => program::fail(e),
                    Ok(printed) => match printed_path(printed) {
                        Err(e) => program::fail(e),
                        Ok(object) => keep_program(root, object).bind(
                            |r: Result<(), Trouble>|
                                match r {
                                    Ok(u) => program::give(object),
                                    Err(e) => session::stat(object).bind(
                                        |m: Result<Metadata, Trouble>|
                                            if m matches Err(f) && error::missing(f) {
                                                atomic::remove_program(root).and_then(
                                                    |u: ()|
                                                        add_program(
                                                            p,
                                                            mode,
                                                            name,
                                                            root,
                                                            (attempts - 1) as nat,
                                                        ),
                                                )
                                            } else {
                                                program::fail(e)
                                            },
                                    ),
                                },
                        ),
                    },
                },
        )
    }
}

/// Makes the numbered roots in the directory `dir` keep the objects, the first with the number
/// `number`.
pub open spec fn keep_all_program(dir: Seq<u8>, objects: Seq<Seq<u8>>, number: nat) -> Program<
    Result<(), Trouble>,
>
    decreases objects.len(),
{
    if objects.len() == 0 {
        program::give(())
    } else {
        keep_program(path::join(dir, bytes::decimal(number)), objects[0]).and_then(
            |u: ()| keep_all_program(dir, objects.skip(1), number + 1),
        )
    }
}

/// The object of the store that holds `p`.
pub fn store_object_path(p: &[u8]) -> (r: Result<Vec<u8>, Error>)
    ensures
        error::result(r) == object_of(p@),
{
    let store = bytes::literal("/nix/store");
    if !path::starts_with(p, &store) {
        return Err(Error::Refused(Refusal::NotInStore, bytes::copied(p)));
    }
    let list = path::parts(p);
    let prefix = path::parts(&store);
    let depth: usize = prefix.len();
    proof {
        assert(prefix@.len() == path::components(tree::store()).len());
        assert(list@.len() == path::components(p@).len());
    }
    if list.len() > depth {
        assert(path::components(p@)[depth as int] == list@[depth as int]@);
        match &list[depth] {
            Component::Normal(name) => Ok(path::extend(&store, name)),
            _ => Err(Error::Refused(Refusal::NotStoreObject, bytes::copied(p))),
        }
    } else {
        Err(Error::Refused(Refusal::NotStoreObject, bytes::copied(p)))
    }
}

/// Once a path is in no object, later paths do not matter.
proof fn lemma_first_failure(list: Seq<Seq<u8>>, count: int)
    requires
        0 <= count <= list.len(),
        objects_of(list.take(count)) is Err,
    ensures
        objects_of(list) == objects_of(list.take(count)),
    decreases list.len(),
{
    if count < list.len() {
        assert(list.drop_last().take(count) =~= list.take(count));
        lemma_first_failure(list.drop_last(), count);
    } else {
        assert(list.take(count) =~= list);
    }
}

/// The objects that hold the paths, or the first failure.
pub fn store_objects(list: &Vec<Vec<u8>>) -> (r: Result<Vec<Vec<u8>>, Error>)
    ensures
        match r {
            Ok(objects) => objects_of(bytes::all(list@)) == Ok::<_, Trouble>(
                bytes::all(objects@),
            ),
            Err(e) => objects_of(bytes::all(list@)) == Err::<Seq<Seq<u8>>, _>(e.seen()),
        },
{
    let ghost all = bytes::all(list@);
    let mut r: Vec<Vec<u8>> = Vec::new();
    let mut i: usize = 0;
    assert(bytes::all(r@) =~= Seq::<Seq<u8>>::empty());
    while i < list.len()
        invariant
            all == bytes::all(list@),
            i <= list.len(),
            objects_of(all.take(i as int)) == Ok::<_, Trouble>(bytes::all(r@)),
        decreases list.len() - i,
    {
        let ghost before = bytes::all(r@);
        assert(all.take(i + 1).drop_last() =~= all.take(i as int));
        assert(all.take(i + 1).last() == list@[i as int]@);
        match store_object_path(&list[i]) {
            Ok(object) => {
                r.push(object);
                assert(bytes::all(r@) =~= before.push(object@));
            },
            Err(e) => {
                proof {
                    lemma_first_failure(all, i + 1);
                }
                return Err(e);
            },
        }
        i += 1;
    }
    assert(all.take(i as int) =~= all);
    Ok(r)
}

/// Puts `item` in its place in `list`, unless an equal path is there already.
fn add_path(list: &mut Vec<Vec<u8>>, item: &[u8])
    ensures
        bytes::all(final(list)@) == with_path(bytes::all(old(list)@), item@),
{
    let ghost before = bytes::all(list@);
    let mut i: usize = 0;
    assert(before.take(0) + with_path(before.skip(0), item@) =~= with_path(before, item@)) by {
        assert(before.skip(0) =~= before);
    }
    while i < list.len()
        invariant
            before == bytes::all(list@),
            list@ == old(list)@,
            i <= list.len(),
            before.take(i as int) + with_path(before.skip(i as int), item@) == with_path(
                before,
                item@,
            ),
        decreases list.len() - i,
    {
        let ghost rest = before.skip(i as int);
        assert(rest[0] == list@[i as int]@);
        if path::same(&list[i], item) {
            assert(before.take(i as int) + rest =~= before);
            return ;
        }
        if path::less(item, &list[i]) {
            list.insert(i, bytes::copied(item));
            assert(bytes::all(list@) =~= before.take(i as int) + (seq![item@] + rest));
            return ;
        }
        assert(rest.skip(1) =~= before.skip(i + 1));
        assert(before.take(i as int) + (seq![rest[0]] + with_path(rest.skip(1), item@))
            =~= before.take(i + 1) + with_path(before.skip(i + 1), item@));
        i += 1;
    }
    list.push(bytes::copied(item));
    assert(bytes::all(list@) =~= before.take(i as int) + seq![item@]);
}

/// The paths of `list` in their order, of equal ones the first.
pub fn order_paths(list: &Vec<Vec<u8>>) -> (r: Vec<Vec<u8>>)
    ensures
        bytes::all(r@) == ordered(bytes::all(list@)),
{
    let ghost all = bytes::all(list@);
    let mut r: Vec<Vec<u8>> = Vec::new();
    let mut i: usize = 0;
    assert(bytes::all(r@) =~= ordered(all.take(0)));
    while i < list.len()
        invariant
            all == bytes::all(list@),
            i <= list.len(),
            bytes::all(r@) == ordered(all.take(i as int)),
        decreases list.len() - i,
    {
        assert(all.take(i + 1).drop_last() =~= all.take(i as int));
        assert(all.take(i + 1).last() == list@[i as int]@);
        add_path(&mut r, &list[i]);
        i += 1;
    }
    assert(all.take(i as int) =~= all);
    r
}

/// What came of a command: its output, unless it could not be run or reported failure.
pub fn judge(r: Result<Output, Error>, stage: Stage, tool: Tool) -> (printed: Result<
    Vec<u8>,
    Error,
>)
    ensures
        error::result(printed) == judged(error::result(r), stage, tool),
{
    match r {
        Ok(output) => if output.success {
            Ok(output.stdout)
        } else {
            Err(Error::Command(tool, bytes::trim_end(&output.stderr)))
        },
        Err(e) => {
            let none: Vec<u8> = Vec::new();
            assert(none@ =~= Seq::<u8>::empty());
            Err(Error::Within(stage, none, Box::new(e)))
        },
    }
}

/// The path that a command printed.
pub fn read_path(printed: Vec<u8>) -> (r: Result<Vec<u8>, Error>)
    ensures
        error::result(r) == printed_path(printed@),
{
    if bytes::is_utf8(&printed) {
        Ok(bytes::trim_end(&printed))
    } else {
        Err(Error::Refused(Refusal::OutputNotUtf8, printed))
    }
}

/// Makes `root` keep `object`.
pub fn register_gc_root<H: Host>(s: &mut Session<H>, root: &[u8], object: &[u8]) -> (r: Result<
    (),
    Error,
>)
    ensures
        keep_program(root@, object@).ran(old(s)@, final(s)@, error::outcome(r)),
{
    let mut words: Vec<Vec<u8>> = Vec::new();
    words.push(bytes::literal("nix-store"));
    words.push(bytes::literal("--add-root"));
    words.push(bytes::copied(root));
    words.push(bytes::literal("--realise"));
    words.push(bytes::copied(object));
    assert(bytes::all(words@) =~= keep_words(root@, object@));
    let output = s.execute(words);
    judge(output, Stage::RegisterRoot, Tool::RegisterRoot)?;
    Ok(())
}

/// Adds what stands at `p` to the store and makes `root` keep it; another attempt is made where
/// the object was gone before it was kept, as often as a 64 bit number can count.
pub fn add_store_path<H: Host>(
    s: &mut Session<H>,
    p: &[u8],
    mode: &str,
    name: &str,
    root: &[u8],
) -> (r: Result<Vec<u8>, Error>)
    ensures
        add_program(
            p@,
            bytes::text(mode@),
            bytes::text(name@),
            root@,
            u64::MAX as nat,
        ).ran(old(s)@, final(s)@, error::result(r)),
{
    let ghost whole = add_program(
        p@,
        bytes::text(mode@),
        bytes::text(name@),
        root@,
        u64::MAX as nat,
    );
    let mut attempts: u64 = u64::MAX;
    while attempts > 0
        invariant
            whole == add_program(
                p@,
                bytes::text(mode@),
                bytes::text(name@),
                root@,
                u64::MAX as nat,
            ),
            program::extends(old(s)@, s@),
            whole.now(old(s)@, s@) == add_program(
                p@,
                bytes::text(mode@),
                bytes::text(name@),
                root@,
                attempts as nat,
            ),
        decreases attempts,
    {
        let mut words: Vec<Vec<u8>> = Vec::new();
        words.push(bytes::literal("nix"));
        words.push(bytes::literal("store"));
        words.push(bytes::literal("add"));
        words.push(bytes::literal("--mode"));
        words.push(bytes::literal(mode));
        words.push(bytes::literal("--name"));
        words.push(bytes::literal(name));
        words.push(bytes::copied(p));
        assert(bytes::all(words@) =~= add_words(p@, bytes::text(mode@), bytes::text(name@)));
        let output = s.execute(words);
        let printed = judge(output, Stage::StoreAdd, Tool::StoreAdd)?;
        let object = read_path(printed)?;
        match register_gc_root(s, root, &object) {
            Ok(()) => {
                return Ok(object);
            },
            Err(e) => {
                let gone: bool = match s.stat(object) {
                    Ok(_) => false,
                    Err(f) => f.is_missing(),
                };
                if !gone {
                    return Err(e);
                }
                atomic::remove(s, root)?;
            },
        }
        attempts -= 1;
    }
    Err(Error::Refused(Refusal::NotKept, bytes::copied(p)))
}

/// Makes the numbered roots in the directory `dir` keep the objects.
pub fn keep_all<H: Host>(s: &mut Session<H>, dir: &[u8], objects: &Vec<Vec<u8>>) -> (r: Result<
    (),
    Error,
>)
    ensures
        keep_all_program(dir@, bytes::all(objects@), 0).ran(
            old(s)@,
            final(s)@,
            error::outcome(r),
        ),
{
    let ghost list = bytes::all(objects@);
    let ghost whole = keep_all_program(dir@, list, 0);
    let mut i: usize = 0;
    assert(list.skip(0) =~= list);
    while i < objects.len()
        invariant
            list == bytes::all(objects@),
            whole == keep_all_program(dir@, list, 0),
            i <= objects.len(),
            program::extends(old(s)@, s@),
            whole.now(old(s)@, s@) == keep_all_program(dir@, list.skip(i as int), i as nat),
        decreases objects.len() - i,
    {
        assert(list.skip(i as int)[0] == objects@[i as int]@);
        assert(list.skip(i as int).skip(1) =~= list.skip(i + 1));
        let number = bytes::number(i);
        let root = path::extend(dir, &number);
        register_gc_root(s, &root, &objects[i])?;
        i += 1;
    }
    Ok(())
}

/// Whether paths come in their order, equal ones once.
pub open spec fn ascending(list: Seq<Seq<u8>>) -> bool {
    forall|i: int, j: int|
        0 <= i < j < list.len() ==> path::precedes(#[trigger] list[i], #[trigger] list[j])
}

proof fn lemma_with_path_ascending(list: Seq<Seq<u8>>, item: Seq<u8>)
    requires
        ascending(list),
    ensures
        ascending(with_path(list, item)),
        forall|i: int|
            0 <= i < with_path(list, item).len() ==> list.contains(
                #[trigger] with_path(list, item)[i],
            ) || with_path(list, item)[i] == item,
    decreases list.len(),
{
    let r = with_path(list, item);
    if list.len() == 0 {
    } else if path::equal(list[0], item) {
        assert forall|i: int| 0 <= i < r.len() implies list.contains(#[trigger] r[i]) by {}
    } else if path::precedes(item, list[0]) {
        assert forall|i: int, j: int| 0 <= i < j < r.len() implies path::precedes(
            #[trigger] r[i],
            #[trigger] r[j],
        ) by {
            assert(r[j] == list[j - 1]);
            if i > 0 {
                assert(r[i] == list[i - 1]);
            } else if j > 1 {
                path::law_order_transitive(item, list[0], list[j - 1]);
            }
        }
        assert forall|i: int| 0 <= i < r.len() implies list.contains(#[trigger] r[i]) || r[i]
            == item by {
            if i > 0 {
                assert(r[i] == list[i - 1]);
            }
        }
    } else {
        let later = list.skip(1);
        let rest = with_path(later, item);
        assert forall|i: int, j: int| 0 <= i < j < later.len() implies path::precedes(
            #[trigger] later[i],
            #[trigger] later[j],
        ) by {
            assert(later[i] == list[i + 1] && later[j] == list[j + 1]);
        }
        lemma_with_path_ascending(later, item);
        path::law_order_total(item, list[0]);
        assert forall|k: int| 0 <= k < rest.len() implies (list.contains(#[trigger] rest[k])
            || rest[k] == item) && path::precedes(list[0], rest[k]) by {
            if later.contains(rest[k]) {
                let m = choose|m: int| 0 <= m < later.len() && later[m] == rest[k];
                assert(list[m + 1] == rest[k]);
                assert(path::precedes(list[0], list[m + 1]));
            }
        }
        assert forall|i: int, j: int| 0 <= i < j < r.len() implies path::precedes(
            #[trigger] r[i],
            #[trigger] r[j],
        ) by {
            assert(r[j] == rest[j - 1]);
            if i > 0 {
                assert(r[i] == rest[i - 1]);
            }
        }
        assert forall|i: int| 0 <= i < r.len() implies list.contains(#[trigger] r[i]) || r[i]
            == item by {
            if i > 0 {
                assert(r[i] == rest[i - 1]);
            }
        }
    }
}

/// Objects are kept in their order, equal ones once, and none that were not asked for.
pub proof fn law_ordered(list: Seq<Seq<u8>>)
    ensures
        ascending(ordered(list)),
        forall|i: int|
            0 <= i < ordered(list).len() ==> list.contains(#[trigger] ordered(list)[i]),
    decreases list.len(),
{
    if list.len() > 0 {
        let before = list.drop_last();
        law_ordered(before);
        lemma_with_path_ascending(ordered(before), list.last());
        assert forall|i: int| 0 <= i < ordered(list).len() implies list.contains(
            #[trigger] ordered(list)[i],
        ) by {
            let x = ordered(list)[i];
            if ordered(before).contains(x) {
                let k = choose|k: int| 0 <= k < ordered(before).len() && ordered(before)[k] == x;
                assert(before.contains(ordered(before)[k]));
                let m = choose|m: int| 0 <= m < before.len() && before[m] == x;
                assert(list[m] == x);
            } else {
                assert(list[list.len() - 1] == x);
            }
        }
    }
}

} // verus!
