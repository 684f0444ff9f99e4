//! That all that an activation refers to is kept.
use vstd::prelude::*;

use crate::bytes;
use crate::disk;
use crate::error::Trouble;
use crate::host::{Answer, Request};
use crate::path;
use crate::reason::World;
use crate::state;
use crate::state::{ActivationModel, StatePaths};
use crate::store;

verus! {

broadcast use crate::reason::group_reason;

/// A world that answers anything and notes which objects are kept.
pub struct Registry {
    pub kept: Set<Seq<u8>>,
}

/// Whether a command that made a root keep an object succeeded.
pub open spec fn kept_by(request: Request, x: Answer) -> Option<Seq<u8>> {
    match (request, x) {
        (Request::Execute(words), Answer::Output { success, .. }) => if success
            && disk::keeps_object(words) {
            Some(words[4])
        } else {
            None
        },
        _ => None,
    }
}

impl World for Registry {
    open spec fn leads(self, request: Request, x: Answer, next: Registry) -> bool {
        next.kept == match kept_by(request, x) {
            Some(object) => self.kept.insert(object),
            None => self.kept,
        }
    }
}

/// Whether an object that equals `p` is kept.
pub open spec fn keeps(v: Registry, p: Seq<u8>) -> bool {
    exists|object: Seq<u8>| #[trigger] v.kept.contains(object) && path::equal(object, p)
}

/// Whether an object that equals `p` is in a list.
pub open spec fn lists(list: Seq<Seq<u8>>, p: Seq<u8>) -> bool {
    exists|i: int| 0 <= i < list.len() && path::equal(#[trigger] list[i], p)
}

/// A path that is put into a list is there, with those that were there before.
proof fn lemma_with_path(list: Seq<Seq<u8>>, item: Seq<u8>, p: Seq<u8>)
    ensures
        lists(list, p) || path::equal(item, p) ==> lists(store::with_path(list, item), p),
    decreases list.len(),
{
    let result = store::with_path(list, item);
    if lists(list, p) || path::equal(item, p) {
        if list.len() == 0 {
            assert(path::equal(result[0], p));
        } else if path::equal(list[0], item) {
            if path::equal(item, p) {
                assert(path::equal(result[0], p));
            }
        } else if path::precedes(item, list[0]) {
            assert(result[0] == item);
            if lists(list, p) {
                let i = choose|i: int| 0 <= i < list.len() && path::equal(#[trigger] list[i], p);
                assert(result[i + 1] == list[i]);
            }
        } else {
            let later = list.skip(1);
            let rest = store::with_path(later, item);
            lemma_with_path(later, item, p);
            assert(result[0] == list[0]);
            if lists(list, p) {
                let i = choose|i: int| 0 <= i < list.len() && path::equal(#[trigger] list[i], p);
                if i > 0 {
                    assert(later[i - 1] == list[i]);
                }
            }
            if lists(rest, p) {
                let i = choose|i: int| 0 <= i < rest.len() && path::equal(#[trigger] rest[i], p);
                assert(result[i + 1] == rest[i]);
            }
        }
    }
}

/// Every path of a list is among those in their order.
pub proof fn lemma_ordered(list: Seq<Seq<u8>>, i: int)
    requires
        0 <= i < list.len(),
    ensures
        lists(store::ordered(list), list[i]),
    decreases list.len(),
{
    let before = list.drop_last();
    lemma_with_path(store::ordered(before), list.last(), list[i]);
    if i < list.len() - 1 {
        assert(before[i] == list[i]);
        lemma_ordered(before, i);
    }
}

/// That what was kept before is, and, if the operation succeeded, the objects are.
pub open spec fn all_kept(w: Registry, objects: Seq<Seq<u8>>) -> spec_fn(
    Registry,
    Result<(), Trouble>,
) -> bool {
    |v: Registry, r: Result<(), Trouble>|
        w.kept.subset_of(v.kept) && (r is Ok ==> forall|i: int|
            0 <= i < objects.len() ==> v.kept.contains(#[trigger] objects[i]))
}

proof fn lemma_keep_all(w: Registry, dir: Seq<u8>, objects: Seq<Seq<u8>>, number: nat)
    ensures
        store::keep_all_program(dir, objects, number).meets(w, all_kept(w, objects)),
    decreases objects.len(),
{
    if objects.len() > 0 {
        let root = path::join(dir, bytes::decimal(number));
        let words = store::keep_words(root, objects[0]);
        let later = objects.skip(1);
        let post = all_kept(w, objects);
        assert(words.len() == 5 && words[2] == root && words[4] == objects[0]);
        assert forall|v: Registry| #[trigger]
            v.kept == w.kept.insert(objects[0]) implies store::keep_all_program(
            dir,
            later,
            number + 1,
        ).meets(v, post) by {
            lemma_keep_all(v, dir, later, number + 1);
            assert forall|u: Registry, r: Result<(), Trouble>| #[trigger]
                all_kept(v, later)(u, r) implies post(u, r) by {
                assert forall|i: int| r is Ok && 0 <= i < objects.len() implies u.kept.contains(
                    #[trigger] objects[i],
                ) by {
                    if i > 0 {
                        assert(later[i - 1] == objects[i]);
                    } else {
                        assert(v.kept.contains(objects[0]));
                    }
                }
            }
        }
    }
}

/// New roots, if they are made, keep the record of an activation and all that it refers to.
pub proof fn law_rooted(
    w: Registry,
    paths: StatePaths<Seq<u8>>,
    activation: Seq<u8>,
    a: ActivationModel,
    root: Seq<u8>,
)
    ensures
        state::root_program(paths, activation, a, root).meets(
            w,
            |v: Registry, r: Result<(), Trouble>|
                r is Ok ==> (store::objects_of(state::references(activation, a)) matches Ok(
                    objects,
                ) && forall|i: int|
                    0 <= i < objects.len() ==> keeps(v, #[trigger] objects[i])),
        ),
{
    let found = store::objects_of(state::references(activation, a));
    let post = |v: Registry, r: Result<(), Trouble>|
        r is Ok ==> (found matches Ok(objects) && forall|i: int|
            0 <= i < objects.len() ==> keeps(v, #[trigger] objects[i]));
    if found is Ok {
        let objects = found->Ok_0;
        let list = store::ordered(objects);
        assert forall|u: Registry| #[trigger] u.kept == w.kept implies store::keep_all_program(
            root,
            list,
            0,
        ).meets(u, all_kept(u, list)) by {
            lemma_keep_all(u, root, list, 0);
        }
        assert forall|u: Registry, v: Registry, r: Result<(), Trouble>| #[trigger]
            all_kept(u, list)(v, r) && r is Ok implies post(v, Ok(())) by {
            assert forall|i: int| 0 <= i < objects.len() implies keeps(v, #[trigger] objects[i]) by {
                lemma_ordered(objects, i);
                let k = choose|k: int| 0 <= k < list.len() && path::equal(
                    #[trigger] list[k],
                    objects[i],
                );
                assert(v.kept.contains(list[k]));
            }
        }
    }
}

} // verus!
