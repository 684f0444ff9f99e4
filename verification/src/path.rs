//! Paths as byte strings, read the way Unix paths are read: by their components.
use vstd::prelude::*;

use crate::bytes;
use crate::bytes::{DOT, SLASH};

verus! {

/// One component of a path.
pub enum Component<B = Vec<u8>> {
    Root,
    Current,
    Parent,
    Normal(B),
}

impl View for Component {
    type V = Component<Seq<u8>>;

    open spec fn view(&self) -> Component<Seq<u8>> {
        match self {
            Component::Root => Component::Root,
            Component::Current => Component::Current,
            Component::Parent => Component::Parent,
            Component::Normal(name) => Component::Normal(name@),
        }
    }
}

/// The components held by a vector.
pub open spec fn seen(list: Seq<Component>) -> Seq<Component<Seq<u8>>> {
    list.map_values(|item: Component| item@)
}

/// `p` cut at every slash; a path without a slash is one segment.
pub open spec fn segments(p: Seq<u8>) -> Seq<Seq<u8>>
    decreases p.len(),
{
    if p.len() == 0 {
        seq![Seq::<u8>::empty()]
    } else {
        let before = segments(p.drop_last());
        if p.last() == SLASH {
            before.push(Seq::<u8>::empty())
        } else {
            before.drop_last().push(before.last().push(p.last()))
        }
    }
}

/// Whether a segment is empty or a single dot, and so names nothing.
pub open spec fn is_void(segment: Seq<u8>) -> bool {
    segment.len() == 0 || segment == seq![DOT]
}

/// The components that segments stand for, void ones left out.
pub open spec fn named(list: Seq<Seq<u8>>) -> Seq<Component<Seq<u8>>>
    decreases list.len(),
{
    if list.len() == 0 {
        Seq::empty()
    } else {
        let before = named(list.drop_last());
        if is_void(list.last()) {
            before
        } else if list.last() == seq![DOT, DOT] {
            before.push(Component::Parent)
        } else {
            before.push(Component::Normal(list.last()))
        }
    }
}

/// Whether `p` begins at the root.
pub open spec fn absolute(p: Seq<u8>) -> bool {
    p.len() > 0 && p[0] == SLASH
}

/// What stands before the named components: the root, or a leading dot.
pub open spec fn lead(p: Seq<u8>) -> Seq<Component<Seq<u8>>> {
    if absolute(p) {
        seq![Component::Root]
    } else if segments(p)[0] == seq![DOT] {
        seq![Component::Current]
    } else {
        Seq::empty()
    }
}

/// The components of a path: repeated slashes, slashes at the end and dots other than a leading
/// one count for nothing.
pub open spec fn components(p: Seq<u8>) -> Seq<Component<Seq<u8>>> {
    lead(p) + named(segments(p))
}

/// Whether two paths have the same components.
pub open spec fn equal(a: Seq<u8>, b: Seq<u8>) -> bool {
    components(a) == components(b)
}

/// Whether the components of `base` begin those of `p`.
pub open spec fn within(p: Seq<u8>, base: Seq<u8>) -> bool {
    components(base).len() <= components(p).len() && components(p).take(
        components(base).len() as int,
    ) == components(base)
}

/// The place of a component's form in the order of components.
pub open spec fn rank<B>(c: Component<B>) -> int {
    match c {
        Component::Root => 0,
        Component::Current => 1,
        Component::Parent => 2,
        Component::Normal(_) => 3,
    }
}

/// Whether component `a` comes before component `b`.
pub open spec fn component_precedes(a: Component<Seq<u8>>, b: Component<Seq<u8>>) -> bool {
    match (a, b) {
        (Component::Normal(x), Component::Normal(y)) => bytes::precedes(x, y),
        _ => rank(a) < rank(b),
    }
}

/// Whether the list `a` comes before the list `b`, the earliest difference deciding.
pub open spec fn list_precedes(a: Seq<Component<Seq<u8>>>, b: Seq<Component<Seq<u8>>>) -> bool
    decreases a.len(),
{
    if b.len() == 0 {
        false
    } else if a.len() == 0 {
        true
    } else if a[0] != b[0] {
        component_precedes(a[0], b[0])
    } else {
        list_precedes(a.skip(1), b.skip(1))
    }
}

/// Whether path `a` comes before path `b`: component by component.
pub open spec fn precedes(a: Seq<u8>, b: Seq<u8>) -> bool {
    list_precedes(components(a), components(b))
}

/// `base` extended by `name`; an absolute `name` replaces `base`.
pub open spec fn join(base: Seq<u8>, name: Seq<u8>) -> Seq<u8> {
    if absolute(name) || base.len() == 0 {
        name
    } else if base.last() == SLASH {
        base + name
    } else {
        base.push(SLASH) + name
    }
}

/// Where the named components of `p` begin: behind the root or a leading dot.
pub open spec fn body_start(p: Seq<u8>) -> int {
    if absolute(p) {
        1
    } else if p == seq![DOT] || bytes::begins(p, seq![DOT, SLASH]) {
        1
    } else {
        0
    }
}

/// Where the last segment of `p` begins, looking back no further than `from`.
pub open spec fn last_start(p: Seq<u8>, from: int) -> int
    decreases p.len(),
{
    if p.len() == 0 || p.len() <= from || p.last() == SLASH {
        p.len() as int
    } else {
        last_start(p.drop_last(), from)
    }
}

/// `p` without its last segment and the slash before it.
pub open spec fn cut_last(p: Seq<u8>) -> Seq<u8> {
    let at = last_start(p, body_start(p));
    if at > body_start(p) {
        p.take(at - 1)
    } else {
        p.take(at)
    }
}

/// `p` without the void segments at its end.
pub open spec fn tidied(p: Seq<u8>) -> Seq<u8>
    decreases p.len(),
{
    let at = last_start(p, body_start(p));
    if p.len() > body_start(p) && is_void(p.skip(at)) && cut_last(p).len() < p.len() {
        tidied(cut_last(p))
    } else {
        p
    }
}

/// The path without its last component; none where there is nothing to take away.
pub open spec fn parent(p: Seq<u8>) -> Option<Seq<u8>> {
    let whole = tidied(p);
    if whole.len() > body_start(whole) {
        Some(tidied(cut_last(whole)))
    } else if whole.len() > 0 && !absolute(whole) {
        Some(Seq::empty())
    } else {
        None
    }
}

/// The last component, where it is a name.
pub open spec fn file_name(p: Seq<u8>) -> Option<Seq<u8>> {
    let list = components(p);
    if list.len() > 0 {
        match list.last() {
            Component::Normal(name) => Some(name),
            _ => None,
        }
    } else {
        None
    }
}

/// Whether `name` is one component of a path, written as itself.
pub open spec fn is_plain(name: Seq<u8>) -> bool {
    &&& name.len() > 0
    &&& !name.contains(SLASH)
    &&& name != seq![DOT]
    &&& name != seq![DOT, DOT]
}

/// Whether `name` is one component of a path, written as itself.
pub fn plain(name: &[u8]) -> (r: bool)
    ensures
        r == is_plain(name@),
{
    if name.len() == 0 {
        return false;
    }
    let mut i: usize = 0;
    while i < name.len()
        invariant
            i <= name.len(),
            forall|j: int| 0 <= j < i ==> name@[j] != SLASH,
        decreases name.len() - i,
    {
        if name[i] == SLASH {
            assert(name@[i as int] == SLASH);
            return false;
        }
        i += 1;
    }
    if name.len() == 1 && name[0] == DOT {
        assert(name@ =~= seq![DOT]);
        return false;
    }
    if name.len() == 2 && name[0] == DOT && name[1] == DOT {
        assert(name@ =~= seq![DOT, DOT]);
        return false;
    }
    true
}

/// Whether `p` begins at the root.
pub fn is_absolute(p: &[u8]) -> (r: bool)
    ensures
        r == absolute(p@),
{
    p.len() > 0 && p[0] == SLASH
}

/// `base` extended by `name`.
pub fn extend(base: &[u8], name: &[u8]) -> (r: Vec<u8>)
    ensures
        r@ == join(base@, name@),
        r@.len() <= usize::MAX,
{
    let r = if is_absolute(name) || base.len() == 0 {
        bytes::copied(name)
    } else if base[base.len() - 1] == SLASH {
        bytes::joined(base, name)
    } else {
        let mut start = bytes::copied(base);
        start.push(SLASH);
        bytes::joined(&start, name)
    };
    let _size: usize = r.len();
    r
}

/// Cuts `p` at every slash.
fn split(p: &[u8]) -> (r: Vec<Vec<u8>>)
    ensures
        bytes::all(r@) == segments(p@),
{
    let mut done: Vec<Vec<u8>> = Vec::new();
    let mut last: Vec<u8> = Vec::new();
    let mut i: usize = 0;
    assert(bytes::all(done@).push(last@) =~= segments(p@.take(0)));
    while i < p.len()
        invariant
            i <= p.len(),
            bytes::all(done@).push(last@) == segments(p@.take(i as int)),
        decreases p.len() - i,
    {
        let ghost before = bytes::all(done@).push(last@);
        assert(p@.take(i + 1).drop_last() =~= p@.take(i as int));
        if p[i] == SLASH {
            done.push(last);
            last = Vec::new();
            assert(bytes::all(done@).push(last@) =~= before.push(Seq::<u8>::empty()));
        } else {
            last.push(p[i]);
            assert(bytes::all(done@).push(last@) =~= before.drop_last().push(
                before.last().push(p@[i as int]),
            ));
        }
        i += 1;
    }
    assert(p@.take(p@.len() as int) =~= p@);
    done.push(last);
    assert(bytes::all(done@) =~= segments(p@));
    done
}

/// A path has at least one segment.
pub proof fn lemma_segments_some(p: Seq<u8>)
    ensures
        segments(p).len() > 0,
    decreases p.len(),
{
    if p.len() > 0 {
        lemma_segments_some(p.drop_last());
    }
}

/// The components of `p`.
pub fn parts(p: &[u8]) -> (r: Vec<Component>)
    ensures
        seen(r@) == components(p@),
{
    let list = split(p);
    let mut r: Vec<Component> = Vec::new();
    proof {
        lemma_segments_some(p@);
        assert(bytes::all(list@)[0] == list@[0]@);
    }
    let dot = is_dot(&list[0]);
    if is_absolute(p) {
        r.push(Component::Root);
    } else if dot {
        r.push(Component::Current);
    }
    assert(seen(r@) =~= lead(p@));
    let mut i: usize = 0;
    assert(bytes::all(list@).take(0) =~= Seq::<Seq<u8>>::empty());
    assert(seen(r@) =~= lead(p@) + named(bytes::all(list@).take(0)));
    while i < list.len()
        invariant
            i <= list.len(),
            seen(r@) == lead(p@) + named(bytes::all(list@).take(i as int)),
        decreases list.len() - i,
    {
        let ghost before = seen(r@);
        let ghost some = bytes::all(list@).take(i + 1);
        assert(some.drop_last() =~= bytes::all(list@).take(i as int));
        assert(some.last() == list@[i as int]@);
        let segment: &Vec<u8> = &list[i];
        if segment.len() == 0 || is_dot(segment) {
        } else if segment.len() == 2 && segment[0] == DOT && segment[1] == DOT {
            assert(segment@ =~= seq![DOT, DOT]);
            r.push(Component::Parent);
            assert(seen(r@) =~= before.push(Component::Parent));
            assert(seen(r@) =~= lead(p@) + named(some));
        } else {
            r.push(Component::Normal(bytes::copied(segment)));
            assert(seen(r@) =~= before.push(Component::Normal(segment@)));
            assert(seen(r@) =~= lead(p@) + named(some));
        }
        i += 1;
    }
    assert(bytes::all(list@).take(list@.len() as int) =~= segments(p@));
    r
}

/// Whether a segment is a single dot.
fn is_dot(segment: &[u8]) -> (r: bool)
    ensures
        r == (segment@ == seq![DOT]),
{
    let r = segment.len() == 1 && segment[0] == DOT;
    if r {
        assert(segment@ =~= seq![DOT]);
    }
    r
}

/// Whether two components are the same.
fn same_component(a: &Component, b: &Component) -> (r: bool)
    ensures
        r == (a@ == b@),
{
    match (a, b) {
        (Component::Root, Component::Root) => true,
        (Component::Current, Component::Current) => true,
        (Component::Parent, Component::Parent) => true,
        (Component::Normal(x), Component::Normal(y)) => bytes::same(x, y),
        _ => false,
    }
}

/// Whether component `a` comes before component `b`.
fn less_component(a: &Component, b: &Component) -> (r: bool)
    ensures
        r == component_precedes(a@, b@),
{
    match (a, b) {
        (Component::Normal(x), Component::Normal(y)) => bytes::less(x, y),
        _ => order(a) < order(b),
    }
}

/// The place of a component's form in the order of components.
fn order(a: &Component) -> (r: u8)
    ensures
        r == rank(a@),
{
    match a {
        Component::Root => 0,
        Component::Current => 1,
        Component::Parent => 2,
        Component::Normal(_) => 3,
    }
}

/// Whether two paths have the same components.
pub fn same(a: &[u8], b: &[u8]) -> (r: bool)
    ensures
        r == equal(a@, b@),
{
    let left = parts(a);
    let right = parts(b);
    proof {
        assert(left@.len() == components(a@).len());
        assert(right@.len() == components(b@).len());
    }
    if left.len() != right.len() {
        return false;
    }
    let r = begins_with(&left, &right);
    assert(components(a@).take(components(b@).len() as int) =~= components(a@));
    r
}

/// Whether the list `short` begins the list `long`.
fn begins_with(long: &Vec<Component>, short: &Vec<Component>) -> (r: bool)
    ensures
        r == (short@.len() <= long@.len() && seen(long@).take(short@.len() as int) == seen(short@)),
{
    if short.len() > long.len() {
        return false;
    }
    let mut i: usize = 0;
    while i < short.len()
        invariant
            i <= short.len() <= long.len(),
            forall|j: int| 0 <= j < i ==> #[trigger] long@[j]@ == short@[j]@,
        decreases short.len() - i,
    {
        if !same_component(&long[i], &short[i]) {
            assert(seen(long@).take(short@.len() as int)[i as int] == long@[i as int]@);
            assert(seen(short@)[i as int] == short@[i as int]@);
            return false;
        }
        i += 1;
    }
    assert(seen(long@).take(short@.len() as int) =~= seen(short@));
    true
}

/// Whether the components of `base` begin those of `p`.
pub fn starts_with(p: &[u8], base: &[u8]) -> (r: bool)
    ensures
        r == within(p@, base@),
{
    let long = parts(p);
    let short = parts(base);
    proof {
        assert(long@.len() == components(p@).len());
        assert(short@.len() == components(base@).len());
    }
    begins_with(&long, &short)
}

/// Whether path `a` comes before path `b`.
pub fn less(a: &[u8], b: &[u8]) -> (r: bool)
    ensures
        r == precedes(a@, b@),
{
    let left = parts(a);
    let right = parts(b);
    let ghost x = components(a@);
    let ghost y = components(b@);
    let mut i: usize = 0;
    assert(x.skip(0) =~= x);
    assert(y.skip(0) =~= y);
    while i < left.len() && i < right.len()
        invariant
            x == seen(left@),
            y == seen(right@),
            x == components(a@),
            y == components(b@),
            i <= left.len(),
            i <= right.len(),
            list_precedes(x, y) == list_precedes(x.skip(i as int), y.skip(i as int)),
        decreases left.len() - i,
    {
        assert(x.skip(i as int).skip(1) =~= x.skip(i + 1));
        assert(y.skip(i as int).skip(1) =~= y.skip(i + 1));
        assert(x.skip(i as int)[0] == left@[i as int]@);
        assert(y.skip(i as int)[0] == right@[i as int]@);
        if !same_component(&left[i], &right[i]) {
            return less_component(&left[i], &right[i]);
        }
        i += 1;
    }
    i < right.len()
}

/// Where the named components of `p` begin.
fn start_of_body(p: &[u8]) -> (r: usize)
    ensures
        r == body_start(p@),
        r <= p.len(),
{
    if is_absolute(p) {
        return 1;
    }
    if p.len() >= 1 && p[0] == DOT {
        if p.len() == 1 {
            assert(p@ =~= seq![DOT]);
            return 1;
        }
        if p[1] == SLASH {
            assert(p@.take(2) =~= seq![DOT, SLASH]);
            return 1;
        }
        assert(p@.take(2)[1] != seq![DOT, SLASH][1]);
    } else if p.len() >= 2 {
        assert(p@.take(2)[0] != seq![DOT, SLASH][0]);
    }
    0
}

proof fn lemma_last_start(p: Seq<u8>, from: int)
    requires
        0 <= from <= p.len(),
    ensures
        from <= last_start(p, from) <= p.len(),
    decreases p.len(),
{
    if !(p.len() <= from || p.last() == SLASH) {
        lemma_last_start(p.drop_last(), from);
    }
}

/// Where the last segment of `p` begins, looking back no further than `from`.
fn start_of_last(p: &[u8], from: usize) -> (r: usize)
    requires
        from <= p.len(),
    ensures
        r == last_start(p@, from as int),
        from <= r <= p.len(),
{
    let mut i: usize = p.len();
    assert(p@.take(i as int) =~= p@);
    while i > from && p[i - 1] != SLASH
        invariant
            from <= i <= p.len(),
            last_start(p@, from as int) == last_start(p@.take(i as int), from as int),
        decreases i,
    {
        assert(p@.take(i as int).drop_last() =~= p@.take(i - 1));
        i -= 1;
    }
    i
}

/// `p` without its last segment and the slash before it.
fn without_last(p: &[u8]) -> (r: Vec<u8>)
    ensures
        r@ == cut_last(p@),
{
    let from: usize = start_of_body(p);
    let at: usize = start_of_last(p, from);
    if at > from {
        bytes::front(p, at - 1)
    } else {
        bytes::front(p, at)
    }
}

/// `p` without the void segments at its end.
fn tidy(p: &[u8]) -> (r: Vec<u8>)
    ensures
        r@ == tidied(p@),
{
    let mut r = bytes::copied(p);
    loop
        invariant
            tidied(p@) == tidied(r@),
        ensures
            r@ == tidied(p@),
        decreases r@.len(),
    {
        let from: usize = start_of_body(&r);
        let at: usize = start_of_last(&r, from);
        let last = bytes::rest(&r, at);
        if !(r.len() > from && (last.len() == 0 || is_dot(&last))) {
            break;
        }
        let shorter = without_last(&r);
        if shorter.len() >= r.len() {
            break;
        }
        r = shorter;
    }
    r
}

/// The path without its last component.
pub fn parent_of(p: &[u8]) -> (r: Option<Vec<u8>>)
    ensures
        match r {
            Some(d) => parent(p@) == Some(d@),
            None => parent(p@) is None,
        },
{
    let whole = tidy(p);
    let from: usize = start_of_body(&whole);
    if whole.len() > from {
        let shorter = without_last(&whole);
        Some(tidy(&shorter))
    } else if whole.len() > 0 && !is_absolute(&whole) {
        let none: Vec<u8> = Vec::new();
        assert(none@ =~= Seq::empty());
        Some(none)
    } else {
        None
    }
}

/// The last component, where it is a name.
pub fn name_of(p: &[u8]) -> (r: Option<Vec<u8>>)
    ensures
        match r {
            Some(d) => file_name(p@) == Some(d@),
            None => file_name(p@) is None,
        },
{
    let mut list = parts(p);
    assert(list@.len() == components(p@).len());
    if list.len() == 0 {
        return None;
    }
    assert(components(p@).last() == list@.last()@);
    match list.pop() {
        Some(Component::Normal(name)) => Some(name),
        _ => None,
    }
}

/// Cutting two paths with a slash between them cuts each.
proof fn lemma_segments_concat(a: Seq<u8>, b: Seq<u8>)
    ensures
        segments(a.push(SLASH) + b) == segments(a) + segments(b),
    decreases b.len(),
{
    let whole = a.push(SLASH) + b;
    lemma_segments_some(b);
    if b.len() == 0 {
        assert(whole =~= a.push(SLASH));
        assert(whole.drop_last() =~= a);
        assert(segments(whole) =~= segments(a) + segments(b));
    } else {
        lemma_segments_some(b.drop_last());
        lemma_segments_concat(a, b.drop_last());
        assert(whole.drop_last() =~= a.push(SLASH) + b.drop_last());
        let before = segments(a) + segments(b.drop_last());
        assert(before.last() == segments(b.drop_last()).last());
        assert(segments(whole) =~= segments(a) + segments(b));
    }
}

proof fn lemma_named_concat(a: Seq<Seq<u8>>, b: Seq<Seq<u8>>)
    ensures
        named(a + b) == named(a) + named(b),
    decreases b.len(),
{
    if b.len() == 0 {
        assert(a + b =~= a);
        assert(named(a) + named(b) =~= named(a));
    } else {
        lemma_named_concat(a, b.drop_last());
        assert((a + b).drop_last() =~= a + b.drop_last());
        assert((a + b).last() == b.last());
        assert(named(a + b) =~= named(a) + named(b));
    }
}

/// Whether `rel` begins with a name or with `..`, or is empty.
pub open spec fn relative(rel: Seq<u8>) -> bool {
    lead(rel) == Seq::<Component<Seq<u8>>>::empty()
}

/// The components of a path extended by a relative one are the components of both.
pub proof fn lemma_join(base: Seq<u8>, rel: Seq<u8>)
    requires
        relative(rel),
    ensures
        components(join(base, rel)) == components(base) + components(rel),
        relative(base) ==> relative(join(base, rel)),
{
    lemma_segments_some(base);
    lemma_segments_some(rel);
    assert(!absolute(rel)) by {
        if absolute(rel) {
            assert(lead(rel).len() == 1);
        }
    }
    if base.len() == 0 {
        assert(segments(base)[0].len() == 0);
        assert(lead(base) =~= Seq::<Component<Seq<u8>>>::empty());
        assert(named(segments(base)) =~= Seq::<Component<Seq<u8>>>::empty()) by {
            assert(segments(base).drop_last() =~= Seq::<Seq<u8>>::empty());
            assert(named(segments(base).drop_last()) =~= Seq::<Component<Seq<u8>>>::empty());
        }
        assert(components(base) + components(rel) =~= components(rel));
    } else {
        let stem = if base.last() == SLASH {
            base.drop_last()
        } else {
            base
        };
        let whole = join(base, rel);
        lemma_segments_some(stem);
        assert(whole =~= stem.push(SLASH) + rel);
        lemma_segments_concat(stem, rel);
        lemma_named_concat(segments(stem), segments(rel));
        assert(segments(whole)[0] == segments(stem)[0]);
        assert(whole[0] == base[0]);
        if base.last() == SLASH {
            assert(segments(base) =~= segments(stem).push(Seq::<u8>::empty()));
            assert(segments(base).drop_last() =~= segments(stem));
            assert(segments(base)[0] == segments(stem)[0]);
        }
        assert(named(segments(base)) == named(segments(stem)));
        assert(lead(whole) == lead(base));
        assert(components(whole) =~= components(base) + components(rel));
    }
}

proof fn lemma_one_segment(name: Seq<u8>)
    requires
        !name.contains(SLASH),
    ensures
        segments(name) == seq![name],
    decreases name.len(),
{
    if name.len() > 0 {
        assert forall|b: u8| name.drop_last().contains(b) implies name.contains(b) by {
            let i = choose|i: int| 0 <= i < name.len() - 1 && name.drop_last()[i] == b;
            assert(name[i] == b);
        }
        lemma_one_segment(name.drop_last());
        assert(name.last() != SLASH) by {
            assert(name[name.len() - 1] == name.last());
        }
        assert(name.drop_last().push(name.last()) =~= name);
        assert(segments(name) =~= seq![name]);
    } else {
        assert(name =~= Seq::<u8>::empty());
    }
}

/// The name of an entry is a path of one component, and only such a path without a slash is.
pub proof fn lemma_plain(name: Seq<u8>)
    ensures
        is_plain(name) <==> !name.contains(SLASH) && components(name) == seq![
            Component::Normal(name),
        ],
        is_plain(name) ==> relative(name),
{
    if !name.contains(SLASH) {
        lemma_one_segment(name);
        assert(segments(name).drop_last() =~= Seq::<Seq<u8>>::empty());
        assert(named(segments(name).drop_last()) =~= Seq::<Component<Seq<u8>>>::empty());
        assert(!absolute(name)) by {
            if absolute(name) {
                assert(name.contains(name[0]));
            }
        }
        if is_plain(name) {
            assert(components(name) =~= seq![Component::Normal(name)]);
        } else if name.len() == 0 {
            assert(components(name) =~= Seq::<Component<Seq<u8>>>::empty());
            assert(components(name).len() == 0);
        } else if name == seq![DOT] {
            assert(components(name) =~= seq![Component::Current]);
            assert(components(name)[0] is Current);
        } else {
            assert(lead(name) =~= Seq::<Component<Seq<u8>>>::empty()) by {
                assert(name.len() == 2);
            }
            assert(components(name) =~= seq![Component::Parent]);
            assert(components(name)[0] is Parent);
        }
    }
}

/// An entry of a directory has the components of the directory and its name.
pub proof fn lemma_entry(dir: Seq<u8>, name: Seq<u8>)
    requires
        is_plain(name),
    ensures
        components(join(dir, name)) == components(dir).push(Component::Normal(name)),
{
    lemma_plain(name);
    lemma_join(dir, name);
    assert(components(dir) + seq![Component::Normal(name)] =~= components(dir).push(
        Component::Normal(name),
    ));
}

proof fn lemma_last_segment(p: Seq<u8>, name: Seq<u8>, from: int)
    requires
        !name.contains(SLASH),
        0 <= from <= p.len(),
        p.len() == 0 || p.len() == from || p.last() == SLASH,
    ensures
        last_start(p + name, from) == p.len(),
    decreases name.len(),
{
    if name.len() == 0 {
        assert(p + name =~= p);
    } else {
        let whole = p + name;
        assert(whole.last() == name[name.len() - 1]);
        assert(whole.last() != SLASH);
        assert(whole.drop_last() =~= p + name.drop_last());
        assert forall|b: u8| name.drop_last().contains(b) implies name.contains(b) by {
            let i = choose|i: int| 0 <= i < name.len() - 1 && name.drop_last()[i] == b;
            assert(name[i] == b);
        }
        lemma_last_segment(p, name.drop_last(), from);
    }
}

/// A path ends with its last segment, which holds no slash and stands behind one, or where the
/// named components begin.
proof fn lemma_split_last(p: Seq<u8>, from: int)
    requires
        0 <= from <= p.len(),
    ensures
        ({
            let at = last_start(p, from);
            &&& from <= at <= p.len()
            &&& !p.skip(at).contains(SLASH)
            &&& at == from || p[at - 1] == SLASH
        }),
    decreases p.len(),
{
    let at = last_start(p, from);
    if p.len() == 0 || p.len() <= from || p.last() == SLASH {
        assert(p.skip(at) =~= Seq::<u8>::empty());
    } else {
        lemma_split_last(p.drop_last(), from);
        let shorter = p.drop_last();
        assert forall|i: int| 0 <= i < p.skip(at).len() implies p.skip(at)[i] != SLASH by {
            if i < shorter.skip(at).len() {
                assert(shorter.skip(at).contains(shorter.skip(at)[i]));
            } else {
                assert(p.skip(at)[i] == p.last());
            }
        }
    }
}

/// Leaving out a void segment at the end of a path leaves its components.
proof fn lemma_cut_void(p: Seq<u8>)
    requires
        p.len() > body_start(p),
        is_void(p.skip(last_start(p, body_start(p)))),
    ensures
        components(cut_last(p)) == components(p),
{
    let from = body_start(p);
    let at = last_start(p, from);
    lemma_split_last(p, from);
    let last = p.skip(at);
    lemma_one_segment(last);
    lemma_segments_some(cut_last(p));
    if at > from {
        let stem = p.take(at - 1);
        assert(p =~= stem.push(SLASH) + last);
        lemma_segments_concat(stem, last);
        assert(segments(p) =~= segments(stem).push(last));
        assert(segments(p).drop_last() =~= segments(stem));
        assert(named(segments(p)) == named(segments(stem)));
        lemma_segments_some(stem);
        assert(segments(p)[0] == segments(stem)[0]);
        assert(absolute(stem) == absolute(p)) by {
            if absolute(p) {
                assert(from == 1);
                assert(stem.len() > 0);
            }
        }
        assert(lead(stem) == lead(p));
    } else if from == 1 {
        assert(at == 1);
        if absolute(p) {
            assert(p.take(1) =~= seq![SLASH]);
            assert(p =~= Seq::<u8>::empty().push(SLASH) + last);
            lemma_segments_concat(Seq::<u8>::empty(), last);
            assert(p.take(1) =~= Seq::<u8>::empty().push(SLASH) + Seq::<u8>::empty());
            lemma_segments_concat(Seq::<u8>::empty(), Seq::<u8>::empty());
            let none = seq![Seq::<u8>::empty()];
            lemma_named_concat(none, seq![last]);
            lemma_named_concat(none, none);
            assert(seq![last].drop_last() =~= Seq::<Seq<u8>>::empty());
            assert(none.drop_last() =~= Seq::<Seq<u8>>::empty());
        } else {
            assert(p.len() > 1);
            assert(p.take(2) =~= seq![DOT, SLASH]) by {
                assert(bytes::begins(p, seq![DOT, SLASH]));
            }
            assert(p[1] == SLASH);
            assert(last[0] == p[1]);
            assert(last.contains(SLASH));
        }
    } else {
        assert(from == 0 && at == 0);
        assert(last =~= p);
        if p == seq![DOT] {
            assert(body_start(p) == 1);
        }
    }
}

proof fn lemma_tidied(p: Seq<u8>)
    ensures
        components(tidied(p)) == components(p),
    decreases p.len(),
{
    let at = last_start(p, body_start(p));
    if p.len() > body_start(p) && is_void(p.skip(at)) && cut_last(p).len() < p.len() {
        lemma_cut_void(p);
        lemma_tidied(cut_last(p));
    }
}

/// The parent of an entry of a directory is that directory.
pub proof fn lemma_parent(dir: Seq<u8>, name: Seq<u8>)
    requires
        is_plain(name),
    ensures
        parent(join(dir, name)) matches Some(p) && equal(p, dir),
{
    let whole = join(dir, name);
    let head = whole.take(whole.len() - name.len());
    lemma_plain(name);
    assert(!absolute(name)) by {
        if absolute(name) {
            assert(name.contains(name[0]));
        }
    }
    assert(whole =~= head + name);
    let from = body_start(whole);
    assert(0 <= from <= head.len()) by {
        if from == 1 && head.len() == 0 {
            assert(whole =~= name);
            if bytes::begins(name, seq![DOT, SLASH]) {
                assert(name.take(2)[1] == SLASH);
                assert(name.contains(name[1]));
            }
        }
    }
    assert(head.len() == 0 || head.last() == SLASH);
    lemma_last_segment(head, name, from);
    assert(whole.skip(head.len() as int) =~= name);
    assert(tidied(whole) == whole);
    let stem = cut_last(whole);
    lemma_tidied(stem);
    lemma_segments_some(stem);
    if head.len() > from {
        assert(stem =~= head.drop_last());
        if dir.last() == SLASH {
            assert(dir =~= head);
            let none = Seq::<u8>::empty();
            assert(head =~= stem.push(SLASH) + none);
            lemma_segments_concat(stem, none);
            assert(segments(head) =~= segments(stem).push(none));
            assert(segments(head).drop_last() =~= segments(stem));
            assert(segments(head)[0] == segments(stem)[0]);
            assert(absolute(stem) == absolute(head)) by {
                if absolute(head) {
                    assert(whole[0] == head[0]);
                    assert(from == 1);
                }
            }
            assert(lead(head) == lead(stem));
        } else {
            assert(stem =~= dir);
        }
    } else {
        assert(stem =~= head);
        if head.len() == 0 {
            assert(dir.len() == 0);
            assert(stem =~= dir);
        } else {
            assert(from == 1 && head.len() == 1);
            assert(head[0] == SLASH);
            assert(dir =~= head);
        }
    }
}

proof fn lemma_segments_slashless(p: Seq<u8>)
    ensures
        forall|i: int| 0 <= i < segments(p).len() ==> !(#[trigger] segments(p)[i]).contains(SLASH),
    decreases p.len(),
{
    if p.len() == 0 {
    } else {
        let before = segments(p.drop_last());
        lemma_segments_some(p.drop_last());
        lemma_segments_slashless(p.drop_last());
        assert forall|i: int| 0 <= i < segments(p).len() implies !(#[trigger] segments(
            p,
        )[i]).contains(SLASH) by {
            if p.last() == SLASH {
                if i < before.len() {
                    assert(segments(p)[i] == before[i]);
                }
            } else if i < before.len() - 1 {
                assert(segments(p)[i] == before[i]);
            } else {
                let last = before.last().push(p.last());
                assert(segments(p)[i] == last);
                assert(!before[before.len() - 1].contains(SLASH));
                if last.contains(SLASH) {
                    let k = choose|k: int| 0 <= k < last.len() && last[k] == SLASH;
                    assert(before.last()[k] == SLASH);
                    assert(before.last().contains(SLASH));
                }
            }
        }
    }
}

proof fn lemma_named_plain(list: Seq<Seq<u8>>)
    requires
        forall|i: int| 0 <= i < list.len() ==> !(#[trigger] list[i]).contains(SLASH),
    ensures
        forall|i: int|
            0 <= i < named(list).len() ==> ((#[trigger] named(list)[i]) matches Component::Normal(
                name,
            ) ==> is_plain(name)),
    decreases list.len(),
{
    if list.len() > 0 {
        let before = list.drop_last();
        assert forall|i: int| 0 <= i < before.len() implies !(#[trigger] before[i]).contains(
            SLASH,
        ) by {
            assert(before[i] == list[i]);
        }
        lemma_named_plain(before);
        assert(!list[list.len() - 1].contains(SLASH));
        assert forall|i: int|
            0 <= i < named(list).len() implies ((#[trigger] named(list)[i]) matches Component::Normal(
            name,
        ) ==> is_plain(name)) by {
            if i < named(before).len() {
                assert(named(list)[i] == named(before)[i]);
            }
        }
    }
}

/// The names in a path are names of entries.
pub proof fn lemma_components_plain(p: Seq<u8>)
    ensures
        forall|i: int|
            0 <= i < components(p).len() ==> ((#[trigger] components(p)[i]) matches Component::Normal(
                name,
            ) ==> is_plain(name)),
{
    lemma_segments_slashless(p);
    lemma_named_plain(segments(p));
    let n = lead(p).len();
    assert forall|i: int|
        0 <= i < components(p).len() implies ((#[trigger] components(p)[i]) matches Component::Normal(
        name,
    ) ==> is_plain(name)) by {
        if i >= n {
            assert(components(p)[i] == named(segments(p))[i - n]);
        }
    }
}

/// The last name of a path is the name of an entry.
pub proof fn lemma_last_plain(p: Seq<u8>)
    ensures
        file_name(p) matches Some(name) ==> is_plain(name),
{
    lemma_components_plain(p);
    if components(p).len() > 0 {
        assert(components(p)[components(p).len() - 1] == components(p).last());
    }
}

/// The order of components is total.
proof fn lemma_component_total(a: Component<Seq<u8>>, b: Component<Seq<u8>>)
    ensures
        !component_precedes(a, a),
        a != b ==> component_precedes(a, b) || component_precedes(b, a),
        !(component_precedes(a, b) && component_precedes(b, a)),
{
    match (a, b) {
        (Component::Normal(x), Component::Normal(y)) => {
            bytes::lemma_precedes_total(x, y);
        },
        (Component::Normal(x), _) => {
            bytes::lemma_precedes_total(x, x);
        },
        _ => {},
    }
}

proof fn lemma_component_transitive(
    a: Component<Seq<u8>>,
    b: Component<Seq<u8>>,
    c: Component<Seq<u8>>,
)
    requires
        component_precedes(a, b),
        component_precedes(b, c),
    ensures
        component_precedes(a, c),
{
    match (a, b, c) {
        (Component::Normal(x), Component::Normal(y), Component::Normal(z)) => {
            bytes::lemma_precedes_transitive(x, y, z);
        },
        _ => {},
    }
}

proof fn lemma_list_total(a: Seq<Component<Seq<u8>>>, b: Seq<Component<Seq<u8>>>)
    ensures
        !list_precedes(a, a),
        a != b ==> list_precedes(a, b) || list_precedes(b, a),
        !(list_precedes(a, b) && list_precedes(b, a)),
    decreases a.len(),
{
    if a.len() > 0 {
        lemma_list_total(a.skip(1), a.skip(1));
        if b.len() > 0 {
            lemma_component_total(a[0], b[0]);
            lemma_list_total(a.skip(1), b.skip(1));
            if a[0] == b[0] && a.skip(1) == b.skip(1) {
                assert(a =~= seq![a[0]] + a.skip(1));
                assert(b =~= seq![b[0]] + b.skip(1));
            }
        }
    } else if b.len() == 0 {
        assert(a =~= b);
    }
}

proof fn lemma_list_transitive(
    a: Seq<Component<Seq<u8>>>,
    b: Seq<Component<Seq<u8>>>,
    c: Seq<Component<Seq<u8>>>,
)
    requires
        list_precedes(a, b),
        list_precedes(b, c),
    ensures
        list_precedes(a, c),
    decreases a.len(),
{
    if a.len() > 0 && b.len() > 0 && c.len() > 0 {
        if a[0] == b[0] && b[0] == c[0] {
            lemma_list_transitive(a.skip(1), b.skip(1), c.skip(1));
        } else if a[0] != b[0] && b[0] != c[0] {
            lemma_component_transitive(a[0], b[0], c[0]);
            lemma_component_total(a[0], b[0]);
        }
    }
}

proof fn lemma_list_prefix(a: Seq<Component<Seq<u8>>>, b: Seq<Component<Seq<u8>>>)
    requires
        a.len() < b.len(),
        b.take(a.len() as int) == a,
    ensures
        list_precedes(a, b),
    decreases a.len(),
{
    if a.len() > 0 {
        assert(b.take(a.len() as int)[0] == b[0]);
        assert(b.skip(1).take(a.len() - 1) =~= b.take(a.len() as int).skip(1));
        lemma_list_prefix(a.skip(1), b.skip(1));
    }
}

/// Of two paths that are not equal one comes before the other, and not both; no path comes before
/// itself.
pub proof fn law_order_total(a: Seq<u8>, b: Seq<u8>)
    ensures
        !precedes(a, a),
        !equal(a, b) <==> precedes(a, b) || precedes(b, a),
        !(precedes(a, b) && precedes(b, a)),
{
    lemma_list_total(components(a), components(b));
}

/// What comes before a path comes before all that follow it.
pub proof fn law_order_transitive(a: Seq<u8>, b: Seq<u8>, c: Seq<u8>)
    requires
        precedes(a, b),
        precedes(b, c),
    ensures
        precedes(a, c),
{
    lemma_list_transitive(components(a), components(b), components(c));
}

/// A directory comes before what lies in it.
pub proof fn law_order_nested(dir: Seq<u8>, p: Seq<u8>)
    requires
        within(p, dir),
        !equal(p, dir),
    ensures
        precedes(dir, p),
{
    let (a, b) = (components(dir), components(p));
    if a.len() == b.len() {
        assert(b.take(a.len() as int) =~= b);
    }
    lemma_list_prefix(a, b);
}

/// A path begins with the root if and only if it is absolute, and goes there nowhere else.
pub proof fn lemma_lead(p: Seq<u8>)
    ensures
        absolute(p) ==> components(p).len() > 0 && components(p)[0] == Component::<Seq<u8>>::Root,
        !absolute(p) ==> forall|i: int|
            0 <= i < components(p).len() ==> !((#[trigger] components(p)[i]) is Root),
{
    let n = lead(p).len();
    lemma_named_rootless(segments(p));
    if !absolute(p) {
        assert forall|i: int| 0 <= i < components(p).len() implies !((#[trigger] components(
            p,
        )[i]) is Root) by {
            if i >= n {
                assert(components(p)[i] == named(segments(p))[i - n]);
            }
        }
    }
}

proof fn lemma_named_rootless(list: Seq<Seq<u8>>)
    ensures
        forall|i: int| 0 <= i < named(list).len() ==> !((#[trigger] named(list)[i]) is Root),
    decreases list.len(),
{
    if list.len() > 0 {
        let before = named(list.drop_last());
        lemma_named_rootless(list.drop_last());
        assert forall|i: int| 0 <= i < named(list).len() implies !((#[trigger] named(
            list,
        )[i]) is Root) by {
            if i < before.len() {
                assert(named(list)[i] == before[i]);
            }
        }
    }
}

} // verus!
