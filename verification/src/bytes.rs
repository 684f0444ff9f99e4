//! Byte strings: names, paths, file contents and messages are all held as bytes.
use vstd::prelude::*;

verus! {

/// The byte `/`.
pub const SLASH: u8 = 47;

/// The byte `.`.
pub const DOT: u8 = 46;

/// The bytes of a text.
pub open spec fn text(s: Seq<char>) -> Seq<u8> {
    vstd::utf8::encode_utf8(s)
}

/// The byte strings held by a vector.
pub open spec fn all(list: Seq<Vec<u8>>) -> Seq<Seq<u8>> {
    list.map_values(|item: Vec<u8>| item@)
}

/// Whether `a` comes before `b` in the order of bytes, the earliest difference deciding and a
/// proper prefix coming first.
pub open spec fn precedes(a: Seq<u8>, b: Seq<u8>) -> bool
    decreases a.len(),
{
    if b.len() == 0 {
        false
    } else if a.len() == 0 {
        true
    } else if a[0] != b[0] {
        a[0] < b[0]
    } else {
        precedes(a.skip(1), b.skip(1))
    }
}

/// Whether `prefix` begins `whole`.
pub open spec fn begins(whole: Seq<u8>, prefix: Seq<u8>) -> bool {
    prefix.len() <= whole.len() && whole.take(prefix.len() as int) == prefix
}

/// `list`, which is in ascending order, with `item` in its place, unless it holds it already.
pub open spec fn with_item(list: Seq<Seq<u8>>, item: Seq<u8>) -> Seq<Seq<u8>>
    decreases list.len(),
{
    if list.len() == 0 {
        seq![item]
    } else if list[0] == item {
        list
    } else if precedes(item, list[0]) {
        seq![item] + list
    } else {
        seq![list[0]] + with_item(list.skip(1), item)
    }
}

/// The items of `list` in ascending order, each once.
pub open spec fn ascending(list: Seq<Seq<u8>>) -> Seq<Seq<u8>>
    decreases list.len(),
{
    if list.len() == 0 {
        Seq::empty()
    } else {
        with_item(ascending(list.drop_last()), list.last())
    }
}

/// `n` in decimal, without leading zeros.
pub open spec fn decimal(n: nat) -> Seq<u8>
    decreases n,
{
    if n < 10 {
        seq![(48 + n) as u8]
    } else {
        decimal(n / 10).push((48 + n % 10) as u8)
    }
}

/// The length of the white space character that ends `s`, or 0 where none does.
///
/// White space is what Unicode gives the property `White_Space`, in UTF-8.
pub open spec fn trailing_space(s: Seq<u8>) -> int {
    let n = s.len() as int;
    if n >= 1 && (9 <= s[n - 1] <= 13 || s[n - 1] == 32) {
        1
    } else if n >= 2 && s[n - 2] == 0xc2 && (s[n - 1] == 0x85 || s[n - 1] == 0xa0) {
        2
    } else if n >= 3 && wide_space(s[n - 3], s[n - 2], s[n - 1]) {
        3
    } else {
        0
    }
}

/// Whether three bytes encode a white space character.
pub open spec fn wide_space(a: u8, b: u8, c: u8) -> bool {
    ||| a == 0xe1 && b == 0x9a && c == 0x80
    ||| a == 0xe2 && b == 0x80 && (0x80 <= c <= 0x8a || c == 0xa8 || c == 0xa9 || c == 0xaf)
    ||| a == 0xe2 && b == 0x81 && c == 0x9f
    ||| a == 0xe3 && b == 0x80 && c == 0x80
}

/// `s` without the white space at its end.
pub open spec fn trimmed(s: Seq<u8>) -> Seq<u8>
    decreases s.len(),
{
    if trailing_space(s) == 0 {
        s
    } else {
        trimmed(s.take(s.len() - trailing_space(s)))
    }
}

/// A copy of `s`.
pub fn copied(s: &[u8]) -> (r: Vec<u8>)
    ensures
        r@ == s@,
{
    vstd::slice::slice_to_vec(s)
}

/// The bytes of a text, as a vector.
pub fn literal(s: &str) -> (r: Vec<u8>)
    ensures
        r@ == text(s@),
{
    copied(s.as_bytes())
}

/// `a` followed by `b`.
pub fn joined(a: &[u8], b: &[u8]) -> (r: Vec<u8>)
    ensures
        r@ == a@ + b@,
{
    let mut r = copied(a);
    r.extend_from_slice(b);
    assert(r@ =~= a@ + b@);
    r
}

/// Whether `a` and `b` hold the same bytes.
pub fn same(a: &[u8], b: &[u8]) -> (r: bool)
    ensures
        r == (a@ == b@),
{
    if a.len() != b.len() {
        return false;
    }
    let mut i: usize = 0;
    while i < a.len()
        invariant
            i <= a.len(),
            a.len() == b.len(),
            forall|j: int| 0 <= j < i ==> a@[j] == b@[j],
        decreases a.len() - i,
    {
        if a[i] != b[i] {
            return false;
        }
        i += 1;
    }
    assert(a@ =~= b@);
    true
}

/// Whether `a` comes before `b`.
pub fn less(a: &[u8], b: &[u8]) -> (r: bool)
    ensures
        r == precedes(a@, b@),
{
    let mut i: usize = 0;
    assert(a@.skip(0) =~= a@);
    assert(b@.skip(0) =~= b@);
    while i < a.len() && i < b.len()
        invariant
            i <= a.len(),
            i <= b.len(),
            precedes(a@, b@) == precedes(a@.skip(i as int), b@.skip(i as int)),
        decreases a.len() - i,
    {
        assert(a@.skip(i as int).skip(1) =~= a@.skip(i + 1));
        assert(b@.skip(i as int).skip(1) =~= b@.skip(i + 1));
        if a[i] != b[i] {
            return a[i] < b[i];
        }
        i += 1;
    }
    i < b.len()
}

/// Whether `prefix` begins `whole`.
pub fn starts(whole: &[u8], prefix: &[u8]) -> (r: bool)
    ensures
        r == begins(whole@, prefix@),
{
    if prefix.len() > whole.len() {
        return false;
    }
    let mut i: usize = 0;
    while i < prefix.len()
        invariant
            i <= prefix.len() <= whole.len(),
            forall|j: int| 0 <= j < i ==> whole@[j] == prefix@[j],
        decreases prefix.len() - i,
    {
        if whole[i] != prefix[i] {
            assert(whole@.take(prefix@.len() as int)[i as int] != prefix@[i as int]);
            return false;
        }
        i += 1;
    }
    assert(whole@.take(prefix@.len() as int) =~= prefix@);
    true
}

/// The part of `s` from index `from` on.
pub fn rest(s: &[u8], from: usize) -> (r: Vec<u8>)
    requires
        from <= s.len(),
    ensures
        r@ == s@.skip(from as int),
{
    let mut r: Vec<u8> = Vec::new();
    let mut i: usize = from;
    while i < s.len()
        invariant
            from <= i <= s.len(),
            r@ == s@.subrange(from as int, i as int),
        decreases s.len() - i,
    {
        r.push(s[i]);
        assert(s@.subrange(from as int, i + 1) =~= s@.subrange(from as int, i as int).push(
            s@[i as int],
        ));
        i += 1;
    }
    assert(s@.skip(from as int) =~= s@.subrange(from as int, i as int));
    r
}

/// The first `count` bytes of `s`.
pub fn front(s: &[u8], count: usize) -> (r: Vec<u8>)
    requires
        count <= s.len(),
    ensures
        r@ == s@.take(count as int),
{
    let mut r = copied(s);
    r.truncate(count);
    assert(r@ =~= s@.take(count as int));
    r
}

/// `n` in decimal.
pub fn number(n: usize) -> (r: Vec<u8>)
    ensures
        r@ == decimal(n as nat),
    decreases n,
{
    if n < 10 {
        let mut r: Vec<u8> = Vec::new();
        r.push(48 + n as u8);
        assert(r@ =~= decimal(n as nat));
        r
    } else {
        let mut r = number(n / 10);
        r.push(48 + (n % 10) as u8);
        r
    }
}

/// `s` without the white space at its end.
pub fn trim_end(s: &[u8]) -> (r: Vec<u8>)
    ensures
        r@ == trimmed(s@),
{
    let mut r = copied(s);
    loop
        invariant
            trimmed(s@) == trimmed(r@),
        ensures
            r@ == trimmed(s@),
        decreases r@.len(),
    {
        let n: usize = r.len();
        let cut: usize = if n >= 1 && ((9 <= r[n - 1] && r[n - 1] <= 13) || r[n - 1] == 32) {
            1
        } else if n >= 2 && r[n - 2] == 0xc2 && (r[n - 1] == 0x85 || r[n - 1] == 0xa0) {
            2
        } else if n >= 3 && is_wide_space(r[n - 3], r[n - 2], r[n - 1]) {
            3
        } else {
            0
        };
        if cut == 0 {
            break;
        }
        assert(r@.subrange(0, n - cut) =~= r@.take(n - cut));
        r.truncate(n - cut);
    }
    r
}

/// Whether three bytes encode a white space character.
fn is_wide_space(a: u8, b: u8, c: u8) -> (r: bool)
    ensures
        r == wide_space(a, b, c),
{
    (a == 0xe1 && b == 0x9a && c == 0x80) || (a == 0xe2 && b == 0x80 && ((0x80 <= c && c <= 0x8a)
        || c == 0xa8 || c == 0xa9 || c == 0xaf)) || (a == 0xe2 && b == 0x81 && c == 0x9f) || (a
        == 0xe3 && b == 0x80 && c == 0x80)
}

/// What is said of bytes that are not UTF-8.
pub uninterp spec fn utf8_complaint(s: Seq<u8>) -> Seq<u8>;

/// Calls `std::str::from_utf8`, which reads exactly the byte strings that are UTF-8, each as the
/// text that it encodes; `utf8_complaint` names the message of its error, which depends on the
/// bytes alone.
#[verifier::external_body]
pub(crate) fn as_text(s: &[u8]) -> (r: Result<&str, String>)
    ensures
        match r {
            Ok(t) => text(t@) == s@ && vstd::utf8::valid_utf8(s@),
            Err(problem) => text(problem@) == utf8_complaint(s@) && !vstd::utf8::valid_utf8(s@),
        },
{
    std::str::from_utf8(s).map_err(|problem| problem.to_string())
}

/// Whether `s` is UTF-8.
pub fn is_utf8(s: &[u8]) -> (r: bool)
    ensures
        r == vstd::utf8::valid_utf8(s@),
{
    as_text(s).is_ok()
}

/// The order of bytes is irreflexive, and of two different byte strings one comes first.
pub proof fn lemma_precedes_total(a: Seq<u8>, b: Seq<u8>)
    ensures
        !precedes(a, a),
        a != b ==> precedes(a, b) || precedes(b, a),
        !(precedes(a, b) && precedes(b, a)),
    decreases a.len(),
{
    if a.len() > 0 {
        lemma_precedes_total(a.skip(1), a.skip(1));
        if b.len() > 0 {
            lemma_precedes_total(a.skip(1), b.skip(1));
            if a[0] == b[0] && a.skip(1) == b.skip(1) {
                assert(a =~= seq![a[0]] + a.skip(1));
                assert(b =~= seq![b[0]] + b.skip(1));
            }
        }
    } else if b.len() == 0 {
        assert(a =~= b);
    }
}

/// The order of bytes is transitive.
pub proof fn lemma_precedes_transitive(a: Seq<u8>, b: Seq<u8>, c: Seq<u8>)
    requires
        precedes(a, b),
        precedes(b, c),
    ensures
        precedes(a, c),
    decreases a.len(),
{
    if a.len() > 0 && b.len() > 0 && c.len() > 0 && a[0] == b[0] && b[0] == c[0] {
        lemma_precedes_transitive(a.skip(1), b.skip(1), c.skip(1));
    }
}

/// Adding an item adds no other.
proof fn lemma_with_item(list: Seq<Seq<u8>>, item: Seq<u8>)
    ensures
        forall|x: Seq<u8>|
            #[trigger] with_item(list, item).contains(x) <==> list.contains(x) || x == item,
    decreases list.len(),
{
    let r = with_item(list, item);
    if list.len() == 0 {
        assert(r[0] == item);
        assert(!list.contains(item));
    } else if list[0] == item {
        assert(list.contains(item));
    } else if precedes(item, list[0]) {
        assert forall|x: Seq<u8>| #[trigger] r.contains(x) <==> list.contains(x) || x == item by {
            if list.contains(x) {
                let i = choose|i: int| 0 <= i < list.len() && list[i] == x;
                assert(r[i + 1] == x);
            }
            assert(r[0] == item);
        }
    } else {
        let tail = with_item(list.skip(1), item);
        lemma_with_item(list.skip(1), item);
        assert forall|x: Seq<u8>| #[trigger] r.contains(x) <==> list.contains(x) || x == item by {
            if r.contains(x) {
                let i = choose|i: int| 0 <= i < r.len() && r[i] == x;
                if i > 0 {
                    assert(tail[i - 1] == x);
                    assert(tail.contains(x));
                    if list.skip(1).contains(x) {
                        let j = choose|j: int| 0 <= j < list.skip(1).len() && list.skip(1)[j] == x;
                        assert(list[j + 1] == x);
                    }
                }
            }
            if list.contains(x) || x == item {
                if list.contains(x) {
                    let i = choose|i: int| 0 <= i < list.len() && list[i] == x;
                    if i > 0 {
                        assert(list.skip(1)[i - 1] == x);
                    } else {
                        assert(r[0] == x);
                    }
                }
                if tail.contains(x) {
                    let j = choose|j: int| 0 <= j < tail.len() && tail[j] == x;
                    assert(r[j + 1] == x);
                }
            }
        }
    }
}

proof fn lemma_with_item_sorted(list: Seq<Seq<u8>>, item: Seq<u8>)
    requires
        forall|i: int, j: int| 0 <= i < j < list.len() ==> precedes(list[i], list[j]),
    ensures
        forall|i: int, j: int|
            0 <= i < j < with_item(list, item).len() ==> precedes(
                #[trigger] with_item(list, item)[i],
                #[trigger] with_item(list, item)[j],
            ),
    decreases list.len(),
{
    let r = with_item(list, item);
    if list.len() == 0 || list[0] == item {
    } else if precedes(item, list[0]) {
        assert forall|i: int, j: int| 0 <= i < j < r.len() implies precedes(
            #[trigger] r[i],
            #[trigger] r[j],
        ) by {
            if i == 0 {
                if j > 1 {
                    lemma_precedes_transitive(item, list[0], list[j - 1]);
                }
            } else {
                assert(r[i] == list[i - 1]);
                assert(r[j] == list[j - 1]);
            }
        }
    } else {
        let rest = list.skip(1);
        let tail = with_item(rest, item);
        assert forall|i: int, j: int| 0 <= i < j < rest.len() implies precedes(
            #[trigger] rest[i],
            #[trigger] rest[j],
        ) by {
            assert(rest[i] == list[i + 1] && rest[j] == list[j + 1]);
        }
        lemma_with_item_sorted(rest, item);
        lemma_with_item(rest, item);
        lemma_precedes_total(item, list[0]);
        assert forall|i: int, j: int| 0 <= i < j < r.len() implies precedes(
            #[trigger] r[i],
            #[trigger] r[j],
        ) by {
            assert(r[j] == tail[j - 1]);
            if i == 0 {
                assert(tail.contains(r[j]));
                if r[j] != item {
                    let k = choose|k: int| 0 <= k < rest.len() && rest[k] == r[j];
                    assert(list[k + 1] == r[j]);
                }
            } else {
                assert(r[i] == tail[i - 1]);
            }
        }
    }
}

/// Bringing items in order loses none and adds none, and each comes before the next.
pub proof fn lemma_ascending(list: Seq<Seq<u8>>)
    ensures
        forall|x: Seq<u8>| #[trigger] ascending(list).contains(x) <==> list.contains(x),
        forall|i: int, j: int|
            0 <= i < j < ascending(list).len() ==> precedes(
                #[trigger] ascending(list)[i],
                #[trigger] ascending(list)[j],
            ),
    decreases list.len(),
{
    if list.len() == 0 {
        assert forall|x: Seq<u8>| #[trigger] ascending(list).contains(x) <==> list.contains(x) by {
        }
    } else {
        let before = list.drop_last();
        lemma_ascending(before);
        lemma_with_item(ascending(before), list.last());
        lemma_with_item_sorted(ascending(before), list.last());
        assert forall|x: Seq<u8>| #[trigger] ascending(list).contains(x) <==> list.contains(x) by {
            if list.contains(x) {
                let i = choose|i: int| 0 <= i < list.len() && list[i] == x;
                if i < list.len() - 1 {
                    assert(before[i] == x);
                }
            }
            if before.contains(x) {
                let i = choose|i: int| 0 <= i < before.len() && before[i] == x;
                assert(list[i] == x);
            }
            assert(list[list.len() - 1] == list.last());
        }
    }
}

proof fn lemma_sorted_same(a: Seq<Seq<u8>>, b: Seq<Seq<u8>>)
    requires
        forall|i: int, j: int| 0 <= i < j < a.len() ==> precedes(#[trigger] a[i], #[trigger] a[j]),
        forall|i: int, j: int| 0 <= i < j < b.len() ==> precedes(#[trigger] b[i], #[trigger] b[j]),
        forall|x: Seq<u8>| #[trigger] a.contains(x) <==> b.contains(x),
    ensures
        a == b,
    decreases a.len(),
{
    if a.len() == 0 {
        if b.len() > 0 {
            assert(b.contains(b[0]));
            assert(a.contains(b[0]) <==> b.contains(b[0]));
        }
        assert(a =~= b);
    } else {
        assert(a.contains(a[0]));
        let k = choose|k: int| 0 <= k < b.len() && b[k] == a[0];
        assert(b.contains(b[0]));
        assert(a.contains(b[0]) <==> b.contains(b[0]));
        let j = choose|j: int| 0 <= j < a.len() && a[j] == b[0];
        if k > 0 && j > 0 {
            lemma_precedes_transitive(a[0], b[0], a[0]);
            lemma_precedes_total(a[0], a[0]);
        }
        assert(a[0] == b[0]);
        let c = a.skip(1);
        let d = b.skip(1);
        assert forall|x: Seq<u8>| #[trigger] c.contains(x) <==> d.contains(x) by {
            lemma_precedes_total(x, x);
            assert(a.contains(x) <==> b.contains(x));
            if c.contains(x) {
                let i = choose|i: int| 0 <= i < c.len() && c[i] == x;
                assert(a[i + 1] == x);
                assert(a.contains(x));
                let n = choose|n: int| 0 <= n < b.len() && b[n] == x;
                assert(d[n - 1] == x);
            }
            if d.contains(x) {
                let i = choose|i: int| 0 <= i < d.len() && d[i] == x;
                assert(b[i + 1] == x);
                assert(b.contains(x));
                let n = choose|n: int| 0 <= n < a.len() && a[n] == x;
                assert(c[n - 1] == x);
            }
        }
        assert forall|i: int, j: int| 0 <= i < j < c.len() implies precedes(
            #[trigger] c[i],
            #[trigger] c[j],
        ) by {
            assert(c[i] == a[i + 1] && c[j] == a[j + 1]);
        }
        assert forall|i: int, j: int| 0 <= i < j < d.len() implies precedes(
            #[trigger] d[i],
            #[trigger] d[j],
        ) by {
            assert(d[i] == b[i + 1] && d[j] == b[j + 1]);
        }
        lemma_sorted_same(c, d);
        assert(a =~= seq![a[0]] + c);
        assert(b =~= seq![b[0]] + d);
    }
}

/// Two lists with the same items are the same in ascending order.
pub proof fn lemma_ascending_same(a: Seq<Seq<u8>>, b: Seq<Seq<u8>>)
    requires
        forall|x: Seq<u8>| #[trigger] a.contains(x) <==> b.contains(x),
    ensures
        ascending(a) == ascending(b),
{
    lemma_ascending(a);
    lemma_ascending(b);
    assert forall|x: Seq<u8>| #[trigger] ascending(a).contains(x) <==> ascending(b).contains(x) by {
        assert(a.contains(x) <==> b.contains(x));
    }
    lemma_sorted_same(ascending(a), ascending(b));
}

/// The items of `list` in ascending order, each once.
pub fn sort(list: &Vec<Vec<u8>>) -> (r: Vec<Vec<u8>>)
    ensures
        all(r@) == ascending(all(list@)),
{
    let mut r: Vec<Vec<u8>> = Vec::new();
    let mut i: usize = 0;
    assert(all(r@) =~= ascending(all(list@).take(0)));
    while i < list.len()
        invariant
            i <= list.len(),
            all(r@) == ascending(all(list@).take(i as int)),
        decreases list.len() - i,
    {
        assert(all(list@).take(i + 1).drop_last() =~= all(list@).take(i as int));
        assert(all(list@).take(i + 1).last() == list@[i as int]@);
        add_item(&mut r, &list[i]);
        i += 1;
    }
    assert(all(list@).take(i as int) =~= all(list@));
    r
}

/// Puts `item` in its place in `list`, unless it is there already.
fn add_item(list: &mut Vec<Vec<u8>>, item: &[u8])
    ensures
        all(final(list)@) == with_item(all(old(list)@), item@),
{
    let ghost before = all(list@);
    let mut i: usize = 0;
    assert(before.take(0) + with_item(before.skip(0), item@) =~= with_item(before, item@)) by {
        assert(before.skip(0) =~= before);
    }
    while i < list.len()
        invariant
            before == all(list@),
            list@ == old(list)@,
            i <= list.len(),
            before.take(i as int) + with_item(before.skip(i as int), item@) == with_item(
                before,
                item@,
            ),
        decreases list.len() - i,
    {
        let ghost rest = before.skip(i as int);
        assert(rest[0] == list@[i as int]@);
        if same(&list[i], item) {
            assert(before.take(i as int) + rest =~= before);
            return ;
        }
        if less(item, &list[i]) {
            list.insert(i, copied(item));
            assert(all(list@) =~= before.take(i as int) + (seq![item@] + rest));
            return ;
        }
        assert(rest.skip(1) =~= before.skip(i + 1));
        assert(before.take(i as int) + (seq![rest[0]] + with_item(rest.skip(1), item@))
            =~= before.take(i + 1) + with_item(before.skip(i + 1), item@));
        i += 1;
    }
    list.push(copied(item));
    assert(all(list@) =~= before.take(i as int) + seq![item@]);
}

/// Whether two lists hold the same byte strings.
pub fn same_list(a: &Vec<Vec<u8>>, b: &Vec<Vec<u8>>) -> (r: bool)
    ensures
        r == (all(a@) == all(b@)),
{
    if a.len() != b.len() {
        assert(all(a@).len() != all(b@).len());
        return false;
    }
    let mut i: usize = 0;
    while i < a.len()
        invariant
            i <= a.len(),
            a.len() == b.len(),
            forall|j: int| 0 <= j < i ==> #[trigger] a@[j]@ == b@[j]@,
        decreases a.len() - i,
    {
        if !same(&a[i], &b[i]) {
            assert(all(a@)[i as int] != all(b@)[i as int]);
            return false;
        }
        i += 1;
    }
    assert(all(a@) =~= all(b@));
    true
}

} // verus!
