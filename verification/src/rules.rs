//! Rules: which entries of a layer are linked, copied or left out.
use ignore::gitignore::Gitignore;
use vstd::prelude::*;

use crate::bytes;
use crate::error::{Error, RuleProblem, Trouble};
use crate::glob;
use crate::glob::Verdict;

verus! {

/// What happens to the entries that a rule matches.
#[derive(Clone, Copy, PartialEq, Eq, Structural, Debug)]
pub enum RuleAction {
    /// They are left out.
    Ignore,
    /// Files become links to the layer.
    Link,
    /// Files are copied with their permissions.
    Copy,
    /// Files are copied and get these permissions.
    CopyWithMode(u32),
}

/// A rule: what it matches, and what happens then.
pub struct Rule {
    matcher: Gitignore,
    action: RuleAction,
}

/// A rule as contracts speak of it.
pub struct RuleModel {
    pub globs: Seq<Seq<u8>>,
    pub action: RuleAction,
}

impl View for Rule {
    type V = RuleModel;

    closed spec fn view(&self) -> RuleModel {
        RuleModel { globs: glob::matcher_globs(self.matcher), action: self.action }
    }
}

/// The rules held by a vector.
pub open spec fn seen(list: Seq<Rule>) -> Seq<RuleModel> {
    list.map_values(|rule: Rule| rule@)
}

/// The place of the first `b` in `s`, or the length of `s` where there is none.
pub open spec fn find(s: Seq<u8>, b: u8) -> int
    decreases s.len(),
{
    if s.len() == 0 || s[0] == b {
        0
    } else {
        1 + find(s.skip(1), b)
    }
}

/// A line that ended with a line feed, without a carriage return at its end.
pub open spec fn chomped(line: Seq<u8>) -> Seq<u8> {
    if line.len() > 0 && line.last() == 13 {
        line.drop_last()
    } else {
        line
    }
}

/// The lines of a text: each ends with a line feed, which a carriage return may precede; what
/// follows the last line feed is a line if there is anything.
pub open spec fn lines(s: Seq<u8>) -> Seq<Seq<u8>>
    decreases s.len(),
{
    if s.len() == 0 {
        Seq::empty()
    } else if 0 <= find(s, 10) < s.len() {
        seq![chomped(s.take(find(s, 10)))] + lines(s.skip(find(s, 10) + 1))
    } else {
        seq![s]
    }
}

/// Whether `s` holds four octal digits.
pub open spec fn is_mode(s: Seq<u8>) -> bool {
    s.len() == 4 && forall|i: int| 0 <= i < 4 ==> 48 <= #[trigger] s[i] <= 55
}

/// The permissions that four octal digits stand for.
pub open spec fn mode_of(s: Seq<u8>) -> u32 {
    ((s[0] - 48) * 512 + (s[1] - 48) * 64 + (s[2] - 48) * 8 + (s[3] - 48)) as u32
}

/// The action that begins a line, and what follows it.
pub open spec fn action_of(number: usize, line: Seq<u8>) -> Result<(RuleAction, Seq<u8>), Trouble> {
    if bytes::begins(line, seq![45u8, 32u8]) {
        Ok((RuleAction::Ignore, line.skip(2)))
    } else if bytes::begins(line, seq![43u8, 32u8]) {
        Ok((RuleAction::Copy, line.skip(2)))
    } else if bytes::begins(line, seq![61u8, 32u8]) {
        Ok((RuleAction::Link, line.skip(2)))
    } else if bytes::begins(line, seq![42u8]) {
        let rest = line.skip(1);
        let at = find(rest, 32);
        if at >= rest.len() {
            Err(Error::Rule(number, RuleProblem::NoPattern))
        } else if !is_mode(rest.take(at)) {
            Err(Error::Rule(number, RuleProblem::BadPermissions))
        } else {
            Ok((RuleAction::CopyWithMode(mode_of(rest.take(at))), rest.skip(at + 1)))
        }
    } else {
        Err(Error::Rule(number, RuleProblem::UnknownAction))
    }
}

/// The action and the pattern of a line.
pub open spec fn parted(number: usize, line: Seq<u8>) -> Result<(RuleAction, Seq<u8>), Trouble> {
    match action_of(number, line) {
        Ok(parts) => if parts.1.len() == 0 || bytes::begins(parts.1, seq![33u8]) {
            Err(Error::Rule(number, RuleProblem::EmptyOrNegated))
        } else {
            Ok(parts)
        },
        Err(e) => Err(e),
    }
}

/// The rule on a line.
pub open spec fn rule_of(number: usize, line: Seq<u8>) -> Result<RuleModel, Trouble> {
    match parted(number, line) {
        Ok((action, pattern)) => match glob::line_problem(pattern) {
            Some(problem) => Err(Error::Glob(number, problem)),
            None => match glob::build_problem(glob::kept(pattern)) {
                Some(problem) => Err(Error::Matcher(problem)),
                None => Ok(RuleModel { globs: glob::kept(pattern), action }),
            },
        },
        Err(e) => Err(e),
    }
}

/// Whether a line is empty or a comment.
pub open spec fn is_blank(line: Seq<u8>) -> bool {
    line.len() == 0 || line[0] == 35
}

/// The rules on the first `count` lines, or what is wrong with the first line that is wrong;
/// lines are counted from one.
pub open spec fn rules_of(list: Seq<Seq<u8>>, count: nat) -> Result<Seq<RuleModel>, Trouble>
    decreases count,
{
    if count == 0 {
        Ok(Seq::empty())
    } else {
        match rules_of(list, (count - 1) as nat) {
            Ok(before) => if is_blank(list[count - 1]) {
                Ok(before)
            } else {
                match rule_of(count as usize, list[count - 1]) {
                    Ok(rule) => Ok(before.push(rule)),
                    Err(e) => Err(e),
                }
            },
            Err(e) => Err(e),
        }
    }
}

/// The rules in a text.
pub open spec fn parsed(source: Seq<u8>) -> Result<Seq<RuleModel>, Trouble> {
    rules_of(lines(source), lines(source).len())
}

/// What the rules say of a path, each for itself.
pub open spec fn verdicts(rules: Seq<RuleModel>, p: Seq<u8>, is_directory: bool) -> Seq<Verdict> {
    rules.map_values(|rule: RuleModel| glob::verdict_on(rule.globs, p, is_directory))
}

/// The place of the last rule that matches.
pub open spec fn last_matched(list: Seq<Verdict>) -> Option<int>
    decreases list.len(),
{
    if list.len() == 0 {
        None
    } else if list.last() is Matched {
        Some(list.len() - 1)
    } else {
        last_matched(list.drop_last())
    }
}

/// The action of the last rule that matches a path, or a directory above it.
pub open spec fn governing(rules: Seq<RuleModel>, p: Seq<u8>, is_directory: bool) -> Option<
    RuleAction,
> {
    match last_matched(verdicts(rules, p, is_directory)) {
        Some(i) => Some(rules[i].action),
        None => None,
    }
}

proof fn lemma_last_matched(list: Seq<Verdict>)
    ensures
        match last_matched(list) {
            Some(i) => 0 <= i < list.len() && list[i] is Matched && forall|j: int|
                i < j < list.len() ==> !(#[trigger] list[j] is Matched),
            None => forall|j: int| 0 <= j < list.len() ==> !(#[trigger] list[j] is Matched),
        },
    decreases list.len(),
{
    if list.len() > 0 && !(list.last() is Matched) {
        lemma_last_matched(list.drop_last());
        assert forall|j: int| 0 <= j < list.len() - 1 implies #[trigger] list[j]
            == list.drop_last()[j] by {}
    }
}

/// The last rule that matches governs: its action is taken, and no later rule matches.
pub proof fn law_governing(rules: Seq<RuleModel>, p: Seq<u8>, is_directory: bool)
    ensures
        match governing(rules, p, is_directory) {
            Some(action) => exists|i: int|
                {
                    &&& 0 <= i < rules.len()
                    &&& (#[trigger] rules[i]).action == action
                    &&& glob::verdict_on(rules[i].globs, p, is_directory) is Matched
                    &&& forall|j: int|
                        i < j < rules.len() ==> !(glob::verdict_on(
                            (#[trigger] rules[j]).globs,
                            p,
                            is_directory,
                        ) is Matched)
                },
            None => forall|j: int|
                0 <= j < rules.len() ==> !(glob::verdict_on(
                    (#[trigger] rules[j]).globs,
                    p,
                    is_directory,
                ) is Matched),
        },
{
    let list = verdicts(rules, p, is_directory);
    lemma_last_matched(list);
    assert forall|j: int| 0 <= j < rules.len() implies glob::verdict_on(
        (#[trigger] rules[j]).globs,
        p,
        is_directory,
    ) == list[j] by {}
    if last_matched(list) is Some {
        let i = last_matched(list)->Some_0;
        assert(rules[i].action == rules[i].action);
    }
}

/// In UTF-8 a character begins before and behind every byte below 128.
proof fn lemma_boundary(s: Seq<u8>, i: int)
    requires
        vstd::utf8::valid_utf8(s),
        0 <= i < s.len(),
        s[i] < 128,
    ensures
        vstd::utf8::is_char_boundary(s, i),
        vstd::utf8::is_char_boundary(s, i + 1),
{
    let b = s[i];
    assert(!vstd::utf8::is_continuation_byte(b)) by {
        vstd::utf8::utf8_byte_ranges_bitwise(b);
    }
    vstd::utf8::is_char_boundary_iff_not_is_continuation_byte(s, i);
    let tail = s.subrange(i, s.len() as int);
    vstd::utf8::valid_utf8_split(s, i);
    assert(vstd::utf8::length_of_first_scalar(tail) == 1) by {
        vstd::utf8::utf8_byte_ranges_bitwise(b);
        assert(tail[0] == b);
    }
    assert(vstd::utf8::is_char_boundary(tail, 1)) by {
        reveal_with_fuel(vstd::utf8::is_char_boundary, 3);
    }
    if i + 1 == s.len() {
        vstd::utf8::is_char_boundary_start_end_of_seq(s);
    } else {
        vstd::utf8::is_char_boundary_iff_not_is_continuation_byte(tail, 1);
        assert(tail[1] == s[i + 1]);
        vstd::utf8::is_char_boundary_iff_not_is_continuation_byte(s, i + 1);
    }
}

/// Cuts `s` at `at`, beside a byte below 128 or at the end.
fn cut(s: &str, at: usize) -> (r: (&str, &str))
    requires
        at <= bytes::text(s@).len(),
        at == bytes::text(s@).len() || bytes::text(s@)[at as int] < 128 || (at > 0
            && bytes::text(s@)[at - 1] < 128),
    ensures
        bytes::text(r.0@) == bytes::text(s@).take(at as int),
        bytes::text(r.1@) == bytes::text(s@).skip(at as int),
{
    proof {
        let whole = bytes::text(s@);
        vstd::utf8::encode_utf8_valid_utf8(s@);
        if at == whole.len() {
            vstd::utf8::is_char_boundary_start_end_of_seq(whole);
        } else if whole[at as int] < 128 {
            lemma_boundary(whole, at as int);
        } else {
            lemma_boundary(whole, at - 1);
        }
    }
    s.split_at(at)
}

/// The place of the first `b` in `s`, or the length of `s`.
fn position(s: &[u8], b: u8) -> (r: usize)
    ensures
        r == find(s@, b),
        r <= s.len(),
        r < s.len() ==> s@[r as int] == b,
{
    let mut i: usize = 0;
    assert(s@.skip(0) =~= s@);
    while i < s.len()
        invariant
            i <= s.len(),
            find(s@, b) == i + find(s@.skip(i as int), b),
        decreases s.len() - i,
    {
        assert(s@.skip(i as int).skip(1) =~= s@.skip(i + 1));
        if s[i] == b {
            return i;
        }
        i += 1;
    }
    i
}

/// The texts held by a vector, as bytes.
pub open spec fn texts(list: Seq<&str>) -> Seq<Seq<u8>> {
    list.map_values(|line: &str| bytes::text(line@))
}

/// The lines of a text.
pub fn split_lines(s: &str) -> (r: Vec<&str>)
    ensures
        texts(r@) == lines(bytes::text(s@)),
{
    let mut r: Vec<&str> = Vec::new();
    let mut left: &str = s;
    assert(texts(r@) + lines(bytes::text(left@)) =~= lines(bytes::text(s@)));
    while left.as_bytes().len() > 0
        invariant
            texts(r@) + lines(bytes::text(left@)) == lines(bytes::text(s@)),
        decreases bytes::text(left@).len(),
    {
        let ghost before = texts(r@);
        let ghost whole = bytes::text(left@);
        let at: usize = position(left.as_bytes(), 10);
        if at == left.as_bytes().len() {
            r.push(left);
            left = "";
            assert(bytes::text(left@) =~= Seq::<u8>::empty()) by {
                reveal_strlit("");
            }
            assert(texts(r@) =~= before.push(whole));
            assert(texts(r@) + lines(bytes::text(left@)) =~= before + lines(whole));
        } else {
            let (line, rest) = cut(left, at);
            let (_, next) = cut(rest, 1);
            assert(whole.skip(at as int).skip(1) =~= whole.skip(at + 1));
            let line: &str = if at > 0 && line.as_bytes()[at - 1] == 13 {
                assert(whole.take(at as int)[at - 1] == 13);
                cut(line, at - 1).0
            } else {
                line
            };
            assert(bytes::text(line@) =~= chomped(whole.take(at as int)));
            r.push(line);
            assert(texts(r@) =~= before.push(chomped(whole.take(at as int))));
            assert(texts(r@) + lines(bytes::text(next@)) =~= before + lines(whole));
            left = next;
        }
    }
    assert(texts(r@) + lines(bytes::text(left@)) =~= texts(r@));
    r
}

/// The permissions that four octal digits stand for.
fn read_mode(s: &[u8]) -> (r: Option<u32>)
    ensures
        match r {
            Some(mode) => is_mode(s@) && mode == mode_of(s@),
            None => !is_mode(s@),
        },
{
    if s.len() != 4 {
        return None;
    }
    let mut i: usize = 0;
    while i < 4
        invariant
            s.len() == 4,
            i <= 4,
            forall|j: int| 0 <= j < i ==> 48 <= #[trigger] s@[j] <= 55,
        decreases 4 - i,
    {
        if s[i] < 48 || s[i] > 55 {
            assert(!(48 <= s@[i as int] <= 55));
            return None;
        }
        i += 1;
    }
    Some(
        (s[0] - 48) as u32 * 512 + (s[1] - 48) as u32 * 64 + (s[2] - 48) as u32 * 8 + (s[3]
            - 48) as u32,
    )
}

/// Whether `s` begins with two bytes.
fn begins_with(s: &[u8], a: u8, b: u8) -> (r: bool)
    ensures
        r == bytes::begins(s@, seq![a, b]),
        r ==> s.len() >= 2 && s@[1] == b,
{
    if s.len() >= 2 {
        if s[0] == a && s[1] == b {
            assert(s@.take(2) =~= seq![a, b]);
            true
        } else {
            assert(s@.take(2)[0] == s@[0] && s@.take(2)[1] == s@[1]);
            false
        }
    } else {
        false
    }
}

/// Whether `s` begins with a byte.
fn begins_one(s: &[u8], a: u8) -> (r: bool)
    ensures
        r == bytes::begins(s@, seq![a]),
        r ==> s.len() >= 1 && s@[0] == a,
{
    if s.len() >= 1 {
        assert(s@.take(1)[0] == s@[0]);
        if s[0] == a {
            assert(s@.take(1) =~= seq![a]);
            true
        } else {
            false
        }
    } else {
        false
    }
}

/// The action that begins a line, and what follows it.
fn read_action(number: usize, line: &str) -> (r: Result<(RuleAction, &str), Error>)
    ensures
        match r {
            Ok((action, rest)) => action_of(number, bytes::text(line@)) == Ok::<_, Trouble>(
                (action, bytes::text(rest@)),
            ),
            Err(e) => action_of(number, bytes::text(line@)) == Err::<(RuleAction, Seq<u8>), _>(
                e.seen(),
            ),
        },
{
    let data = line.as_bytes();
    if begins_with(data, 45, 32) {
        Ok((RuleAction::Ignore, cut(line, 2).1))
    } else if begins_with(data, 43, 32) {
        Ok((RuleAction::Copy, cut(line, 2).1))
    } else if begins_with(data, 61, 32) {
        Ok((RuleAction::Link, cut(line, 2).1))
    } else if begins_one(data, 42) {
        let rest = cut(line, 1).1;
        let at: usize = position(rest.as_bytes(), 32);
        if at == rest.as_bytes().len() {
            return Err(Error::Rule(number, RuleProblem::NoPattern));
        }
        let (digits, tail) = cut(rest, at);
        let pattern = cut(tail, 1).1;
        assert(bytes::text(rest@).skip(at as int).skip(1) =~= bytes::text(rest@).skip(at + 1));
        match read_mode(digits.as_bytes()) {
            Some(mode) => Ok((RuleAction::CopyWithMode(mode), pattern)),
            None => Err(Error::Rule(number, RuleProblem::BadPermissions)),
        }
    } else {
        Err(Error::Rule(number, RuleProblem::UnknownAction))
    }
}

/// The action and the pattern of a line.
pub fn part_rule(number: usize, line: &str) -> (r: Result<(RuleAction, &str), Error>)
    ensures
        match r {
            Ok((action, pattern)) => parted(number, bytes::text(line@)) == Ok::<_, Trouble>(
                (action, bytes::text(pattern@)),
            ),
            Err(e) => parted(number, bytes::text(line@)) == Err::<(RuleAction, Seq<u8>), _>(
                e.seen(),
            ),
        },
{
    let (action, pattern) = read_action(number, line)?;
    if pattern.as_bytes().len() == 0 || begins_one(pattern.as_bytes(), 33) {
        return Err(Error::Rule(number, RuleProblem::EmptyOrNegated));
    }
    Ok((action, pattern))
}

/// The rule on a line.
pub fn parse_rule(number: usize, line: &str) -> (r: Result<Rule, Error>)
    ensures
        match r {
            Ok(rule) => rule_of(number, bytes::text(line@)) == Ok::<_, Trouble>(rule@),
            Err(e) => rule_of(number, bytes::text(line@)) == Err::<RuleModel, _>(e.seen()),
        },
{
    let (action, pattern) = part_rule(number, line)?;
    let mut builder = glob::new_builder();
    match glob::add_line(&mut builder, pattern) {
        Ok(_) => {},
        Err(problem) => {
            return Err(Error::Glob(number, bytes::literal(problem.as_str())));
        },
    }
    assert(glob::builder_globs(builder) =~= glob::kept(bytes::text(pattern@)));
    match glob::build(&builder) {
        Ok(matcher) => Ok(Rule { matcher, action }),
        Err(problem) => Err(Error::Matcher(bytes::literal(problem.as_str()))),
    }
}

/// The rules in a text.
pub fn parse_rules(source: &str) -> (r: Result<Vec<Rule>, Error>)
    ensures
        match r {
            Ok(rules) => parsed(bytes::text(source@)) == Ok::<_, Trouble>(seen(rules@)),
            Err(e) => parsed(bytes::text(source@)) == Err::<Seq<RuleModel>, _>(e.seen()),
        },
{
    let list = split_lines(source);
    let ghost all = lines(bytes::text(source@));
    let mut rules: Vec<Rule> = Vec::new();
    let mut i: usize = 0;
    assert(seen(rules@) =~= Seq::<RuleModel>::empty());
    while i < list.len()
        invariant
            all == texts(list@),
            all == lines(bytes::text(source@)),
            i <= list.len(),
            rules_of(all, i as nat) == Ok::<_, Trouble>(seen(rules@)),
        decreases list.len() - i,
    {
        let line: &str = list[i];
        let ghost before = seen(rules@);
        assert(all[i as int] == bytes::text(line@));
        if !(line.as_bytes().len() == 0 || line.as_bytes()[0] == 35) {
            match parse_rule(i + 1, line) {
                Ok(rule) => {
                    rules.push(rule);
                    assert(seen(rules@) =~= before.push(rule@));
                },
                Err(e) => {
                    proof {
                        lemma_first_wrong(all, (i + 1) as nat, all.len());
                    }
                    return Err(e);
                },
            }
        }
        i += 1;
    }
    Ok(rules)
}

/// Once a line is wrong, later lines do not matter.
proof fn lemma_first_wrong(list: Seq<Seq<u8>>, count: nat, more: nat)
    requires
        rules_of(list, count) is Err,
        count <= more,
    ensures
        rules_of(list, more) == rules_of(list, count),
    decreases more,
{
    if count < more {
        lemma_first_wrong(list, count, (more - 1) as nat);
    }
}

/// The place of the last rule that matches.
pub fn select(list: &Vec<Verdict>) -> (r: Option<usize>)
    ensures
        match r {
            Some(i) => last_matched(list@) == Some(i as int) && i < list.len(),
            None => last_matched(list@) is None,
        },
{
    let mut i: usize = list.len();
    assert(list@.take(i as int) =~= list@);
    while i > 0
        invariant
            i <= list.len(),
            last_matched(list@) == last_matched(list@.take(i as int)),
        decreases i,
    {
        assert(list@.take(i as int).drop_last() =~= list@.take(i - 1));
        i -= 1;
        if list[i] == Verdict::Matched {
            return Some(i);
        }
    }
    None
}

/// The action of the last rule that matches a path, or a directory above it.
pub fn govern(rules: &Vec<Rule>, p: &str, is_directory: bool) -> (r: Option<RuleAction>)
    requires
        glob::matchable(bytes::text(p@)),
    ensures
        r == governing(seen(rules@), bytes::text(p@), is_directory),
{
    let mut list: Vec<Verdict> = Vec::new();
    let mut i: usize = 0;
    while i < rules.len()
        invariant
            glob::matchable(bytes::text(p@)),
            i <= rules.len(),
            list@ == verdicts(seen(rules@), bytes::text(p@), is_directory).take(i as int),
        decreases rules.len() - i,
    {
        let v = glob::verdict(&rules[i].matcher, p, is_directory);
        assert(seen(rules@)[i as int] == rules@[i as int]@);
        list.push(v);
        assert(list@ =~= verdicts(seen(rules@), bytes::text(p@), is_directory).take(i + 1));
        i += 1;
    }
    assert(list@ =~= verdicts(seen(rules@), bytes::text(p@), is_directory));
    match select(&list) {
        Some(i) => Some(rules[i].action),
        None => None,
    }
}

} // verus!
