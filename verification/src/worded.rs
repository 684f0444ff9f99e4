//! What the text of rules says.
use vstd::prelude::*;

use crate::error::{Error, Trouble};
use crate::glob;
use crate::rules;
use crate::rules::{RuleAction, RuleModel};

verus! {

/// Whether a text holds no line feed.
pub open spec fn unbroken(s: Seq<u8>) -> bool {
    forall|i: int| 0 <= i < s.len() ==> #[trigger] s[i] != 10
}

/// A byte that is not in the first part of a text is found in the rest.
proof fn lemma_find(a: Seq<u8>, b: Seq<u8>, x: u8)
    requires
        forall|i: int| 0 <= i < a.len() ==> #[trigger] a[i] != x,
    ensures
        rules::find(a + b, x) == a.len() + rules::find(b, x),
    decreases a.len(),
{
    if a.len() == 0 {
        assert(a + b =~= b);
    } else {
        let later = a.skip(1);
        assert((a + b)[0] == a[0]);
        assert((a + b).skip(1) =~= later + b);
        assert forall|i: int| 0 <= i < later.len() implies #[trigger] later[i] != x by {
            assert(later[i] == a[i + 1]);
        }
        lemma_find(later, b, x);
    }
}

/// The first line of a text ends before the first line feed, and before a carriage return that precedes
/// it; the others are those of the rest.
pub proof fn law_lines(line: Seq<u8>, rest: Seq<u8>)
    requires
        unbroken(line),
    ensures
        rules::lines(line + seq![10u8] + rest) == seq![
            if line.len() > 0 && line.last() == 13 {
                line.drop_last()
            } else {
                line
            },
        ] + rules::lines(rest),
        line.len() > 0 ==> rules::lines(line) == seq![line],
        rules::lines(Seq::<u8>::empty()) == Seq::<Seq<u8>>::empty(),
{
    let s = line + seq![10u8] + rest;
    assert(s =~= line + (seq![10u8] + rest));
    lemma_find(line, seq![10u8] + rest, 10);
    assert((seq![10u8] + rest)[0] == 10);
    assert(rules::find(s, 10) == line.len());
    assert(s.take(line.len() as int) =~= line);
    assert(s.skip(line.len() as int + 1) =~= rest);
    lemma_find(line, Seq::empty(), 10);
    assert(line + Seq::<u8>::empty() =~= line);
}

/// Whether a line says what happens to what matches a pattern.
pub open spec fn says(line: Seq<u8>, action: RuleAction, pattern: Seq<u8>) -> bool {
    match action {
        RuleAction::Ignore => line == seq![45u8, 32u8] + pattern,
        RuleAction::Copy => line == seq![43u8, 32u8] + pattern,
        RuleAction::Link => line == seq![61u8, 32u8] + pattern,
        RuleAction::CopyWithMode(mode) => exists|d: Seq<u8>|
            {
                &&& d.len() == 4
                &&& forall|i: int| 0 <= i < 4 ==> 48 <= #[trigger] d[i] <= 55
                &&& line == #[trigger] (seq![42u8] + d) + seq![32u8] + pattern
                &&& mode == (d[0] - 48) * 512 + (d[1] - 48) * 64 + (d[2] - 48) * 8 + (d[3] - 48)
            },
    }
}

/// Whether a pattern is one that a rule may have: it is not empty, and not negated.
pub open spec fn is_pattern(pattern: Seq<u8>) -> bool {
    pattern.len() > 0 && pattern[0] != 33
}

/// The action and the pattern of a line are what it says; a line that says something of a pattern is not
/// refused.
pub proof fn law_parted(number: usize, line: Seq<u8>)
    ensures
        rules::parted(number, line) matches Ok((action, pattern)) ==> says(line, action, pattern)
            && is_pattern(pattern),
        forall|action: RuleAction, pattern: Seq<u8>| #[trigger]
            says(line, action, pattern) && is_pattern(pattern) ==> rules::parted(number, line)
                is Ok,
        rules::parted(number, line) matches Err(e) ==> e matches Error::Rule(at, _) && at
            == number,
{
    let two = line.take(2);
    if rules::action_of(number, line) is Ok {
        let (action, pattern) = rules::action_of(number, line)->Ok_0;
        if pattern.len() > 0 {
            assert(pattern.take(1) =~= seq![pattern[0]]);
            assert(seq![pattern[0]][0] == pattern[0]);
            assert(seq![33u8][0] == 33u8);
        }
        match action {
            RuleAction::CopyWithMode(mode) => {
                let rest = line.skip(1);
                let at = rules::find(rest, 32);
                let d = rest.take(at);
                lemma_found(rest, 32);
                assert(line.take(1)[0] == line[0]);
                assert(seq![42u8][0] == 42u8);
                assert(line =~= (seq![42u8] + d) + seq![32u8] + pattern);
                assert(48 <= d[0] <= 55 && 48 <= d[1] <= 55 && 48 <= d[2] <= 55 && 48 <= d[3]
                    <= 55);
            },
            _ => {
                assert(line =~= two + pattern);
            },
        }
        assert(says(line, action, pattern));
    }
    assert forall|action: RuleAction, pattern: Seq<u8>| #[trigger]
        says(line, action, pattern) && is_pattern(pattern) implies rules::parted(number, line)
        is Ok by {
        lemma_said(number, line, action, pattern);
        assert(pattern.take(1) =~= seq![pattern[0]]);
        assert(seq![33u8][0] == 33u8);
        assert(seq![pattern[0]][0] == pattern[0]);
    }
}

/// What is found of a byte is it.
proof fn lemma_found(s: Seq<u8>, b: u8)
    ensures
        0 <= rules::find(s, b) <= s.len(),
        rules::find(s, b) < s.len() ==> s[rules::find(s, b)] == b,
    decreases s.len(),
{
    if s.len() > 0 && s[0] != b {
        lemma_found(s.skip(1), b);
    }
}

/// A line is read as it says.
proof fn lemma_said(number: usize, line: Seq<u8>, action: RuleAction, pattern: Seq<u8>)
    requires
        says(line, action, pattern),
    ensures
        rules::action_of(number, line) == Ok::<_, Trouble>((action, pattern)),
{
    assert(seq![45u8, 32u8][0] == 45u8);
    assert(seq![43u8, 32u8][0] == 43u8);
    assert(seq![61u8, 32u8][0] == 61u8);
    assert(seq![42u8][0] == 42u8);
    if line.len() >= 2 {
        assert(line.take(2)[0] == line[0]);
        assert(line.take(2) =~= seq![line[0], line[1]]);
    }
    assert(line.take(1) =~= seq![line[0]]);
    match action {
        RuleAction::CopyWithMode(mode) => {
            let d = choose|d: Seq<u8>|
                {
                    &&& d.len() == 4
                    &&& forall|i: int| 0 <= i < 4 ==> 48 <= #[trigger] d[i] <= 55
                    &&& line == #[trigger] (seq![42u8] + d) + seq![32u8] + pattern
                    &&& mode == (d[0] - 48) * 512 + (d[1] - 48) * 64 + (d[2] - 48) * 8 + (d[3]
                        - 48)
                };
            let rest = line.skip(1);
            assert(rest =~= d + (seq![32u8] + pattern));
            lemma_find(d, seq![32u8] + pattern, 32);
            assert((seq![32u8] + pattern)[0] == 32);
            assert(rest.take(4) =~= d);
            assert(rest.skip(5) =~= pattern);
            assert(48 <= d[0] <= 55 && 48 <= d[1] <= 55 && 48 <= d[2] <= 55 && 48 <= d[3] <= 55);
        },
        _ => {
            assert(line.skip(2) =~= pattern);
        },
    }
}

/// Whether a line says nothing: it is empty, or begins with a number sign.
pub open spec fn is_idle(line: Seq<u8>) -> bool {
    line.len() == 0 || line[0] == 35
}

/// Whether a rule is the one that a line says.
pub open spec fn is_rule(line: Seq<u8>, rule: RuleModel) -> bool {
    exists|pattern: Seq<u8>| #[trigger]
        says(line, rule.action, pattern) && is_pattern(pattern) && rule.globs == glob::kept(pattern)
}

/// Whether the rules are those of the lines with the numbers in `picks`, in the order of the lines, and
/// no other of the first `count` lines says anything.
pub open spec fn picked(
    list: Seq<Seq<u8>>,
    count: nat,
    found: Seq<RuleModel>,
    picks: Seq<int>,
) -> bool {
    &&& picks.len() == found.len()
    &&& forall|k: int| 0 <= k < picks.len() ==> 0 <= #[trigger] picks[k] < count
    &&& forall|j: int, k: int|
        0 <= j < k < picks.len() ==> #[trigger] picks[j] < #[trigger] picks[k]
    &&& forall|k: int|
        #![trigger picks[k]]
        0 <= k < picks.len() ==> !is_idle(list[picks[k]]) && is_rule(list[picks[k]], found[k])
    &&& forall|i: int|
        0 <= i < count && !is_idle(#[trigger] list[i]) ==> picks.contains(i)
}

/// The rules that are read are those that the lines say, in their order; none of the lines that say
/// something is passed over.
pub proof fn law_rules(list: Seq<Seq<u8>>, count: nat)
    requires
        count <= list.len(),
    ensures
        rules::rules_of(list, count) matches Ok(found) ==> exists|picks: Seq<int>| #[trigger]
            picked(list, count, found, picks),
    decreases count,
{
    if count == 0 {
        let none = Seq::<RuleModel>::empty();
        assert(rules::rules_of(list, count)->Ok_0 == none);
        assert(picked(list, count, none, Seq::empty()));
    } else if rules::rules_of(list, count) is Ok {
        let n = (count - 1) as nat;
        let line = list[count - 1];
        law_rules(list, n);
        let before = rules::rules_of(list, n)->Ok_0;
        let picks = choose|picks: Seq<int>| #[trigger] picked(list, n, before, picks);
        if is_idle(line) {
            assert forall|i: int| 0 <= i < count && !is_idle(#[trigger] list[i]) implies picks.contains(
                i,
            ) by {}
            assert(rules::rules_of(list, count)->Ok_0 == before);
            assert(picked(list, count, before, picks));
        } else {
            let rule = rules::rule_of(count as usize, line)->Ok_0;
            let found = before.push(rule);
            let more = picks.push(count - 1);
            law_parted(count as usize, line);
            assert(is_rule(line, rule));
            assert forall|k: int|
                #![trigger more[k]]
                0 <= k < more.len() implies !is_idle(list[more[k]]) && is_rule(
                list[more[k]],
                found[k],
            ) && 0 <= more[k] < count by {
                if k < picks.len() {
                    assert(more[k] == picks[k]);
                }
            }
            assert forall|j: int, k: int| 0 <= j < k < more.len() implies #[trigger] more[j]
                < #[trigger] more[k] by {
                assert(more[j] == picks[j]);
                if k < picks.len() {
                    assert(more[k] == picks[k]);
                }
            }
            assert forall|i: int| 0 <= i < count && !is_idle(#[trigger] list[i]) implies more.contains(
                i,
            ) by {
                if i < n {
                    let k = choose|k: int| 0 <= k < picks.len() && picks[k] == i;
                    assert(more[k] == i);
                } else {
                    assert(more[picks.len() as int] == i);
                }
            }
            assert(rules::rules_of(list, count)->Ok_0 == found);
            assert(picked(list, count, found, more));
        }
    }
}

/// Whether a line says nothing, or a rule that can be matched.
pub open spec fn is_fine(line: Seq<u8>) -> bool {
    is_idle(line) || exists|action: RuleAction, pattern: Seq<u8>|
        {
            &&& #[trigger] says(line, action, pattern)
            &&& is_pattern(pattern)
            &&& glob::line_problem(pattern) is None
            &&& glob::build_problem(glob::kept(pattern)) is None
        }
}

/// A text of which each line says nothing or a rule that can be matched is not refused, and no other
/// text is accepted.
pub proof fn law_accepted(list: Seq<Seq<u8>>, count: nat)
    requires
        count <= list.len(),
    ensures
        rules::rules_of(list, count) is Ok <==> forall|i: int|
            0 <= i < count ==> is_fine(#[trigger] list[i]),
    decreases count,
{
    if count > 0 {
        let n = (count - 1) as nat;
        let line = list[count - 1];
        law_accepted(list, n);
        law_parted(count as usize, line);
        if !is_idle(line) {
            assert(is_fine(line) <==> rules::rule_of(count as usize, line) is Ok) by {
                if is_fine(line) {
                    let (action, pattern) = choose|action: RuleAction, pattern: Seq<u8>|
                        {
                            &&& #[trigger] says(line, action, pattern)
                            &&& is_pattern(pattern)
                            &&& glob::line_problem(pattern) is None
                            &&& glob::build_problem(glob::kept(pattern)) is None
                        };
                    lemma_said(count as usize, line, action, pattern);
                }
                if rules::rule_of(count as usize, line) is Ok {
                    let (action, pattern) = rules::parted(count as usize, line)->Ok_0;
                    assert(says(line, action, pattern));
                }
            }
        }
        if rules::rules_of(list, count) is Ok {
            assert forall|i: int| 0 <= i < count implies is_fine(#[trigger] list[i]) by {}
        }
        if forall|i: int| 0 <= i < count ==> is_fine(#[trigger] list[i]) {
            assert(is_fine(list[count - 1]));
        }
    }
}

} // verus!
