//! Machine parts and the workflows that sort them: every workflow sends a
//! part on, accepts it or rejects it, by the first of its rules that the part
//! meets.
use crate::text::{
    fields, lines, parse_unsigned, split, split_lines, split_once, split_once_spec, unsigned_value,
    InputError,
};
use vstd::array::array_as_slice;
use vstd::prelude::*;
use vstd::string::StringSliceAdditionalSpecFns;

verus! {

/// The workflows, and the parts to be sorted.
pub struct System {
    workflows: Vec<Workflow>,
    parts: Vec<Part>,
}

/// A part, rated in four categories.
#[derive(Clone, Copy, Debug, PartialEq, Eq, Structural)]
pub struct Part {
    pub x: u32,
    pub m: u32,
    pub a: u32,
    pub s: u32,
}

/// Parts whose ratings lie in ranges: in each category from the first number up
/// to, not including, the second.
#[derive(Clone, Copy, Debug)]
pub struct PartsRange {
    pub x: (u32, u32),
    pub m: (u32, u32),
    pub a: (u32, u32),
    pub s: (u32, u32),
}

/// A workflow: its name and its rules.
pub struct Workflow {
    name: Vec<u8>,
    rules: Vec<WorkflowRule>,
}

/// A rule: what is done with a part that meets the condition, or with any
/// part where there is no condition.
pub struct WorkflowRule {
    condition: Option<Condition>,
    action: Action,
}

/// A condition on the rating in one category: that it is greater, or less,
/// than a value.
#[derive(Clone, Copy, Debug, PartialEq, Eq, Structural)]
pub struct Condition {
    pub category: u8,
    pub operator: u8,
    pub value: u32,
}

/// What is done with a part.
pub enum Action {
    /// The part goes to the workflow of this name.
    SendTo(Vec<u8>),
    Accept,
    Reject,
}

/// A rule as mathematics.
pub struct RuleModel {
    pub condition: Option<Condition>,
    pub action: ActionModel,
}

/// An action as mathematics.
pub enum ActionModel {
    SendTo(Seq<u8>),
    Accept,
    Reject,
}

/// A workflow as mathematics.
pub struct WorkflowModel {
    pub name: Seq<u8>,
    pub rules: Seq<RuleModel>,
}

/// The sign `>`.
pub const GREATER: u8 = 62;

/// The sign `<`.
pub const LESS: u8 = 60;

/// The name of the workflow that every part starts in.
pub open spec fn first_name() -> Seq<u8> {
    seq![105u8, 110]
}

/// Whether the byte names a category: `x`, `m`, `a` or `s`.
pub open spec fn is_category(c: u8) -> bool {
    c == 120 || c == 109 || c == 97 || c == 115
}

/// Whether the condition is one that a part can be held to.
pub open spec fn condition_ok(c: Condition) -> bool {
    is_category(c.category) && (c.operator == GREATER || c.operator == LESS) && c.value
        < u32::MAX
}

/// The rating of a part in a category.
pub open spec fn rating(part: Part, category: u8) -> Option<u32> {
    if category == 120 {
        Some(part.x)
    } else if category == 109 {
        Some(part.m)
    } else if category == 97 {
        Some(part.a)
    } else if category == 115 {
        Some(part.s)
    } else {
        None
    }
}

/// Whether a part meets a condition.
pub open spec fn meets(part: Part, c: Condition) -> bool {
    if c.operator == GREATER {
        rating(part, c.category)->Some_0 > c.value
    } else {
        rating(part, c.category)->Some_0 < c.value
    }
}

/// Whether a part meets a rule: its condition, if it has one.
pub open spec fn rule_matches(rule: RuleModel, part: Part) -> bool {
    match rule.condition {
        Some(c) => meets(part, c),
        None => true,
    }
}

/// The place of the first rule from `from` on that a part meets, or the number
/// of rules.
pub open spec fn first_match(rules: Seq<RuleModel>, part: Part, from: int) -> int
    decreases rules.len() - from,
{
    if from < 0 || from >= rules.len() {
        rules.len() as int
    } else if rule_matches(rules[from], part) {
        from
    } else {
        first_match(rules, part, from + 1)
    }
}

/// The place of the first workflow from `from` on with the given name, or the
/// number of workflows.
pub open spec fn place_of(wfs: Seq<WorkflowModel>, name: Seq<u8>, from: int) -> int
    decreases wfs.len() - from,
{
    if from < 0 || from >= wfs.len() {
        wfs.len() as int
    } else if wfs[from].name == name {
        from
    } else {
        place_of(wfs, name, from + 1)
    }
}

/// Whether a part is accepted when it enters the workflow of the given name
/// and may pass `fuel` workflows; `None` where it meets no rule of a workflow,
/// is sent to a workflow that is not there, or has passed so many workflows.
pub open spec fn verdict(wfs: Seq<WorkflowModel>, part: Part, name: Seq<u8>, fuel: nat) -> Option<
    bool,
>
    decreases fuel,
{
    let at = place_of(wfs, name, 0);
    if fuel == 0 || at >= wfs.len() {
        None
    } else {
        let rule = first_match(wfs[at].rules, part, 0);
        if rule >= wfs[at].rules.len() {
            None
        } else {
            match wfs[at].rules[rule].action {
                ActionModel::Accept => Some(true),
                ActionModel::Reject => Some(false),
                ActionModel::SendTo(next) => verdict(wfs, part, next, (fuel - 1) as nat),
            }
        }
    }
}

/// The sum of the ratings of a part.
pub open spec fn ratings_total(part: Part) -> int {
    part.x + part.m + part.a + part.s
}

/// The sum of the ratings of those of the first `k` parts that are accepted.
pub open spec fn accepted_total(wfs: Seq<WorkflowModel>, parts: Seq<Part>, k: int) -> int
    decreases k,
{
    if k <= 0 {
        0
    } else {
        accepted_total(wfs, parts, k - 1) + if verdict(
            wfs,
            parts[k - 1],
            first_name(),
            wfs.len(),
        ) == Some(true) {
            ratings_total(parts[k - 1])
        } else {
            0
        }
    }
}

/// How many numbers a range holds.
pub open spec fn span(r: (u32, u32)) -> int {
    if r.1 > r.0 {
        r.1 - r.0
    } else {
        0
    }
}

/// How many parts have their ratings in the ranges.
pub open spec fn distinct(r: PartsRange) -> int {
    span(r.x) * span(r.m) * span(r.a) * span(r.s)
}

/// The range of the ratings in one category that meet a condition on it, or
/// that do not, among those of a range.
pub open spec fn restricted(range: (u32, u32), operator: u8, value: u32, matched: bool) -> (
    u32,
    u32,
) {
    if matched {
        if operator == GREATER {
            (
                if range.0 > value + 1 {
                    range.0
                } else {
                    (value + 1) as u32
                },
                range.1,
            )
        } else {
            (
                range.0,
                if range.1 < value {
                    range.1
                } else {
                    value
                },
            )
        }
    } else {
        if operator == GREATER {
            (
                range.0,
                if range.1 < value + 1 {
                    range.1
                } else {
                    (value + 1) as u32
                },
            )
        } else {
            (
                if range.0 > value {
                    range.0
                } else {
                    value
                },
                range.1,
            )
        }
    }
}

/// The parts of a range that meet a condition, or that do not.
pub open spec fn split_spec(r: PartsRange, c: Condition, matched: bool) -> PartsRange {
    if c.category == 120 {
        PartsRange { x: restricted(r.x, c.operator, c.value, matched), ..r }
    } else if c.category == 109 {
        PartsRange { m: restricted(r.m, c.operator, c.value, matched), ..r }
    } else if c.category == 97 {
        PartsRange { a: restricted(r.a, c.operator, c.value, matched), ..r }
    } else {
        PartsRange { s: restricted(r.s, c.operator, c.value, matched), ..r }
    }
}

/// How many parts of a range are accepted when they enter the rules of a
/// workflow at rule `rule` and may pass `fuel` workflows: the parts that meet
/// the rule go where it sends them, and the others go on to the next rule.
pub open spec fn accepted_in(
    wfs: Seq<WorkflowModel>,
    at: int,
    rule: int,
    r: PartsRange,
    fuel: nat,
) -> int
    decreases fuel, wfs[at].rules.len() - rule,
{
    if at < 0 || at >= wfs.len() || rule < 0 || rule >= wfs[at].rules.len() {
        0
    } else {
        let this = wfs[at].rules[rule];
        let (met, other) = match this.condition {
            Some(c) => (split_spec(r, c, true), Some(split_spec(r, c, false))),
            None => (r, None),
        };
        let here = match this.action {
            ActionModel::Accept => distinct(met),
            ActionModel::Reject => 0,
            ActionModel::SendTo(next) => if fuel == 0 {
                0
            } else {
                accepted_in(wfs, place_of(wfs, next, 0), 0, met, (fuel - 1) as nat)
            },
        };
        here + match other {
            Some(rest) => accepted_in(wfs, at, rule + 1, rest, fuel),
            None => 0,
        }
    }
}

/// The range of all parts: every rating from 1 to 4000.
pub open spec fn all_parts() -> PartsRange {
    PartsRange { x: (1, 4001), m: (1, 4001), a: (1, 4001), s: (1, 4001) }
}

/// Every condition of the workflows is one that a part can be held to.
pub open spec fn workflows_ok(wfs: Seq<WorkflowModel>) -> bool {
    forall|i: int, j: int|
        0 <= i < wfs.len() && 0 <= j < wfs[i].rules.len() ==> match (#[trigger] wfs[i].rules[j]).condition {
            Some(c) => condition_ok(c),
            None => true,
        }
}

/// The ranges that a condition parts a range into hold together as many
/// numbers as the range.
pub proof fn lemma_restricted(range: (u32, u32), operator: u8, value: u32)
    requires
        operator == GREATER || operator == LESS,
        value < u32::MAX,
    ensures
        span(restricted(range, operator, value, true)) + span(
            restricted(range, operator, value, false),
        ) == span(range),
{
}

/// The parts that meet a condition and those that do not are together the
/// parts of the range.
pub proof fn lemma_split(r: PartsRange, c: Condition)
    requires
        condition_ok(c),
    ensures
        distinct(split_spec(r, c, true)) + distinct(split_spec(r, c, false)) == distinct(r),
        distinct(split_spec(r, c, true)) >= 0,
        distinct(split_spec(r, c, false)) >= 0,
{
    lemma_restricted(r.x, c.operator, c.value);
    lemma_restricted(r.m, c.operator, c.value);
    lemma_restricted(r.a, c.operator, c.value);
    lemma_restricted(r.s, c.operator, c.value);
    let t = split_spec(r, c, true);
    let f = split_spec(r, c, false);
    lemma_distinct(t);
    lemma_distinct(f);
    if c.category == 120 {
        assert((span(t.x) + span(f.x)) * span(r.m) * span(r.a) * span(r.s) == span(t.x) * span(r.m)
            * span(r.a) * span(r.s) + span(f.x) * span(r.m) * span(r.a) * span(r.s))
            by (nonlinear_arith);
    } else if c.category == 109 {
        assert(span(r.x) * (span(t.m) + span(f.m)) * span(r.a) * span(r.s) == span(r.x) * span(t.m)
            * span(r.a) * span(r.s) + span(r.x) * span(f.m) * span(r.a) * span(r.s))
            by (nonlinear_arith);
    } else if c.category == 97 {
        assert(span(r.x) * span(r.m) * (span(t.a) + span(f.a)) * span(r.s) == span(r.x) * span(r.m)
            * span(t.a) * span(r.s) + span(r.x) * span(r.m) * span(f.a) * span(r.s))
            by (nonlinear_arith);
    } else {
        assert(span(r.x) * span(r.m) * span(r.a) * (span(t.s) + span(f.s)) == span(r.x) * span(r.m)
            * span(r.a) * span(t.s) + span(r.x) * span(r.m) * span(r.a) * span(f.s))
            by (nonlinear_arith);
    }
}

/// A range holds no fewer than no parts.
pub proof fn lemma_distinct(r: PartsRange)
    ensures
        0 <= distinct(r) <= 0xffff_ffff * 0xffff_ffff * 0xffff_ffff * 0xffff_ffff,
{
    let (a, b, c, d) = (span(r.x), span(r.m), span(r.a), span(r.s));
    assert(0 <= a * b <= 0xffff_ffff * 0xffff_ffff) by (nonlinear_arith)
        requires
            0 <= a <= 0xffff_ffff,
            0 <= b <= 0xffff_ffff,
    ;
    assert(0 <= a * b * c <= 0xffff_ffff * 0xffff_ffff * 0xffff_ffff) by (nonlinear_arith)
        requires
            0 <= a * b <= 0xffff_ffff * 0xffff_ffff,
            0 <= c <= 0xffff_ffff,
    ;
    assert(0 <= a * b * c * d <= 0xffff_ffff * 0xffff_ffff * 0xffff_ffff * 0xffff_ffff)
        by (nonlinear_arith)
        requires
            0 <= a * b * c <= 0xffff_ffff * 0xffff_ffff * 0xffff_ffff,
            0 <= d <= 0xffff_ffff,
    ;
}

/// The sum for the first parts is no more than the sum for more of them.
pub proof fn lemma_accepted_total_grows(wfs: Seq<WorkflowModel>, parts: Seq<Part>, a: int, b: int)
    requires
        0 <= a <= b,
    ensures
        0 <= accepted_total(wfs, parts, a) <= accepted_total(wfs, parts, b),
    decreases b,
{
    if b > 0 {
        if a < b {
            lemma_accepted_total_grows(wfs, parts, a, b - 1);
        } else {
            lemma_accepted_total_grows(wfs, parts, a - 1, b - 1);
        }
    }
}

/// Of the parts of a range, no more are accepted than there are.
pub proof fn lemma_accepted_in(
    wfs: Seq<WorkflowModel>,
    at: int,
    rule: int,
    r: PartsRange,
    fuel: nat,
)
    requires
        workflows_ok(wfs),
    ensures
        0 <= accepted_in(wfs, at, rule, r, fuel) <= distinct(r),
    decreases fuel, wfs[at].rules.len() - rule,
{
    lemma_distinct(r);
    if !(at < 0 || at >= wfs.len() || rule < 0 || rule >= wfs[at].rules.len()) {
        let this = wfs[at].rules[rule];
        match this.condition {
            Some(c) => {
                lemma_split(r, c);
                lemma_accepted_in(wfs, at, rule + 1, split_spec(r, c, false), fuel);
                match this.action {
                    ActionModel::SendTo(next) => {
                        if fuel > 0 {
                            lemma_accepted_in(
                                wfs,
                                place_of(wfs, next, 0),
                                0,
                                split_spec(r, c, true),
                                (fuel - 1) as nat,
                            );
                        }
                    },
                    _ => {},
                }
            },
            None => {
                match this.action {
                    ActionModel::SendTo(next) => {
                        if fuel > 0 {
                            lemma_accepted_in(wfs, place_of(wfs, next, 0), 0, r, (fuel - 1) as nat);
                        }
                    },
                    _ => {},
                }
            },
        }
    }
}

/// Whether two texts are the same.
pub fn same_bytes(a: &Vec<u8>, b: &Vec<u8>) -> (same: bool)
    ensures
        same == (a@ == b@),
{
    if a.len() != b.len() {
        return false;
    }
    let mut i: usize = 0;
    while i < a.len()
        invariant
            i <= a.len(),
            a.len() == b.len(),
            forall|j: int| 0 <= j < i ==> a@[j] == b@[j],
        decreases a.len() - i,
    {
        if a[i] != b[i] {
            return false;
        }
        i += 1;
    }
    proof {
        assert(a@ =~= b@);
    }
    true
}

impl Part {
    /// The rating of the part in a category.
    pub fn get(&self, category: u8) -> (r: Option<u32>)
        ensures
            r == rating(*self, category),
    {
        if category == 120 {
            Some(self.x)
        } else if category == 109 {
            Some(self.m)
        } else if category == 97 {
            Some(self.a)
        } else if category == 115 {
            Some(self.s)
        } else {
            None
        }
    }

    /// The sum of the ratings of the part.
    pub fn categories_total(&self) -> (r: u32)
        requires
            ratings_total(*self) <= u32::MAX,
        ensures
            r == ratings_total(*self),
    {
        self.x + self.m + self.a + self.s
    }
}

impl PartsRange {
    /// How many parts have their ratings in the ranges.
    pub fn n_distinct(&self) -> (r: u64)
        requires
            distinct(*self) <= u64::MAX,
        ensures
            r == distinct(*self),
    {
        let x = Self::len(self.x);
        let m = Self::len(self.m);
        let a = Self::len(self.a);
        let s = Self::len(self.s);
        if x == 0 || m == 0 || a == 0 || s == 0 {
            proof {
                assert(span(self.x) * span(self.m) * span(self.a) * span(self.s) == 0)
                    by (nonlinear_arith)
                    requires
                        span(self.x) == 0 || span(self.m) == 0 || span(self.a) == 0 || span(
                            self.s,
                        ) == 0,
                ;
            }
            return 0;
        }
        proof {
            let (a4, b4, c4, d4) = (span(self.x), span(self.m), span(self.a), span(self.s));
            assert(a4 * b4 <= a4 * b4 * c4 * d4 && a4 * b4 * c4 <= a4 * b4 * c4 * d4 && a4 * b4
                >= 0) by (nonlinear_arith)
                requires
                    a4 >= 1,
                    b4 >= 1,
                    c4 >= 1,
                    d4 >= 1,
            ;
        }
        x * m * a * s
    }

    /// How many numbers a range holds.
    fn len(r: (u32, u32)) -> (n: u64)
        ensures
            n == span(r),
    {
        if r.1 > r.0 {
            (r.1 - r.0) as u64
        } else {
            0
        }
    }

    /// The range of all parts.
    pub fn full_range() -> (r: Self)
        ensures
            r == all_parts(),
    {
        PartsRange { x: (1, 4001), m: (1, 4001), a: (1, 4001), s: (1, 4001) }
    }

    /// The parts of the range that meet a condition, and those that do not.
    pub fn split_by(&self, condition: &Condition) -> (r: (PartsRange, PartsRange))
        requires
            condition_ok(*condition),
        ensures
            r.0 == split_spec(*self, *condition, true),
            r.1 == split_spec(*self, *condition, false),
    {
        let mut matched = *self;
        let mut mismatched = *self;
        let (op, value) = (condition.operator, condition.value);
        if condition.category == 120 {
            matched.x = Self::restrict_single_range(self.x, op, value, true);
            mismatched.x = Self::restrict_single_range(self.x, op, value, false);
        } else if condition.category == 109 {
            matched.m = Self::restrict_single_range(self.m, op, value, true);
            mismatched.m = Self::restrict_single_range(self.m, op, value, false);
        } else if condition.category == 97 {
            matched.a = Self::restrict_single_range(self.a, op, value, true);
            mismatched.a = Self::restrict_single_range(self.a, op, value, false);
        } else {
            matched.s = Self::restrict_single_range(self.s, op, value, true);
            mismatched.s = Self::restrict_single_range(self.s, op, value, false);
        }
        (matched, mismatched)
    }

    /// The numbers of a range that are greater, or less, than a value, or that
    /// are not.
    pub fn restrict_single_range(range: (u32, u32), operator: u8, value: u32, matched: bool) -> (r:
        (u32, u32))
        requires
            operator == GREATER || operator == LESS,
            value < u32::MAX,
        ensures
            r == restricted(range, operator, value, matched),
    {
        if matched {
            if operator == GREATER {
                (
                    if range.0 > value + 1 {
                        range.0
                    } else {
                        value + 1
                    },
                    range.1,
                )
            } else {
                (
                    range.0,
                    if range.1 < value {
                        range.1
                    } else {
                        value
                    },
                )
            }
        } else {
            if operator == GREATER {
                (
                    range.0,
                    if range.1 < value + 1 {
                        range.1
                    } else {
                        value + 1
                    },
                )
            } else {
                (
                    if range.0 > value {
                        range.0
                    } else {
                        value
                    },
                    range.1,
                )
            }
        }
    }
}

impl Action {
    /// The action as mathematics.
    pub open spec fn view(&self) -> ActionModel {
        match self {
            Action::SendTo(name) => ActionModel::SendTo(name@),
            Action::Accept => ActionModel::Accept,
            Action::Reject => ActionModel::Reject,
        }
    }
}

impl WorkflowRule {
    /// The rule as mathematics.
    pub closed spec fn view(&self) -> RuleModel {
        RuleModel { condition: self.condition, action: self.action.view() }
    }

    /// A rule with the given condition and action.
    pub fn new(condition: Option<Condition>, action: Action) -> (r: Self)
        ensures
            r.view() == (RuleModel { condition, action: action.view() }),
    {
        WorkflowRule { condition, action }
    }

    /// Whether a part meets the rule.
    pub fn matches(&self, part: &Part) -> (b: bool)
        requires
            match self.view().condition {
                Some(c) => condition_ok(c),
                None => true,
            },
        ensures
            b == rule_matches(self.view(), *part),
    {
        match &self.condition {
            None => true,
            Some(condition) => {
                let rated = part.get(condition.category).unwrap();
                if condition.operator == GREATER {
                    rated > condition.value
                } else {
                    rated < condition.value
                }
            },
        }
    }
}

impl Workflow {
    /// The workflow as mathematics.
    pub closed spec fn view(&self) -> WorkflowModel {
        WorkflowModel {
            name: self.name@,
            rules: Seq::new(self.rules@.len(), |i: int| self.rules@[i].view()),
        }
    }

    /// A workflow with the given name and rules.
    pub fn new(name: Vec<u8>, rules: Vec<WorkflowRule>) -> (r: Self)
        ensures
            r.view().name == name@,
            r.view().rules == Seq::new(rules@.len(), |i: int| rules@[i].view()),
    {
        Workflow { name, rules }
    }

    /// The place of the first rule that a part meets, if it meets any.
    pub fn apply(&self, part: &Part) -> (r: Option<usize>)
        requires
            forall|j: int|
                0 <= j < self.view().rules.len() ==> match (#[trigger] self.view().rules[j]).condition {
                    Some(c) => condition_ok(c),
                    None => true,
                },
        ensures
            r is Some <==> first_match(self.view().rules, *part, 0) < self.view().rules.len(),
            r is Some ==> r->Some_0 == first_match(self.view().rules, *part, 0),
    {
        let ghost rules = self.view().rules;
        let mut i: usize = 0;
        while i < self.rules.len()
            invariant
                i <= self.rules.len(),
                rules == self.view().rules,
                rules.len() == self.rules.len(),
                forall|j: int|
                    0 <= j < rules.len() ==> match (#[trigger] rules[j]).condition {
                        Some(c) => condition_ok(c),
                        None => true,
                    },
                first_match(rules, *part, 0) == first_match(rules, *part, i as int),
            decreases self.rules.len() - i,
        {
            proof {
                assert(rules[i as int] == self.rules@[i as int].view());
            }
            if self.rules[i].matches(part) {
                return Some(i);
            }
            i += 1;
        }
        None
    }
}

impl System {
    /// The workflows as mathematics.
    pub closed spec fn view(&self) -> Seq<WorkflowModel> {
        Seq::new(self.workflows@.len(), |i: int| self.workflows@[i].view())
    }

    /// The parts.
    pub closed spec fn parts(&self) -> Seq<Part> {
        self.parts@
    }

    /// A system of the given workflows and parts.
    pub fn new(workflows: Vec<Workflow>, parts: Vec<Part>) -> (r: Self)
        ensures
            r.view() == Seq::new(workflows@.len(), |i: int| workflows@[i].view()),
            r.parts() == parts@,
    {
        System { workflows, parts }
    }

    /// The place of the workflow of a name, if there is one.
    fn find_workflow(&self, name: &Vec<u8>) -> (r: Option<usize>)
        ensures
            r is Some <==> place_of(self.view(), name@, 0) < self.view().len(),
            r is Some ==> r->Some_0 == place_of(self.view(), name@, 0),
    {
        let ghost wfs = self.view();
        let mut i: usize = 0;
        while i < self.workflows.len()
            invariant
                i <= self.workflows.len(),
                wfs == self.view(),
                wfs.len() == self.workflows.len(),
                place_of(wfs, name@, 0) == place_of(wfs, name@, i as int),
            decreases self.workflows.len() - i,
        {
            proof {
                assert(wfs[i as int] == self.workflows@[i as int].view());
            }
            if same_bytes(&self.workflows[i].name, name) {
                return Some(i);
            }
            i += 1;
        }
        None
    }

    /// Whether a part is accepted: it starts in the workflow `in` and goes
    /// where the workflows send it. `None` where a workflow has no rule for the
    /// part, the part is sent to a workflow that is not there, or it has passed
    /// as many workflows as there are and would go round in a circle.
    pub fn is_accepted(&self, part: &Part) -> (r: Option<bool>)
        requires
            workflows_ok(self.view()),
        ensures
            r == verdict(self.view(), *part, first_name(), self.view().len()),
    {
        let ghost wfs = self.view();
        let mut name: Vec<u8> = Vec::new();
        name.push(105);
        name.push(110);
        proof {
            assert(name@ =~= first_name());
        }
        let mut fuel: usize = self.workflows.len();
        loop
            invariant
                wfs == self.view(),
                wfs.len() == self.workflows.len(),
                workflows_ok(wfs),
                fuel <= wfs.len(),
                verdict(wfs, *part, first_name(), wfs.len()) == verdict(
                    wfs,
                    *part,
                    name@,
                    fuel as nat,
                ),
            decreases fuel,
        {
            if fuel == 0 {
                return None;
            }
            let at = match self.find_workflow(&name) {
                Some(at) => at,
                None => {
                    return None;
                },
            };
            proof {
                assert(wfs[at as int] == self.workflows@[at as int].view());
                assert forall|j: int| 0 <= j < wfs[at as int].rules.len() implies match (
                #[trigger] wfs[at as int].rules[j]).condition {
                    Some(c) => condition_ok(c),
                    None => true,
                } by {}
            }
            let rule = match self.workflows[at].apply(part) {
                Some(rule) => rule,
                None => {
                    return None;
                },
            };
            proof {
                assert(wfs[at as int].rules[rule as int] == self.workflows@[at as int].rules@[rule as int].view());
            }
            match &self.workflows[at].rules[rule].action {
                Action::Accept => {
                    return Some(true);
                },
                Action::Reject => {
                    return Some(false);
                },
                Action::SendTo(next) => {
                    name = Self::copy(next);
                },
            }
            fuel -= 1;
        }
    }

    /// A copy of a text.
    fn copy(text: &Vec<u8>) -> (r: Vec<u8>)
        ensures
            r@ == text@,
    {
        let mut r: Vec<u8> = Vec::new();
        let mut i: usize = 0;
        while i < text.len()
            invariant
                i <= text.len(),
                r@ == text@.take(i as int),
            decreases text.len() - i,
        {
            r.push(text[i]);
            proof {
                assert(text@.take(i + 1) =~= text@.take(i as int).push(text@[i as int]));
            }
            i += 1;
        }
        proof {
            assert(text@.take(text@.len() as int) =~= text@);
        }
        r
    }

    /// The sum of the ratings of the parts that are accepted, where it fits
    /// in 32 bits.
    pub fn checked_sum_accepted(&self) -> (r: Option<u32>)
        requires
            workflows_ok(self.view()),
        ensures
            0 <= accepted_total(self.view(), self.parts(), self.parts().len() as int),
            r == (if accepted_total(self.view(), self.parts(), self.parts().len() as int)
                <= u32::MAX {
                Some(accepted_total(self.view(), self.parts(), self.parts().len() as int) as u32)
            } else {
                None
            }),
    {
        let mut total: u64 = 0;
        let mut i: usize = 0;
        proof {
            lemma_accepted_total_grows(self.view(), self.parts(), 0, self.parts().len() as int);
        }
        while i < self.parts.len()
            invariant
                i <= self.parts.len(),
                workflows_ok(self.view()),
                self.parts.len() == self.parts().len(),
                total == accepted_total(self.view(), self.parts(), i as int),
                total <= u32::MAX,
            decreases self.parts.len() - i,
        {
            proof {
                lemma_accepted_total_grows(
                    self.view(),
                    self.parts(),
                    i + 1,
                    self.parts().len() as int,
                );
            }
            let accepted = self.is_accepted(&self.parts[i]);
            if accepted.is_some() && accepted.unwrap() {
                let part = &self.parts[i];
                total = total + part.x as u64 + part.m as u64 + part.a as u64 + part.s as u64;
                if total > 0xffff_ffff {
                    return None;
                }
            }
            i += 1;
        }
        Some(total as u32)
    }

    /// The sum of the ratings of the parts that are accepted.
    pub fn sum_accepted(&self) -> (r: u32)
        requires
            workflows_ok(self.view()),
            forall|i: int|
                0 <= i < self.parts().len() ==> ratings_total(#[trigger] self.parts()[i])
                    <= u32::MAX,
            forall|k: int|
                0 <= k <= self.parts().len() ==> (#[trigger] accepted_total(
                    self.view(),
                    self.parts(),
                    k,
                )) <= u32::MAX,
        ensures
            r == accepted_total(self.view(), self.parts(), self.parts().len() as int),
    {
        let mut total: u32 = 0;
        let mut i: usize = 0;
        while i < self.parts.len()
            invariant
                i <= self.parts.len(),
                workflows_ok(self.view()),
                forall|i: int|
                    0 <= i < self.parts().len() ==> ratings_total(#[trigger] self.parts()[i])
                        <= u32::MAX,
                forall|k: int|
                    0 <= k <= self.parts().len() ==> (#[trigger] accepted_total(
                        self.view(),
                        self.parts(),
                        k,
                    )) <= u32::MAX,
                total == accepted_total(self.view(), self.parts(), i as int),
            decreases self.parts.len() - i,
        {
            proof {
                assert(accepted_total(self.view(), self.parts(), i + 1) <= u32::MAX);
                assert(ratings_total(self.parts()[i as int]) <= u32::MAX);
            }
            let accepted = self.is_accepted(&self.parts[i]);
            if accepted.is_some() && accepted.unwrap() {
                total = total + self.parts[i].categories_total();
            }
            i += 1;
        }
        total
    }

    /// How many of all parts, with every rating from 1 to 4000, are accepted.
    pub fn n_distinct_accepted(&self) -> (r: u64)
        requires
            workflows_ok(self.view()),
        ensures
            r == accepted_in(
                self.view(),
                place_of(self.view(), first_name(), 0),
                0,
                all_parts(),
                self.view().len(),
            ),
    {
        let mut name: Vec<u8> = Vec::new();
        name.push(105);
        name.push(110);
        proof {
            assert(name@ =~= first_name());
            assert(distinct(all_parts()) == 256_000_000_000_000) by {
                assert(span((1u32, 4001u32)) == 4000);
                assert(4000 * 4000 * 4000 * 4000 == 256_000_000_000_000int) by (nonlinear_arith);
            }
        }
        match self.find_workflow(&name) {
            Some(at) => self.count_accepted(at, 0, PartsRange::full_range(), self.workflows.len()),
            None => 0,
        }
    }

    /// How many parts of a range are accepted when they enter the workflow at
    /// place `at` at its rule `rule`, and may pass `fuel` workflows.
    fn count_accepted(&self, at: usize, rule: usize, range: PartsRange, fuel: usize) -> (r: u64)
        requires
            workflows_ok(self.view()),
            at < self.view().len(),
            rule <= self.view()[at as int].rules.len(),
            distinct(range) <= 256_000_000_000_000,
        ensures
            r == accepted_in(self.view(), at as int, rule as int, range, fuel as nat),
        decreases fuel, self.view()[at as int].rules.len() - rule,
    {
        let ghost wfs = self.view();
        proof {
            assert(wfs[at as int] == self.workflows@[at as int].view());
        }
        if rule >= self.workflows[at].rules.len() {
            return 0;
        }
        proof {
            assert(wfs[at as int].rules[rule as int] == self.workflows@[at as int].rules@[rule as int].view());
            lemma_accepted_in(wfs, at as int, rule as int, range, fuel as nat);
        }
        let this = &self.workflows[at].rules[rule];
        let (met, other) = match &this.condition {
            Some(c) => {
                let (matched, mismatched) = range.split_by(c);
                proof {
                    lemma_split(range, *c);
                }
                (matched, Some(mismatched))
            },
            None => (range, None),
        };
        proof {
            lemma_distinct(met);
        }
        let here: u64 = match &this.action {
            Action::Accept => met.n_distinct(),
            Action::Reject => 0,
            Action::SendTo(next) => {
                if fuel == 0 {
                    0
                } else {
                    match self.find_workflow(next) {
                        Some(to) => {
                            proof {
                                lemma_accepted_in(wfs, to as int, 0, met, (fuel - 1) as nat);
                            }
                            self.count_accepted(to, 0, met, fuel - 1)
                        },
                        None => {
                            proof {
                                assert(accepted_in(
                                    wfs,
                                    place_of(wfs, next@, 0),
                                    0,
                                    met,
                                    (fuel - 1) as nat,
                                ) == 0);
                            }
                            0
                        },
                    }
                }
            },
        };
        match other {
            Some(rest) => {
                proof {
                    lemma_accepted_in(wfs, at as int, rule + 1, rest, fuel as nat);
                }
                here + self.count_accepted(at, rule + 1, rest, fuel)
            },
            None => here,
        }
    }
}

impl Condition {
    /// Reads a condition from the text between `from` and `to`: the letter of
    /// a category, `<` or `>`, and a value.
    pub fn from_bytes(text: &[u8], from: usize, to: usize) -> (r: Result<Condition, InputError>)
        requires
            from <= to <= text.len(),
        ensures
            r is Ok ==> condition_ok(r->Ok_0),
            r is Ok ==> to - from >= 2 && r->Ok_0.category == text@[from as int] && r->Ok_0.operator
                == text@[from + 1] && unsigned_value(
                text@.subrange(from + 2, to as int),
                u32::MAX as nat,
            ) == Some(r->Ok_0.value as nat),
            r == condition_of(text@.subrange(from as int, to as int)),
    {
        let ghost t = text@.subrange(from as int, to as int);
        if to - from < 2 {
            return Err(InputError::Syntax);
        }
        proof {
            assert(t.subrange(2, t.len() as int) =~= text@.subrange(from + 2, to as int));
            assert(t[0] == text@[from as int] && t[1] == text@[from + 1]);
        }
        let category = text[from];
        let operator = text[from + 1];
        let value = match parse_unsigned(text, from + 2, to, 0xffff_ffff) {
            Some(v) => v as u32,
            None => {
                return Err(InputError::Number);
            },
        };
        if !(category == 120 || category == 109 || category == 97 || category == 115) || !(
        operator == GREATER || operator == LESS) || value == u32::MAX {
            return Err(InputError::Value);
        }
        Ok(Condition { category, operator, value })
    }
}

impl Action {
    /// Reads an action from the text between `from` and `to`: `A` accepts, `R`
    /// rejects, and any other text names the workflow that a part is sent to.
    pub fn from_bytes(text: &[u8], from: usize, to: usize) -> (r: Action)
        requires
            from <= to <= text.len(),
        ensures
            r.view() == (if text@.subrange(from as int, to as int) == seq![82u8] {
                ActionModel::Reject
            } else if text@.subrange(from as int, to as int) == seq![65u8] {
                ActionModel::Accept
            } else {
                ActionModel::SendTo(text@.subrange(from as int, to as int))
            }),
    {
        let ghost t = text@.subrange(from as int, to as int);
        if to - from == 1 && text[from] == 82 {
            proof {
                assert(t =~= seq![82u8]);
            }
            return Action::Reject;
        }
        if to - from == 1 && text[from] == 65 {
            proof {
                assert(t =~= seq![65u8]);
                assert(t[0] != 82);
            }
            return Action::Accept;
        }
        proof {
            if t.len() == 1 {
                assert(t[0] == text@[from as int]);
            }
        }
        let mut name: Vec<u8> = Vec::new();
        let mut i: usize = from;
        while i < to
            invariant
                from <= i <= to <= text.len(),
                name@ == text@.subrange(from as int, i as int),
            decreases to - i,
        {
            name.push(text[i]);
            proof {
                assert(text@.subrange(from as int, i + 1) =~= text@.subrange(
                    from as int,
                    i as int,
                ).push(text@[i as int]));
            }
            i += 1;
        }
        Action::SendTo(name)
    }
}

/// The condition that a text stands for: the letter of a category, `<` or
/// `>`, and a value below the greatest number of 32 bits.
pub open spec fn condition_of(t: Seq<u8>) -> Result<Condition, InputError> {
    if t.len() < 2 {
        Err(InputError::Syntax)
    } else {
        match unsigned_value(t.subrange(2, t.len() as int), u32::MAX as nat) {
            None => Err(InputError::Number),
            Some(v) => if !is_category(t[0]) || !(t[1] == GREATER || t[1] == LESS) || v
                == u32::MAX {
                Err(InputError::Value)
            } else {
                Ok(Condition { category: t[0], operator: t[1], value: v as u32 })
            },
        }
    }
}

/// The action that a text stands for: `R` rejects, `A` accepts, and any other
/// text names the workflow that a part is sent to.
pub open spec fn action_of(t: Seq<u8>) -> ActionModel {
    if t == seq![82u8] {
        ActionModel::Reject
    } else if t == seq![65u8] {
        ActionModel::Accept
    } else {
        ActionModel::SendTo(t)
    }
}

/// The rule that a text stands for: an action, with or without a condition
/// and a colon before it.
pub open spec fn rule_of(t: Seq<u8>) -> Result<RuleModel, InputError> {
    match split_once_spec(t, seq![58u8]) {
        Some((c, a)) => match condition_of(c) {
            Err(e) => Err(e),
            Ok(condition) => Ok(RuleModel { condition: Some(condition), action: action_of(a) }),
        },
        None => Ok(RuleModel { condition: None, action: action_of(t) }),
    }
}

/// The rules that the first `k` texts stand for, or what is wrong with the
/// first of them that stands for none.
pub open spec fn rules_upto(fs: Seq<Seq<u8>>, k: int) -> Result<Seq<RuleModel>, InputError>
    decreases k,
{
    if k <= 0 {
        Ok(Seq::<RuleModel>::empty())
    } else {
        match rules_upto(fs, k - 1) {
            Err(e) => Err(e),
            Ok(rules) => match rule_of(fs[k - 1]) {
                Err(e) => Err(e),
                Ok(rule) => Ok(rules.push(rule)),
            },
        }
    }
}

/// The workflow that a line stands for: a name, and the rules in braces,
/// parted by commas.
pub open spec fn workflow_of(t: Seq<u8>) -> Result<WorkflowModel, InputError> {
    if t.len() == 0 {
        Err(InputError::Syntax)
    } else {
        match split_once_spec(t.drop_last(), seq![123u8]) {
            None => Err(InputError::Syntax),
            Some((name, body)) => match rules_upto(fields(body, 44), fields(body, 44).len() as int) {
                Err(e) => Err(e),
                Ok(rules) => Ok(WorkflowModel { name, rules }),
            },
        }
    }
}

/// The ratings that the first `k` texts stand for, each after a letter and
/// `=`, or what is wrong with the first of them that stands for none.
pub open spec fn ratings_upto(fs: Seq<Seq<u8>>, k: int) -> Result<Seq<u32>, InputError>
    decreases k,
{
    if k <= 0 {
        Ok(Seq::<u32>::empty())
    } else {
        match ratings_upto(fs, k - 1) {
            Err(e) => Err(e),
            Ok(ratings) => if fs[k - 1].len() < 2 {
                Err(InputError::Syntax)
            } else {
                match unsigned_value(fs[k - 1].subrange(2, fs[k - 1].len() as int), u32::MAX as nat) {
                    None => Err(InputError::Number),
                    Some(v) => Ok(ratings.push(v as u32)),
                }
            },
        }
    }
}

/// The part that a line stands for: in braces, the four ratings, parted by
/// commas.
pub open spec fn part_of(t: Seq<u8>) -> Result<Part, InputError> {
    if t.len() < 2 {
        Err(InputError::Syntax)
    } else {
        let fs = fields(t.subrange(1, t.len() - 1), 44);
        if fs.len() < 4 {
            Err(InputError::Syntax)
        } else {
            match ratings_upto(fs, 4) {
                Err(e) => Err(e),
                Ok(v) => Ok(Part { x: v[0], m: v[1], a: v[2], s: v[3] }),
            }
        }
    }
}

/// The workflows that the first `k` lines stand for, or what is wrong with
/// the first of them that stands for none.
pub open spec fn workflows_upto(ls: Seq<Seq<u8>>, k: int) -> Result<Seq<WorkflowModel>, InputError>
    decreases k,
{
    if k <= 0 {
        Ok(Seq::<WorkflowModel>::empty())
    } else {
        match workflows_upto(ls, k - 1) {
            Err(e) => Err(e),
            Ok(ws) => match workflow_of(ls[k - 1]) {
                Err(e) => Err(e),
                Ok(w) => Ok(ws.push(w)),
            },
        }
    }
}

/// The parts that the first `k` lines stand for, or what is wrong with the
/// first of them that stands for none.
pub open spec fn parts_upto(ls: Seq<Seq<u8>>, k: int) -> Result<Seq<Part>, InputError>
    decreases k,
{
    if k <= 0 {
        Ok(Seq::<Part>::empty())
    } else {
        match parts_upto(ls, k - 1) {
            Err(e) => Err(e),
            Ok(ps) => match part_of(ls[k - 1]) {
                Err(e) => Err(e),
                Ok(p) => Ok(ps.push(p)),
            },
        }
    }
}

/// The system that a text stands for: the workflows, one on each line, an
/// empty line, and the parts, one on each line.
pub open spec fn system_of(text: Seq<u8>) -> Result<(Seq<WorkflowModel>, Seq<Part>), InputError> {
    match split_once_spec(text, seq![10u8, 10u8]) {
        None => Err(InputError::Syntax),
        Some((first, second)) => match workflows_upto(lines(first), lines(first).len() as int) {
            Err(e) => Err(e),
            Ok(ws) => match parts_upto(lines(second), lines(second).len() as int) {
                Err(e) => Err(e),
                Ok(ps) => Ok((ws, ps)),
            },
        },
    }
}

/// What is wrong with a rule stays wrong when more rules are looked at.
pub proof fn lemma_rules_upto(fs: Seq<Seq<u8>>, k: int, m: int)
    requires
        k <= m,
        rules_upto(fs, k) is Err,
    ensures
        rules_upto(fs, m) == rules_upto(fs, k),
    decreases m,
{
    if k < m {
        lemma_rules_upto(fs, k, m - 1);
    }
}

/// What is wrong with a rating stays wrong when more ratings are looked at.
pub proof fn lemma_ratings_upto(fs: Seq<Seq<u8>>, k: int, m: int)
    requires
        k <= m,
        ratings_upto(fs, k) is Err,
    ensures
        ratings_upto(fs, m) == ratings_upto(fs, k),
    decreases m,
{
    if k < m {
        lemma_ratings_upto(fs, k, m - 1);
    }
}

/// What is wrong with a workflow stays wrong when more lines are looked at.
pub proof fn lemma_workflows_upto(ls: Seq<Seq<u8>>, k: int, m: int)
    requires
        k <= m,
        workflows_upto(ls, k) is Err,
    ensures
        workflows_upto(ls, m) == workflows_upto(ls, k),
    decreases m,
{
    if k < m {
        lemma_workflows_upto(ls, k, m - 1);
    }
}

/// What is wrong with a part stays wrong when more lines are looked at.
pub proof fn lemma_parts_upto(ls: Seq<Seq<u8>>, k: int, m: int)
    requires
        k <= m,
        parts_upto(ls, k) is Err,
    ensures
        parts_upto(ls, m) == parts_upto(ls, k),
    decreases m,
{
    if k < m {
        lemma_parts_upto(ls, k, m - 1);
    }
}

impl System {
    /// Reads a rule from the text between `from` and `to`: an action, with or
    /// without a condition and a colon before it.
    fn read_rule(text: &[u8], from: usize, to: usize) -> (r: Result<WorkflowRule, InputError>)
        requires
            from <= to <= text.len(),
        ensures
            r is Ok ==> match r->Ok_0.view().condition {
                Some(c) => condition_ok(c),
                None => true,
            },
            match (r, rule_of(text@.subrange(from as int, to as int))) {
                (Ok(rule), Ok(model)) => rule.view() == model,
                (Err(e), Err(f)) => e == f,
                _ => false,
            },
    {
        let colon: [u8; 1] = [58];
        proof {
            assert(colon@ =~= seq![58u8]);
        }
        match split_once(text, from, to, array_as_slice(&colon)) {
            Some(pos) => {
                let condition = match Condition::from_bytes(text, from, pos) {
                    Ok(c) => c,
                    Err(e) => {
                        return Err(e);
                    },
                };
                Ok(WorkflowRule::new(Some(condition), Action::from_bytes(text, pos + 1, to)))
            },
            None => Ok(WorkflowRule::new(None, Action::from_bytes(text, from, to))),
        }
    }

    /// Reads a workflow from the text between `from` and `to`: a name, and the
    /// rules in braces, parted by commas.
    #[verifier::loop_isolation(false)]
    fn read_workflow(text: &[u8], from: usize, to: usize) -> (r: Result<Workflow, InputError>)
        requires
            from <= to <= text.len(),
        ensures
            r is Ok ==> forall|j: int|
                0 <= j < r->Ok_0.view().rules.len() ==> match (#[trigger] r->Ok_0.view().rules[j]).condition {
                    Some(c) => condition_ok(c),
                    None => true,
                },
            match (r, workflow_of(text@.subrange(from as int, to as int))) {
                (Ok(w), Ok(model)) => w.view() == model,
                (Err(e), Err(f)) => e == f,
                _ => false,
            },
    {
        let ghost t = text@.subrange(from as int, to as int);
        let brace: [u8; 1] = [123];
        if to == from {
            return Err(InputError::Syntax);
        }
        proof {
            assert(brace@ =~= seq![123u8]);
            assert(t.drop_last() =~= text@.subrange(from as int, to - 1));
        }
        let open = match split_once(text, from, to - 1, array_as_slice(&brace)) {
            Some(pos) => pos,
            None => {
                return Err(InputError::Syntax);
            },
        };
        let ghost body = text@.subrange(open + 1, to - 1);
        let ghost fs = fields(body, 44);
        let mut name: Vec<u8> = Vec::new();
        let mut i: usize = from;
        while i < open
            invariant
                from <= i <= open < text.len(),
                name@ == text@.subrange(from as int, i as int),
            decreases open - i,
        {
            name.push(text[i]);
            proof {
                assert(name@ =~= text@.subrange(from as int, i + 1));
            }
            i += 1;
        }
        let spans = split(text, open + 1, to - 1, 44);
        let mut rules: Vec<WorkflowRule> = Vec::new();
        let ghost mut models: Seq<RuleModel> = Seq::empty();
        let mut k: usize = 0;
        while k < spans.len()
            invariant
                k <= spans.len(),
                to <= text.len(),
                crate::text::spans_hold(text@, open + 1, to - 1, spans@, fs),
                forall|j: int|
                    0 <= j < rules.len() ==> match (#[trigger] rules@[j]).view().condition {
                        Some(c) => condition_ok(c),
                        None => true,
                    },
                rules@.len() == k,
                models.len() == k,
                forall|j: int| 0 <= j < k ==> (#[trigger] rules@[j]).view() == models[j],
                rules_upto(fs, k as int) == Ok::<Seq<RuleModel>, InputError>(models),
            decreases spans.len() - k,
        {
            proof {
                assert(text@.subrange(spans@[k as int].0 as int, spans@[k as int].1 as int) == fs[k as int]);
            }
            match Self::read_rule(text, spans[k].0, spans[k].1) {
                Ok(rule) => {
                    proof {
                        models = models.push(rule.view());
                    }
                    rules.push(rule);
                },
                Err(e) => {
                    proof {
                        assert(rules_upto(fs, k + 1) == Err::<Seq<RuleModel>, InputError>(e));
                        lemma_rules_upto(fs, k + 1, fs.len() as int);
                    }
                    return Err(e);
                },
            }
            k += 1;
        }
        let w = Workflow::new(name, rules);
        proof {
            assert forall|j: int| 0 <= j < w.view().rules.len() implies match (
            #[trigger] w.view().rules[j]).condition {
                Some(c) => condition_ok(c),
                None => true,
            } by {
                assert(w.view().rules[j] == rules@[j].view());
            }
            assert(w.view().rules =~= models);
        }
        Ok(w)
    }

    /// Reads a part from the text between `from` and `to`: in braces, the four
    /// ratings, each after the letter of its category and `=`, parted by commas.
    #[verifier::loop_isolation(false)]
    fn read_part(text: &[u8], from: usize, to: usize) -> (r: Result<Part, InputError>)
        requires
            from <= to <= text.len(),
        ensures
            r == part_of(text@.subrange(from as int, to as int)),
    {
        let ghost t = text@.subrange(from as int, to as int);
        if to - from < 2 {
            return Err(InputError::Syntax);
        }
        proof {
            assert(t.subrange(1, t.len() - 1) =~= text@.subrange(from + 1, to - 1));
        }
        let ghost fs = fields(t.subrange(1, t.len() - 1), 44);
        let spans = split(text, from + 1, to - 1, 44);
        if spans.len() < 4 {
            return Err(InputError::Syntax);
        }
        let mut ratings: Vec<u32> = Vec::new();
        let mut k: usize = 0;
        while k < 4
            invariant
                k <= 4,
                spans.len() >= 4,
                crate::text::spans_hold(text@, from + 1, to - 1, spans@, fs),
                ratings_upto(fs, k as int) == Ok::<Seq<u32>, InputError>(ratings@),
                ratings@.len() == k,
            decreases 4 - k,
        {
            let (a, b) = spans[k];
            proof {
                assert(text@.subrange(a as int, b as int) == fs[k as int]);
            }
            if b - a < 2 {
                proof {
                    assert(ratings_upto(fs, k + 1) == Err::<Seq<u32>, InputError>(InputError::Syntax));
                    lemma_ratings_upto(fs, k + 1, 4);
                }
                return Err(InputError::Syntax);
            }
            proof {
                assert(fs[k as int].subrange(2, fs[k as int].len() as int) =~= text@.subrange(
                    a + 2,
                    b as int,
                ));
            }
            match parse_unsigned(text, a + 2, b, 0xffff_ffff) {
                Some(v) => {
                    ratings.push(v as u32);
                },
                None => {
                    proof {
                        assert(ratings_upto(fs, k + 1) == Err::<Seq<u32>, InputError>(
                            InputError::Number,
                        ));
                        lemma_ratings_upto(fs, k + 1, 4);
                    }
                    return Err(InputError::Number);
                },
            }
            k += 1;
        }
        Ok(Part { x: ratings[0], m: ratings[1], a: ratings[2], s: ratings[3] })
    }

    /// Reads a system: the workflows, one on each line, an empty line, and the
    /// parts, one on each line.
    #[verifier::loop_isolation(false)]
    pub fn from_bytes(text: &[u8]) -> (r: Result<System, InputError>)
        ensures
            r is Ok ==> workflows_ok(r->Ok_0.view()),
            match (r, system_of(text@)) {
                (Ok(system), Ok(model)) => system.view() == model.0 && system.parts() == model.1,
                (Err(e), Err(f)) => e == f,
                _ => false,
            },
    {
        let gap: [u8; 2] = [10, 10];
        proof {
            assert(gap@ =~= seq![10u8, 10u8]);
            assert(text@.subrange(0, text@.len() as int) =~= text@);
        }
        let middle = match split_once(text, 0, text.len(), array_as_slice(&gap)) {
            Some(pos) => pos,
            None => {
                return Err(InputError::Syntax);
            },
        };
        let first = vstd::slice::slice_subrange(text, 0, middle);
        let second = vstd::slice::slice_subrange(text, middle + 2, text.len());
        let wf_lines = split_lines(first);
        let ghost ls = lines(first@);
        let mut workflows: Vec<Workflow> = Vec::new();
        let ghost mut models: Seq<WorkflowModel> = Seq::empty();
        let mut i: usize = 0;
        while i < wf_lines.len()
            invariant
                i <= wf_lines.len(),
                crate::text::spans_hold(first@, 0, first@.len() as int, wf_lines@, lines(first@)),
                forall|k: int, j: int|
                    0 <= k < workflows.len() && 0 <= j < workflows@[k].view().rules.len() ==> match (
                    #[trigger] workflows@[k].view().rules[j]).condition {
                        Some(c) => condition_ok(c),
                        None => true,
                    },
                workflows@.len() == i,
                models.len() == i,
                forall|k: int| 0 <= k < i ==> (#[trigger] workflows@[k]).view() == models[k],
                workflows_upto(ls, i as int) == Ok::<Seq<WorkflowModel>, InputError>(models),
            decreases wf_lines.len() - i,
        {
            proof {
                assert(first@.subrange(wf_lines@[i as int].0 as int, wf_lines@[i as int].1 as int)
                    == ls[i as int]);
            }
            match Self::read_workflow(first, wf_lines[i].0, wf_lines[i].1) {
                Ok(w) => {
                    let ghost earlier = workflows@;
                    proof {
                        models = models.push(w.view());
                    }
                    workflows.push(w);
                    proof {
                        assert forall|k: int, j: int|
                            0 <= k < workflows.len() && 0 <= j < workflows@[k].view().rules.len() implies match (
                        #[trigger] workflows@[k].view().rules[j]).condition {
                            Some(c) => condition_ok(c),
                            None => true,
                        } by {
                            if k < earlier.len() {
                                assert(workflows@[k] == earlier[k]);
                            }
                        }
                    }
                },
                Err(e) => {
                    proof {
                        assert(workflows_upto(ls, i + 1) == Err::<Seq<WorkflowModel>, InputError>(e));
                        lemma_workflows_upto(ls, i + 1, ls.len() as int);
                    }
                    return Err(e);
                },
            }
            i += 1;
        }
        let part_lines = split_lines(second);
        let ghost ps = lines(second@);
        let mut parts: Vec<Part> = Vec::new();
        let mut i: usize = 0;
        while i < part_lines.len()
            invariant
                i <= part_lines.len(),
                crate::text::spans_hold(
                    second@,
                    0,
                    second@.len() as int,
                    part_lines@,
                    lines(second@),
                ),
                parts_upto(ps, i as int) == Ok::<Seq<Part>, InputError>(parts@),
            decreases part_lines.len() - i,
        {
            proof {
                assert(second@.subrange(
                    part_lines@[i as int].0 as int,
                    part_lines@[i as int].1 as int,
                ) == ps[i as int]);
            }
            match Self::read_part(second, part_lines[i].0, part_lines[i].1) {
                Ok(p) => {
                    parts.push(p);
                },
                Err(e) => {
                    proof {
                        assert(parts_upto(ps, i + 1) == Err::<Seq<Part>, InputError>(e));
                        lemma_parts_upto(ps, i + 1, ps.len() as int);
                    }
                    return Err(e);
                },
            }
            i += 1;
        }
        let system = System::new(workflows, parts);
        proof {
            assert forall|i: int, j: int|
                0 <= i < system.view().len() && 0 <= j < system.view()[i].rules.len() implies match (
            #[trigger] system.view()[i].rules[j]).condition {
                Some(c) => condition_ok(c),
                None => true,
            } by {
                assert(system.view()[i] == workflows@[i].view());
            }
            assert(system.view() =~= models);
        }
        Ok(system)
    }

    /// Reads a system.
    pub fn parse(s: &str) -> (r: Result<System, InputError>)
        ensures
            r is Ok ==> workflows_ok(r->Ok_0.view()),
            match (r, system_of(s.spec_bytes())) {
                (Ok(system), Ok(model)) => system.view() == model.0 && system.parts() == model.1,
                (Err(e), Err(f)) => e == f,
                _ => false,
            },
    {
        System::from_bytes(s.as_bytes())
    }
}

impl std::str::FromStr for System {
    type Err = InputError;

    fn from_str(s: &str) -> (r: Result<Self, Self::Err>) {
        System::parse(s)
    }
}

} // verus!
