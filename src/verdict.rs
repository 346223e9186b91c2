use vstd::prelude::*;

verus! {

/// Handle of a penalty hook supplied by a rule module.
pub type PenalityCallbackFunction = usize;

/// Handle of a cross-rule callback supplied by a rule module.
pub type OtherRulesCallbackFunction = usize;

/// Handle of a turn hook supplied by a rule module.
pub type CallbackFunction = usize;

/// A rule forbids what was just done.
#[derive(Debug)]
pub struct Disallow {
    pub rule: String,
    pub msg: String,
    pub penality: Option<PenalityCallbackFunction>,
}

impl Disallow {
    pub fn new(rule: String, msg: String, penality: Option<PenalityCallbackFunction>) -> (r: Self)
        ensures
            r.rule == rule,
            r.msg == msg,
            r.penality == penality,
    {
        Disallow { rule, msg, penality }
    }
}

impl Clone for Disallow {
    fn clone(&self) -> (r: Self)
        ensures
            r == *self,
    {
        Disallow { rule: self.rule.clone(), msg: self.msg.clone(), penality: self.penality }
    }
}

/// What a player forgot.
#[derive(Debug)]
pub enum CardPlayerActionType {
    Say,
    Do,
    Other(String),
}

impl Clone for CardPlayerActionType {
    fn clone(&self) -> (r: Self)
        ensures
            r == *self,
    {
        match self {
            CardPlayerActionType::Say => CardPlayerActionType::Say,
            CardPlayerActionType::Do => CardPlayerActionType::Do,
            CardPlayerActionType::Other(s) => CardPlayerActionType::Other(s.clone()),
        }
    }
}

/// A player forgot to say or do something.
#[derive(Debug)]
pub struct ForgotSomething {
    pub msg: Option<String>,
    pub forgot_type: CardPlayerActionType,
    pub rule: Option<String>,
    pub penality: Option<PenalityCallbackFunction>,
    pub player_pseudo: String,
}

fn clone_opt(s: &Option<String>) -> (r: Option<String>)
    ensures
        r == *s,
{
    match s {
        Some(x) => Some(x.clone()),
        None => None,
    }
}

impl Clone for ForgotSomething {
    fn clone(&self) -> (r: Self)
        ensures
            r == *self,
    {
        ForgotSomething {
            msg: clone_opt(&self.msg),
            forgot_type: self.forgot_type.clone(),
            rule: clone_opt(&self.rule),
            penality: self.penality,
            player_pseudo: self.player_pseudo.clone(),
        }
    }
}

/// A penalty to give to a player.
#[derive(Debug)]
pub struct GivePenality {
    pub msg: Option<String>,
    pub rule: Option<String>,
    pub penality: Option<PenalityCallbackFunction>,
    pub player_index: usize,
}

/// A gameplay violation: always settled by a penalty, never a hard error.
#[derive(Debug)]
pub enum WrongPlayerInteraction {
    Disallow(Disallow),
    ForgotSomething(ForgotSomething),
    GivePenality(GivePenality),
}

impl WrongPlayerInteraction {
    pub fn forgot_doing(
        msg: Option<String>,
        rule: Option<String>,
        penality: Option<PenalityCallbackFunction>,
        player_pseudo: String,
    ) -> (r: Self)
        ensures
            r == WrongPlayerInteraction::ForgotSomething(
                ForgotSomething { msg, forgot_type: CardPlayerActionType::Do, rule, penality, player_pseudo },
            ),
    {
        WrongPlayerInteraction::ForgotSomething(
            ForgotSomething { forgot_type: CardPlayerActionType::Do, rule, penality, msg, player_pseudo },
        )
    }

    pub fn forgot_saying(
        msg: Option<String>,
        rule: Option<String>,
        penality: Option<PenalityCallbackFunction>,
        player_pseudo: String,
    ) -> (r: Self)
        ensures
            r == WrongPlayerInteraction::ForgotSomething(
                ForgotSomething { msg, forgot_type: CardPlayerActionType::Say, rule, penality, player_pseudo },
            ),
    {
        WrongPlayerInteraction::ForgotSomething(
            ForgotSomething { forgot_type: CardPlayerActionType::Say, rule, penality, msg, player_pseudo },
        )
    }
}

/// Whether an occurrence was needed by the basic rules or by a rule module.
#[derive(Debug)]
pub enum Necessary {
    BasicRule(bool),
    ImportedRule { necessary: bool, rule_name: String },
}

/// A rule module's verdict on one occurrence.
#[derive(Debug)]
pub enum MaoEventResultType {
    Ignored,
    Disallow(Disallow),
    ForgetSomething(ForgotSomething),
    /// The rule changes the turn itself; the default advance is skipped.
    OverrideBasicRule(CallbackFunction),
    /// A hook run before the turn changes.
    ExecuteBeforeTurnChange(CallbackFunction),
    /// A hook run after the turn changes.
    ExecuteAfterTurnChange(CallbackFunction),
}

/// A verdict, with an optional second-pass callback over the other verdicts.
#[derive(Debug)]
pub struct MaoEventResult {
    pub necessary: Necessary,
    pub res_type: MaoEventResultType,
    pub other_rules_callback: Option<OtherRulesCallbackFunction>,
}

impl MaoEventResult {
    pub fn new(necessary: Necessary, res_type: MaoEventResultType) -> (r: Self)
        ensures
            r.necessary == necessary,
            r.res_type == res_type,
            r.other_rules_callback is None,
    {
        MaoEventResult { necessary, res_type, other_rules_callback: None }
    }
}

pub open spec fn is_deferred(t: MaoEventResultType) -> bool {
    t is OverrideBasicRule || t is ExecuteBeforeTurnChange || t is ExecuteAfterTurnChange
}

/// The violations among `rs`, in order, as player-facing interactions.
pub open spec fn violations_of(rs: Seq<MaoEventResult>) -> Seq<WrongPlayerInteraction>
    decreases rs.len(),
{
    if rs.len() == 0 {
        Seq::empty()
    } else {
        let rest = violations_of(rs.drop_last());
        match rs.last().res_type {
            MaoEventResultType::Disallow(d) => rest.push(WrongPlayerInteraction::Disallow(d)),
            MaoEventResultType::ForgetSomething(f) => rest.push(WrongPlayerInteraction::ForgotSomething(f)),
            _ => rest,
        }
    }
}

/// The verdict kinds of `rs` that are deferred to the turn change, in order.
pub open spec fn deferred_of(rs: Seq<MaoEventResult>) -> Seq<MaoEventResultType>
    decreases rs.len(),
{
    if rs.len() == 0 {
        Seq::empty()
    } else if is_deferred(rs.last().res_type) {
        deferred_of(rs.drop_last()).push(rs.last().res_type)
    } else {
        deferred_of(rs.drop_last())
    }
}

/// Positions of the verdicts of `rs` that carry a cross-rule callback.
pub open spec fn with_callback(rs: Seq<MaoEventResult>) -> Seq<usize>
    decreases rs.len(),
{
    if rs.len() == 0 {
        Seq::empty()
    } else if rs.last().other_rules_callback is Some {
        with_callback(rs.drop_last()).push((rs.len() - 1) as usize)
    } else {
        with_callback(rs.drop_last())
    }
}

/// Positions of the verdicts of `rs` deferred to the turn change.
pub open spec fn deferred_positions(rs: Seq<MaoEventResult>) -> Seq<usize>
    decreases rs.len(),
{
    if rs.len() == 0 {
        Seq::empty()
    } else if is_deferred(rs.last().res_type) {
        deferred_positions(rs.drop_last()).push((rs.len() - 1) as usize)
    } else {
        deferred_positions(rs.drop_last())
    }
}

/// Positions of the verdicts of `rs` that are violations.
pub open spec fn violation_positions(rs: Seq<MaoEventResult>) -> Seq<usize>
    decreases rs.len(),
{
    if rs.len() == 0 {
        Seq::empty()
    } else if rs.last().res_type is Disallow || rs.last().res_type is ForgetSomething {
        violation_positions(rs.drop_last()).push((rs.len() - 1) as usize)
    } else {
        violation_positions(rs.drop_last())
    }
}

/// The hooks of `ts` to run before the turn changes, in order.
pub open spec fn before_hooks(ts: Seq<MaoEventResultType>) -> Seq<CallbackFunction>
    decreases ts.len(),
{
    if ts.len() == 0 {
        Seq::empty()
    } else {
        match ts.last() {
            MaoEventResultType::ExecuteBeforeTurnChange(h) => before_hooks(ts.drop_last()).push(h),
            _ => before_hooks(ts.drop_last()),
        }
    }
}

/// The hooks of `ts` to run after the turn changes, in order.
pub open spec fn after_hooks(ts: Seq<MaoEventResultType>) -> Seq<CallbackFunction>
    decreases ts.len(),
{
    if ts.len() == 0 {
        Seq::empty()
    } else {
        match ts.last() {
            MaoEventResultType::ExecuteAfterTurnChange(h) => after_hooks(ts.drop_last()).push(h),
            _ => after_hooks(ts.drop_last()),
        }
    }
}

/// What the first pass over the verdicts of one occurrence yields.
pub struct FirstPass {
    /// Every verdict ignored: the engine's default behaviour applies.
    pub all_ignored: bool,
    /// The violations, each to be penalized.
    pub violations: Vec<WrongPlayerInteraction>,
    /// Position of the verdict each violation comes from.
    pub violation_at: Vec<usize>,
    /// Positions of the verdicts deferred to the turn change, handed to the
    /// cross-rule callbacks.
    pub deferred: Vec<usize>,
    /// Positions of the verdicts whose cross-rule callback is to run next.
    pub cross_rule: Vec<usize>,
}

/// What is left to do to the turn once every verdict is known.
pub struct TurnPlan {
    pub before: Vec<CallbackFunction>,
    /// Whether the engine's default turn advance runs (no verdict overrides it).
    pub run_default: bool,
    pub after: Vec<CallbackFunction>,
}

/// The first pass of resolution: violations are collected, in order; when a
/// verdict is not ignored, every cross-rule callback is to run.
pub fn first_pass(results: &Vec<MaoEventResult>) -> (r: FirstPass)
    ensures
        r.all_ignored == forall|i: int| 0 <= i < results@.len() ==> (#[trigger] results@[i]).res_type is Ignored,
        r.violations@ == violations_of(results@),
        r.violation_at@ == violation_positions(results@),
        r.deferred@ == deferred_positions(results@),
        r.all_ignored ==> r.cross_rule@.len() == 0,
        !r.all_ignored ==> r.cross_rule@ == with_callback(results@),
{
    let mut all_ignored = true;
    let mut violations: Vec<WrongPlayerInteraction> = Vec::new();
    let mut cross_rule: Vec<usize> = Vec::new();
    let mut violation_at: Vec<usize> = Vec::new();
    let mut deferred: Vec<usize> = Vec::new();
    let mut i: usize = 0;
    while i < results.len()
        invariant
            i <= results@.len(),
            violation_at@ == violation_positions(results@.subrange(0, i as int)),
            deferred@ == deferred_positions(results@.subrange(0, i as int)),
            all_ignored == forall|j: int| 0 <= j < i ==> (#[trigger] results@[j]).res_type is Ignored,
            violations@ == violations_of(results@.subrange(0, i as int)),
            cross_rule@ == with_callback(results@.subrange(0, i as int)),
        decreases results@.len() - i,
    {
        let ghost s = results@.subrange(0, i + 1 as int);
        assert(s.drop_last() =~= results@.subrange(0, i as int));
        assert(s.last() == results@[i as int]);
        match &results[i].res_type {
            MaoEventResultType::Ignored => {},
            MaoEventResultType::Disallow(d) => {
                all_ignored = false;
                violations.push(WrongPlayerInteraction::Disallow(d.clone()));
                violation_at.push(i);
            },
            MaoEventResultType::ForgetSomething(f) => {
                all_ignored = false;
                violations.push(WrongPlayerInteraction::ForgotSomething(f.clone()));
                violation_at.push(i);
            },
            _ => {
                all_ignored = false;
                deferred.push(i);
            },
        }
        if results[i].other_rules_callback.is_some() {
            cross_rule.push(i);
        }
        i = i + 1;
    }
    assert(results@.subrange(0, results@.len() as int) =~= results@);
    if all_ignored {
        cross_rule = Vec::new();
    }
    FirstPass { all_ignored, violations, violation_at, deferred, cross_rule }
}

/// Appends the deferred verdict kinds of `rs` to `out`.
fn push_deferred(rs: &Vec<MaoEventResult>, out: &mut Vec<MaoEventResultType>)
    ensures
        final(out)@ == old(out)@ + deferred_of(rs@),
{
    let ghost start = out@;
    let mut i: usize = 0;
    while i < rs.len()
        invariant
            i <= rs@.len(),
            out@ == start + deferred_of(rs@.subrange(0, i as int)),
        decreases rs@.len() - i,
    {
        let ghost s = rs@.subrange(0, i + 1 as int);
        assert(s.drop_last() =~= rs@.subrange(0, i as int));
        assert(s.last() == rs@[i as int]);
        let t = match &rs[i].res_type {
            MaoEventResultType::OverrideBasicRule(h) => Some(MaoEventResultType::OverrideBasicRule(*h)),
            MaoEventResultType::ExecuteBeforeTurnChange(h) => Some(MaoEventResultType::ExecuteBeforeTurnChange(*h)),
            MaoEventResultType::ExecuteAfterTurnChange(h) => Some(MaoEventResultType::ExecuteAfterTurnChange(*h)),
            _ => None,
        };
        match t {
            Some(t) => {
                out.push(t);
                assert(out@ =~= start + deferred_of(s));
            },
            None => {},
        }
        i = i + 1;
    }
    assert(rs@.subrange(0, rs@.len() as int) =~= rs@);
}

/// The last step of resolution, over the first-pass verdicts and those the
/// cross-rule callbacks returned: the deferred ones, in collection order,
/// give the hooks to run before and after the turn change, and the default
/// advance runs exactly when none overrides it.
pub fn plan_turn(first: &Vec<MaoEventResult>, second: &Vec<MaoEventResult>) -> (r: TurnPlan)
    ensures
        ({
            let d = deferred_of(first@) + deferred_of(second@);
            &&& r.before@ == before_hooks(d)
            &&& r.after@ == after_hooks(d)
            &&& r.run_default == forall|i: int| 0 <= i < d.len() ==> !(#[trigger] d[i] is OverrideBasicRule)
        }),
{
    let mut d: Vec<MaoEventResultType> = Vec::new();
    push_deferred(first, &mut d);
    push_deferred(second, &mut d);
    assert(d@ =~= deferred_of(first@) + deferred_of(second@));
    let mut before: Vec<CallbackFunction> = Vec::new();
    let mut after: Vec<CallbackFunction> = Vec::new();
    let mut run_default = true;
    let mut i: usize = 0;
    while i < d.len()
        invariant
            i <= d@.len(),
            before@ == before_hooks(d@.subrange(0, i as int)),
            after@ == after_hooks(d@.subrange(0, i as int)),
            run_default == forall|j: int| 0 <= j < i ==> !(#[trigger] d@[j] is OverrideBasicRule),
        decreases d@.len() - i,
    {
        let ghost s = d@.subrange(0, i + 1 as int);
        assert(s.drop_last() =~= d@.subrange(0, i as int));
        assert(s.last() == d@[i as int]);
        match &d[i] {
            MaoEventResultType::OverrideBasicRule(_) => {
                run_default = false;
            },
            MaoEventResultType::ExecuteBeforeTurnChange(h) => {
                before.push(*h);
            },
            MaoEventResultType::ExecuteAfterTurnChange(h) => {
                after.push(*h);
            },
            _ => {},
        }
        i = i + 1;
    }
    assert(d@.subrange(0, d@.len() as int) =~= d@);
    TurnPlan { before, run_default, after }
}

} // verus!
