//! The traversal state machine: flat line addressing over a passage's
//! tree, and the turn-by-turn runner that resolves zero-output transitions
//! (state mutation, branch selection, jump) until an observable line or
//! the end of the passage's reachable content.
use vstd::prelude::*;
use vstd::string::StrSliceExecFns;
use crate::conditional::{take_branch, branch_len, sel_from, BranchSel};
use crate::state::{update_state, mods_ok, apply_mods};
use crate::structs::{
    Branches, Choices, Config, ConfigV, Goto, LineV, Passage, PassageLine, SetCmd, Story, StoryV,
    Value, arms_view_upto, arms_flat_len, flat_len, lemma_arms_view_upto, lemma_lines_view_upto,
    lemma_seq_flat_len_nonneg, lemma_arms_flat_len_nonneg, lines_view, lookup, state_view,
    story_view, str_pairs_view,
};
use crate::text::str_eq;

verus! {

/// The line standing at flat address `n` of a line sequence: the sequence
/// itself occupies the first addresses; every address past it falls into
/// the arm bodies of the sequence's last line, when that is a branch node.
pub open spec fn line_at(lines: Seq<LineV>, n: int) -> Option<LineV>
    decreases lines, 1int, 0int,
{
    if 0 <= n < lines.len() {
        Some(lines[n])
    } else if lines.len() > 0 && n >= lines.len() && lines[lines.len() - 1] is Branches {
        arm_line_at(lines[lines.len() - 1]->Branches_0, 0, n - lines.len() as int)
    } else {
        None
    }
}

/// The line standing at relative address `m` of the arm bodies from arm
/// `i` on: each arm body covers its flattened length of addresses.
pub open spec fn arm_line_at(arms: Seq<(Seq<char>, Seq<LineV>)>, i: int, m: int) -> Option<LineV>
    decreases arms, 0int, arms.len() - i,
{
    if i < 0 || i >= arms.len() {
        None
    } else if line_at(arms[i].1, m) is Some {
        line_at(arms[i].1, m)
    } else {
        arm_line_at(arms, i + 1, m - flat_len(arms[i].1))
    }
}

/// No line stands at a negative relative address.
proof fn lemma_arm_line_at_neg(arms: Seq<(Seq<char>, Seq<LineV>)>, i: int, m: int)
    requires
        m < 0,
    ensures
        arm_line_at(arms, i, m) is None,
    decreases arms.len() - i,
{
    if 0 <= i < arms.len() {
        lemma_seq_flat_len_nonneg(arms[i].1, arms[i].1.len() as int);
        assert(line_at(arms[i].1, m) is None);
        lemma_arm_line_at_neg(arms, i + 1, m - flat_len(arms[i].1));
    }
}

/// One resolution step of the state machine.
pub enum StepV {
    /// An observable line is produced; the configuration advances.
    Out(LineV, ConfigV),
    /// A zero-output transition; resolution continues.
    Silent(ConfigV),
    /// The cursor stands at or past the end of the reachable content.
    Ended,
    /// The step would fail: a missing passage or variable, a malformed or
    /// mixed-kind condition, a mutation that does not apply, or a cursor
    /// or length beyond the machine range.
    Stuck,
}

/// What one call to the runner yields.
pub enum NextOut {
    /// An observable line.
    Line(LineV),
    /// The end of the current passage's reachable content.
    End,
}

/// One resolution step from a configuration, consuming `input`.
pub open spec fn step_v(story: StoryV, cfg: ConfigV, input: Seq<char>) -> StepV {
    match lookup(story, cfg.passage) {
        None => StepV::Stuck,
        Some(lines) => {
            if flat_len(lines) > usize::MAX as int {
                StepV::Stuck
            } else {
                match line_at(lines, cfg.line) {
                    None => StepV::Ended,
                    Some(l) => match l {
                        LineV::SetCmd(mods) => {
                            if mods_ok(cfg.state, mods, mods.len() as int) && cfg.line + 1
                                <= usize::MAX as int {
                                StepV::Silent(
                                    ConfigV {
                                        line: cfg.line + 1,
                                        state: apply_mods(cfg.state, mods, mods.len() as int),
                                        ..cfg
                                    },
                                )
                            } else {
                                StepV::Stuck
                            }
                        },
                        LineV::Branches(arms) => {
                            if cfg.line + 1 + arms_flat_len(arms, arms.len() as int)
                                <= usize::MAX as int {
                                match sel_from(arms, cfg.state, 0, 1) {
                                    BranchSel::Taken(s) => StepV::Silent(
                                        ConfigV { line: cfg.line + s, ..cfg },
                                    ),
                                    BranchSel::Fallthrough(s) => StepV::Silent(
                                        ConfigV { line: cfg.line + s, ..cfg },
                                    ),
                                    _ => StepV::Stuck,
                                }
                            } else {
                                StepV::Stuck
                            }
                        },
                        LineV::Goto(dest) => StepV::Silent(
                            ConfigV { passage: dest, line: 0, ..cfg },
                        ),
                        LineV::Choices(cs) => match lookup(cs, input) {
                            Some(dest) => StepV::Silent(
                                ConfigV { passage: dest, line: 0, ..cfg },
                            ),
                            None => {
                                if input.len() == 0 {
                                    StepV::Out(l, cfg)
                                } else {
                                    StepV::Out(LineV::InvalidChoice, cfg)
                                }
                            },
                        },
                        LineV::Continue => {
                            if cfg.line + 1 <= usize::MAX as int {
                                StepV::Silent(ConfigV { line: cfg.line + 1, ..cfg })
                            } else {
                                StepV::Stuck
                            }
                        },
                        _ => {
                            if cfg.line + 1 <= usize::MAX as int {
                                StepV::Out(l, ConfigV { line: cfg.line + 1, ..cfg })
                            } else {
                                StepV::Stuck
                            }
                        },
                    },
                }
            }
        },
    }
}

/// The observable result of resolving from `cfg` within `n` steps: `None`
/// when resolution needs more steps, or would fail.  The supplied input is
/// consumed by the first step; every later step sees empty input.
pub open spec fn resolve_within(story: StoryV, cfg: ConfigV, input: Seq<char>, n: nat) -> Option<
    (ConfigV, NextOut),
>
    decreases n,
{
    if n == 0 {
        None
    } else {
        match step_v(story, cfg, input) {
            StepV::Stuck => None,
            StepV::Ended => Some((cfg, NextOut::End)),
            StepV::Out(l, c2) => Some((c2, NextOut::Line(l))),
            StepV::Silent(c2) => resolve_within(story, c2, Seq::empty(), (n - 1) as nat),
        }
    }
}

/// A resolution that finishes within `n1` steps finishes identically
/// within any larger allowance.
pub proof fn lemma_resolve_mono(story: StoryV, cfg: ConfigV, input: Seq<char>, n1: nat, n2: nat)
    requires
        n1 <= n2,
        resolve_within(story, cfg, input, n1) is Some,
    ensures
        resolve_within(story, cfg, input, n2) == resolve_within(story, cfg, input, n1),
    decreases n1,
{
    if n1 > 0 {
        match step_v(story, cfg, input) {
            StepV::Silent(c2) => {
                lemma_resolve_mono(story, c2, Seq::empty(), (n1 - 1) as nat, (n2 - 1) as nat);
            },
            _ => {},
        }
    }
}

/// Resolution is deterministic: any two step allowances that suffice
/// yield the same configuration and the same observable outcome.
pub proof fn lemma_resolve_deterministic(
    story: StoryV,
    cfg: ConfigV,
    input: Seq<char>,
    n1: nat,
    n2: nat,
)
    requires
        resolve_within(story, cfg, input, n1) is Some,
        resolve_within(story, cfg, input, n2) is Some,
    ensures
        resolve_within(story, cfg, input, n1) == resolve_within(story, cfg, input, n2),
{
    if n1 <= n2 {
        lemma_resolve_mono(story, cfg, input, n1, n2);
    } else {
        lemma_resolve_mono(story, cfg, input, n2, n1);
    }
}

/// A runner parked on a choice menu is idempotent: as long as the caller
/// supplies empty input (and the menu has no empty key), every call
/// yields that same menu again and leaves cursor and state unchanged.
pub proof fn lemma_parked_choices_idempotent(story: StoryV, cfg: ConfigV)
    requires
        lookup(story, cfg.passage) is Some,
        flat_len(lookup(story, cfg.passage)->Some_0) <= usize::MAX,
        line_at(lookup(story, cfg.passage)->Some_0, cfg.line) is Some,
        line_at(lookup(story, cfg.passage)->Some_0, cfg.line)->Some_0 is Choices,
        lookup(
            line_at(lookup(story, cfg.passage)->Some_0, cfg.line)->Some_0->Choices_0,
            Seq::<char>::empty(),
        ) is None,
    ensures
        forall|n: nat|
            n >= 1 ==> resolve_within(story, cfg, Seq::<char>::empty(), n) == Some(
                (cfg, NextOut::Line(line_at(lookup(story, cfg.passage)->Some_0, cfg.line)->Some_0)),
            ),
{
    let l = line_at(lookup(story, cfg.passage)->Some_0, cfg.line)->Some_0;
    assert(step_v(story, cfg, Seq::<char>::empty()) == StepV::Out(l, cfg));
}

/// A runner parked on a choice menu rejects input that matches no choice:
/// every such call yields the invalid-choice sentinel and leaves cursor
/// and state unchanged, so the same menu stays pending.
pub proof fn lemma_parked_choices_rejects_unknown_input(
    story: StoryV,
    cfg: ConfigV,
    input: Seq<char>,
)
    requires
        input.len() > 0,
        lookup(story, cfg.passage) is Some,
        flat_len(lookup(story, cfg.passage)->Some_0) <= usize::MAX,
        line_at(lookup(story, cfg.passage)->Some_0, cfg.line) is Some,
        line_at(lookup(story, cfg.passage)->Some_0, cfg.line)->Some_0 is Choices,
        lookup(
            line_at(lookup(story, cfg.passage)->Some_0, cfg.line)->Some_0->Choices_0,
            input,
        ) is None,
    ensures
        forall|n: nat|
            n >= 1 ==> resolve_within(story, cfg, input, n) == Some(
                (cfg, NextOut::Line(LineV::InvalidChoice)),
            ),
{
    assert(step_v(story, cfg, input) == StepV::Out(LineV::InvalidChoice, cfg));
}

/// The runner: a run configuration bound to a story, advanced turn by
/// turn through `next`.
#[derive(Debug)]
pub struct Runner {
    pub config: Config,
    pub story: Story,
}

/// The passage bound to `key` in the story, if any.
fn story_get<'a>(story: &'a Story, key: &str) -> (r: Option<&'a Passage>)
    ensures
        r is Some <==> lookup(story_view(story@), key@) is Some,
        r matches Some(p) ==> Some(lines_view(p@)) == lookup(story_view(story@), key@),
{
    let ghost sv = story_view(story@);
    let mut i: usize = 0;
    while i < story.len()
        invariant
            0 <= i <= story@.len(),
            sv == story_view(story@),
            forall|j: int| 0 <= j < i ==> sv[j].0 != key@,
        decreases story@.len() - i,
    {
        if str_eq(story[i].0.as_str(), key) {
            proof {
                crate::structs::lemma_lookup_skip(sv, key@, i as int);
                assert(sv.skip(i as int)[0] == sv[i as int]);
            }
            return Some(&story[i].1);
        }
        i += 1;
    }
    proof {
        crate::structs::lemma_lookup_skip(sv, key@, i as int);
        assert(sv.skip(i as int).len() == 0);
    }
    None
}

/// The destination bound to `key` in a choice menu, if any.
fn choice_get<'a>(choices: &'a Vec<(String, String)>, key: &str) -> (r: Option<&'a String>)
    ensures
        r is Some <==> lookup(str_pairs_view(choices@), key@) is Some,
        r matches Some(d) ==> Some(d@) == lookup(str_pairs_view(choices@), key@),
{
    let ghost cv = str_pairs_view(choices@);
    let mut i: usize = 0;
    while i < choices.len()
        invariant
            0 <= i <= choices@.len(),
            cv == str_pairs_view(choices@),
            forall|j: int| 0 <= j < i ==> cv[j].0 != key@,
        decreases choices@.len() - i,
    {
        if str_eq(choices[i].0.as_str(), key) {
            proof {
                crate::structs::lemma_lookup_skip(cv, key@, i as int);
                assert(cv.skip(i as int)[0] == cv[i as int]);
            }
            return Some(&choices[i].1);
        }
        i += 1;
    }
    proof {
        crate::structs::lemma_lookup_skip(cv, key@, i as int);
        assert(cv.skip(i as int).len() == 0);
    }
    None
}

/// An owned copy of an association of strings to strings.
fn dup_str_pairs(pairs: &Vec<(String, String)>) -> (r: Vec<(String, String)>)
    ensures
        str_pairs_view(r@) == str_pairs_view(pairs@),
{
    let mut r: Vec<(String, String)> = Vec::new();
    let mut i: usize = 0;
    while i < pairs.len()
        invariant
            0 <= i <= pairs@.len(),
            r@.len() == i,
            forall|j: int|
                0 <= j < i ==> r@[j].0@ == pairs@[j].0@ && r@[j].1@ == pairs@[j].1@,
        decreases pairs@.len() - i,
    {
        r.push((pairs[i].0.clone(), pairs[i].1.clone()));
        i += 1;
    }
    proof {
        assert(str_pairs_view(r@) =~= str_pairs_view(pairs@));
    }
    r
}

/// An owned copy of an association of variable names to values.
fn dup_value_pairs(pairs: &Vec<(String, Value)>) -> (r: Vec<(String, Value)>)
    ensures
        state_view(r@) == state_view(pairs@),
{
    let mut r: Vec<(String, Value)> = Vec::new();
    let mut i: usize = 0;
    while i < pairs.len()
        invariant
            0 <= i <= pairs@.len(),
            r@.len() == i,
            forall|j: int|
                0 <= j < i ==> r@[j].0@ == pairs@[j].0@ && r@[j].1@ == pairs@[j].1@,
        decreases pairs@.len() - i,
    {
        r.push((pairs[i].0.clone(), pairs[i].1.duplicate()));
        i += 1;
    }
    proof {
        assert(state_view(r@) =~= state_view(pairs@));
    }
    r
}

/// An owned copy of an observable line; branch nodes are never observable
/// and need no copy.
fn dup_line(line: &PassageLine) -> (r: PassageLine)
    requires
        !(line@ is Branches),
    ensures
        r@ == line@,
{
    match line {
        PassageLine::Branches(_) => {
            proof {
                assert(false);
            }
            PassageLine::Continue
        },
        PassageLine::Choices(c) => PassageLine::Choices(
            Choices { choices: dup_str_pairs(&c.choices) },
        ),
        PassageLine::Goto(g) => PassageLine::Goto(Goto { goto: g.goto.clone() }),
        PassageLine::Text(t) => PassageLine::Text(t.clone()),
        PassageLine::SetCmd(s) => PassageLine::SetCmd(SetCmd { set: dup_value_pairs(&s.set) }),
        PassageLine::Dialogue(d) => PassageLine::Dialogue(dup_str_pairs(d)),
        PassageLine::Continue => PassageLine::Continue,
        PassageLine::InvalidChoice => PassageLine::InvalidChoice,
    }
}

/// The line standing at flat address `line` of a line sequence, walking
/// into the last line's arm bodies for addresses past the sequence.
fn get_line<'a>(line: usize, lines: &'a Vec<PassageLine>) -> (r: Option<&'a PassageLine>)
    requires
        flat_len(lines_view(lines@)) <= usize::MAX,
    ensures
        r is Some <==> line_at(lines_view(lines@), line as int) is Some,
        r matches Some(l) ==> Some(l@) == line_at(lines_view(lines@), line as int),
    decreases lines_view(lines@), 1int,
{
    let ghost lv = lines_view(lines@);
    proof {
        lemma_lines_view_upto(lines@, lines@.len() as int);
    }
    if line < lines.len() {
        return Some(&lines[line]);
    }
    if lines.len() == 0 {
        return None;
    }
    let last = lines.len() - 1;
    match &lines[last] {
        PassageLine::Branches(arms) => {
            let ghost av = arms_view_upto(arms@, arms@.len() as int);
            proof {
                lemma_arms_view_upto(arms@, arms@.len() as int);
                assert(lv[last as int] == LineV::Branches(av));
                crate::conditional::lemma_seq_flat_len_step_branches(lv, last as int, av);
                lemma_seq_flat_len_nonneg(lv, lv.len() - 1);
                assert(decreases_to!(lv => lv[last as int]));
                assert(decreases_to!(lv[last as int] => lv[last as int]->Branches_0));
            }
            get_branch_line(line - lines.len(), arms)
        },
        _ => None,
    }
}

/// The line standing at relative address `line` of a branch node's arm
/// bodies, walked in declaration order.
fn get_branch_line<'a>(line: usize, branches: &'a Branches) -> (r: Option<&'a PassageLine>)
    requires
        arms_flat_len(
            arms_view_upto(branches@, branches@.len() as int),
            branches@.len() as int,
        ) <= usize::MAX,
    ensures
        ({
            let av = arms_view_upto(branches@, branches@.len() as int);
            &&& (r is Some <==> arm_line_at(av, 0, line as int) is Some)
            &&& (r matches Some(l) ==> Some(l@) == arm_line_at(av, 0, line as int))
        }),
    decreases arms_view_upto(branches@, branches@.len() as int), 0int,
{
    let ghost av = arms_view_upto(branches@, branches@.len() as int);
    proof {
        lemma_arms_view_upto(branches@, branches@.len() as int);
    }
    let mut curr: usize = line;
    let mut i: usize = 0;
    while i < branches.len()
        invariant
            av == arms_view_upto(branches@, branches@.len() as int),
            av.len() == branches@.len(),
            forall|t: int|
                0 <= t < av.len() ==> av[t] == (branches@[t].0@, lines_view(branches@[t].1@)),
            arms_flat_len(av, av.len() as int) <= usize::MAX,
            0 <= i <= branches@.len(),
            arm_line_at(av, 0, line as int) == arm_line_at(av, i as int, curr as int),
        decreases branches@.len() - i,
    {
        proof {
            crate::conditional::lemma_arms_flat_len_mono(av, i as int + 1, av.len() as int);
            lemma_arms_flat_len_nonneg(av, i as int);
            lemma_seq_flat_len_nonneg(av[i as int].1, av[i as int].1.len() as int);
            assert(lines_view(branches@[i as int].1@) == av[i as int].1);
            assert(decreases_to!(av => av[i as int].1));
        }
        let res = get_line(curr, &branches[i].1);
        if res.is_some() {
            return res;
        }
        let bl = branch_len(&branches[i].1);
        if curr < bl {
            proof {
                lemma_arm_line_at_neg(av, i as int + 1, curr - bl);
            }
            return None;
        }
        curr = curr - bl;
        i += 1;
    }
    None
}

impl Runner {
    /// Binds a run configuration to a story.
    pub fn new(config: Config, story: Story) -> (r: Runner)
        ensures
            r.config == config,
            r.story == story,
    {
        Runner { config, story }
    }

    /// Resolves lines from the current cursor until one is observable:
    /// mutations, branch selections and jumps are applied silently, a
    /// text or dialogue line is returned with the cursor advanced, a
    /// pending choice menu consumes a matching input, re-displays on
    /// empty input, and yields the invalid-choice sentinel otherwise.
    /// `None` signals the end of the passage's reachable content.  The
    /// caller must hand in a configuration and story from which
    /// resolution completes without failing.
    #[verifier::rlimit(100)]
    pub fn next(&mut self, input: &str) -> (r: Option<PassageLine>)
        requires
            exists|n: nat|
                resolve_within(
                    story_view(old(self).story@),
                    old(self).config@,
                    input@,
                    n,
                ) is Some,
        ensures
            final(self).story == old(self).story,
            exists|n: nat|
                resolve_within(story_view(old(self).story@), old(self).config@, input@, n) == Some(
                    (
                        final(self).config@,
                        match r {
                            Some(l) => NextOut::Line(l@),
                            None => NextOut::End,
                        },
                    ),
                ),
    {
        let ghost story_v = story_view(self.story@);
        let ghost cfg0 = self.config@;
        let ghost input0 = input@;
        let ghost n0: nat = choose|n: nat| resolve_within(story_v, cfg0, input0, n) is Some;
        let ghost mut k: nat = 0;
        let mut cur_input: &str = input;
        proof {
            reveal_strlit("");
        }
        loop
            invariant
                self.story == old(self).story,
                story_v == story_view(self.story@),
                cfg0 == old(self).config@,
                input0 == input@,
                resolve_within(story_v, cfg0, input0, n0) is Some,
                k < n0,
                cur_input@ == input0 || cur_input@ == Seq::<char>::empty(),
                forall|m: nat|
                    #[trigger] resolve_within(story_v, self.config@, cur_input@, m)
                        == resolve_within(story_v, cfg0, input0, (m + k) as nat),
            decreases n0 - k,
        {
            let ghost cfg_cur = self.config@;
            let ghost in_cur = cur_input@;
            proof {
                assert(resolve_within(story_v, cfg_cur, in_cur, (n0 - k) as nat) == resolve_within(
                    story_v,
                    cfg0,
                    input0,
                    n0,
                ));
                assert(resolve_within(story_v, cfg_cur, in_cur, (n0 - k) as nat) is Some);
                assert(!(step_v(story_v, cfg_cur, in_cur) is Stuck));
            }
            let passage = match story_get(&self.story, self.config.passage.as_str()) {
                Some(p) => p,
                None => {
                    proof {
                        assert(false);
                    }
                    return None;
                },
            };
            let ghost lines_v = lines_view(passage@);
            proof {
                assert(lookup(story_v, cfg_cur.passage) == Some(lines_v));
                assert(flat_len(lines_v) <= usize::MAX as int);
            }
            let line = match get_line(self.config.line, passage) {
                Some(l) => l,
                None => {
                    // End of the passage's reachable content.
                    proof {
                        assert(step_v(story_v, cfg_cur, in_cur) is Ended);
                        assert(resolve_within(story_v, cfg_cur, in_cur, 1) == Some(
                            (cfg_cur, NextOut::End),
                        ));
                        assert(resolve_within(story_v, cfg0, input0, (1 + k) as nat) == Some(
                            (cfg_cur, NextOut::End),
                        ));
                    }
                    return None;
                },
            };
            let ghost line_v = line@;
            proof {
                assert(line_at(lines_v, cfg_cur.line) == Some(line_v));
            }
            match line {
                PassageLine::SetCmd(set) => {
                    proof {
                        assert(line_v == LineV::SetCmd(state_view(set.set@)));
                        assert(mods_ok(
                            cfg_cur.state,
                            state_view(set.set@),
                            state_view(set.set@).len() as int,
                        ));
                        assert(cfg_cur.line + 1 <= usize::MAX as int);
                    }
                    let res = update_state(&mut self.config.state, &set.set);
                    match res {
                        Ok(_) => {},
                        Err(_) => {
                            proof {
                                assert(false);
                            }
                            return None;
                        },
                    }
                    self.config.line = self.config.line + 1;
                    proof {
                        let cfg_new = self.config@;
                        assert(cfg_new =~= ConfigV {
                            line: cfg_cur.line + 1,
                            state: apply_mods(
                                cfg_cur.state,
                                state_view(set.set@),
                                state_view(set.set@).len() as int,
                            ),
                            ..cfg_cur
                        });
                        assert(step_v(story_v, cfg_cur, in_cur) == StepV::Silent(cfg_new));
                        lemma_shift_silent(story_v, cfg0, input0, cfg_cur, in_cur, cfg_new, k, n0);
                        k = k + 1;
                    }
                },
                PassageLine::Branches(arms) => {
                    let ghost av = arms_view_upto(arms@, arms@.len() as int);
                    proof {
                        lemma_arms_view_upto(arms@, arms@.len() as int);
                        assert(line_v == LineV::Branches(av));
                        assert(cfg_cur.line + 1 + arms_flat_len(av, av.len() as int)
                            <= usize::MAX as int);
                        assert(sel_from(av, cfg_cur.state, 0, 1) is Taken || sel_from(
                            av,
                            cfg_cur.state,
                            0,
                            1,
                        ) is Fallthrough);
                    }
                    let res = take_branch(&mut self.config, arms);
                    match res {
                        Ok(_) => {},
                        Err(_) => {
                            proof {
                                assert(false);
                            }
                            return None;
                        },
                    }
                    proof {
                        let cfg_new = self.config@;
                        assert(step_v(story_v, cfg_cur, in_cur) == StepV::Silent(cfg_new));
                        lemma_shift_silent(story_v, cfg0, input0, cfg_cur, in_cur, cfg_new, k, n0);
                        k = k + 1;
                    }
                },
                PassageLine::Goto(g) => {
                    let dest = g.goto.clone();
                    self.config.passage = dest;
                    self.config.line = 0;
                    proof {
                        let cfg_new = self.config@;
                        assert(cfg_new =~= ConfigV {
                            passage: line_v->Goto_0,
                            line: 0,
                            ..cfg_cur
                        });
                        assert(step_v(story_v, cfg_cur, in_cur) == StepV::Silent(cfg_new));
                        lemma_shift_silent(story_v, cfg0, input0, cfg_cur, in_cur, cfg_new, k, n0);
                        k = k + 1;
                    }
                },
                PassageLine::Choices(c) => {
                    proof {
                        assert(line_v == LineV::Choices(str_pairs_view(c.choices@)));
                    }
                    match choice_get(&c.choices, cur_input) {
                        Some(dest) => {
                            let dest = dest.clone();
                            self.config.passage = dest;
                            self.config.line = 0;
                            proof {
                                let cfg_new = self.config@;
                                assert(cfg_new =~= ConfigV {
                                    passage: lookup(
                                        str_pairs_view(c.choices@),
                                        in_cur,
                                    )->Some_0,
                                    line: 0,
                                    ..cfg_cur
                                });
                                assert(step_v(story_v, cfg_cur, in_cur) == StepV::Silent(cfg_new));
                                lemma_shift_silent(
                                    story_v,
                                    cfg0,
                                    input0,
                                    cfg_cur,
                                    in_cur,
                                    cfg_new,
                                    k,
                                    n0,
                                );
                                k = k + 1;
                            }
                        },
                        None => {
                            if cur_input.unicode_len() == 0 {
                                let out = dup_line(line);
                                proof {
                                    assert(in_cur.len() == 0);
                                    assert(step_v(story_v, cfg_cur, in_cur) == StepV::Out(
                                        line_v,
                                        cfg_cur,
                                    ));
                                    assert(resolve_within(story_v, cfg0, input0, (1 + k) as nat)
                                        == Some((cfg_cur, NextOut::Line(line_v))));
                                }
                                return Some(out);
                            } else {
                                proof {
                                    assert(step_v(story_v, cfg_cur, in_cur) == StepV::Out(
                                        LineV::InvalidChoice,
                                        cfg_cur,
                                    ));
                                    assert(resolve_within(story_v, cfg0, input0, (1 + k) as nat)
                                        == Some((cfg_cur, NextOut::Line(LineV::InvalidChoice))));
                                }
                                return Some(PassageLine::InvalidChoice);
                            }
                        },
                    }
                },
                PassageLine::Continue => {
                    self.config.line = self.config.line + 1;
                    proof {
                        let cfg_new = self.config@;
                        assert(cfg_new =~= ConfigV { line: cfg_cur.line + 1, ..cfg_cur });
                        assert(step_v(story_v, cfg_cur, in_cur) == StepV::Silent(cfg_new));
                        lemma_shift_silent(story_v, cfg0, input0, cfg_cur, in_cur, cfg_new, k, n0);
                        k = k + 1;
                    }
                },
                _ => {
                    // Text, dialogue, or an invalid-choice sentinel found
                    // in content: observable, with the cursor advanced.
                    self.config.line = self.config.line + 1;
                    let out = dup_line(line);
                    proof {
                        let cfg_new = self.config@;
                        assert(cfg_new =~= ConfigV { line: cfg_cur.line + 1, ..cfg_cur });
                        assert(step_v(story_v, cfg_cur, in_cur) == StepV::Out(line_v, cfg_new));
                        assert(resolve_within(story_v, cfg0, input0, (1 + k) as nat) == Some(
                            (cfg_new, NextOut::Line(line_v)),
                        ));
                    }
                    return Some(out);
                },
            }
            cur_input = "";
            proof {
                reveal_strlit("");
                assert(cur_input@ =~= Seq::<char>::empty());
            }
        }
    }
}

/// After one silent step, every resolution from the new configuration is
/// a resolution from the old one with one more step of allowance.
proof fn lemma_shift_silent(
    story: StoryV,
    cfg0: ConfigV,
    input0: Seq<char>,
    cfg_cur: ConfigV,
    in_cur: Seq<char>,
    cfg_new: ConfigV,
    k: nat,
    n0: nat,
)
    requires
        step_v(story, cfg_cur, in_cur) == StepV::Silent(cfg_new),
        forall|m: nat|
            #[trigger] resolve_within(story, cfg_cur, in_cur, m) == resolve_within(
                story,
                cfg0,
                input0,
                (m + k) as nat,
            ),
        resolve_within(story, cfg0, input0, n0) is Some,
        k < n0,
    ensures
        forall|m: nat|
            #[trigger] resolve_within(story, cfg_new, Seq::<char>::empty(), m) == resolve_within(
                story,
                cfg0,
                input0,
                (m + k + 1) as nat,
            ),
        k + 1 < n0,
{
    assert forall|m: nat|
        #[trigger] resolve_within(story, cfg_new, Seq::<char>::empty(), m) == resolve_within(
            story,
            cfg0,
            input0,
            (m + k + 1) as nat,
        ) by {
        assert(resolve_within(story, cfg_cur, in_cur, (m + 1) as nat) == resolve_within(
            story,
            cfg0,
            input0,
            (m + 1 + k) as nat,
        ));
        assert(resolve_within(story, cfg_cur, in_cur, (m + 1) as nat) == resolve_within(
            story,
            cfg_new,
            Seq::<char>::empty(),
            m,
        ));
    }
    assert(resolve_within(story, cfg_cur, in_cur, (n0 - k) as nat) == resolve_within(
        story,
        cfg0,
        input0,
        n0,
    ));
    assert(resolve_within(story, cfg_new, Seq::<char>::empty(), (n0 - k - 1) as nat)
        == resolve_within(story, cfg0, input0, n0));
    assert(resolve_within(story, cfg0, input0, n0) is Some);
    if n0 - k - 1 == 0 {
        assert(resolve_within(story, cfg_new, Seq::<char>::empty(), 0) is None);
        assert(false);
    }
}

} // verus!
