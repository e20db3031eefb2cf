//! The condition language `if VAR CMP VALUE`, and the selection of a
//! branch arm against the current variable state.
use vstd::prelude::*;
use crate::comparator::Comparator;
use crate::state::state_get;
use crate::structs::{
    Branches, Config, ConfigV, PassageLine, State, StateV, Value, ValueV, LineV, state_view,
    lookup,
    arms_view_upto, lines_view, lemma_arms_view_upto, flat_len, seq_flat_len, arms_flat_len,
    line_flat_len,
    lemma_line_flat_len_pos, lemma_seq_flat_len_nonneg, lemma_arms_flat_len_nonneg,
    lemma_lines_view_upto, line_view,
};
use crate::text::{split_spaces, split_tokens, str_eq};
use crate::value::{same_type_v, val_eq, val_lt, parse_value_v};
use crate::ValidationError;

verus! {

/// A parsed condition: a variable, a comparator and a literal value.
#[derive(Debug, PartialEq)]
pub struct Conditional {
    pub var: String,
    pub cmp: Comparator,
    pub val: Value,
}

/// Model of a parsed condition.
#[verifier::ext_equal]
pub struct ConditionalV {
    pub var: Seq<char>,
    pub cmp: Comparator,
    pub val: ValueV,
}

impl View for Conditional {
    type V = ConditionalV;

    open spec fn view(&self) -> ConditionalV {
        ConditionalV { var: self.var@, cmp: self.cmp, val: self.val@ }
    }
}

/// The condition a label denotes: exactly four space-separated tokens
/// `if VAR CMP VALUE`, refused on any other token count, a first token
/// other than `if`, or an unknown comparator.
pub open spec fn spec_parse_cond(s: Seq<char>) -> Result<ConditionalV, ValidationError> {
    let toks = split_spaces(s);
    if toks.len() != 4 || toks[0] != "if"@ {
        Err(ValidationError::ParseError)
    } else {
        match Comparator::spec_parse(toks[2]) {
            Ok(cmp) => Ok(ConditionalV { var: toks[1], cmp, val: parse_value_v(toks[3]) }),
            Err(e) => Err(e),
        }
    }
}

/// The result of comparing a state value against a condition's literal:
/// refused unless both are of the identical kind, then the named relation,
/// with `>=` as a true greater-or-equal.
pub open spec fn cmp_v(cmp: Comparator, a: ValueV, b: ValueV) -> Result<bool, ValidationError> {
    if !same_type_v(a, b) {
        Err(ValidationError::TypeMismatch)
    } else {
        Ok(
            match cmp {
                Comparator::EQ => val_eq(a, b),
                Comparator::NEQ => !val_eq(a, b),
                Comparator::LT => val_lt(a, b),
                Comparator::LEQ => val_lt(a, b) || val_eq(a, b),
                Comparator::GT => val_lt(b, a),
                Comparator::GEQ => val_lt(b, a) || val_eq(a, b),
            },
        )
    }
}

/// The result of evaluating a condition against a state that binds its
/// variable.
pub open spec fn eval_cond_v(c: ConditionalV, st: StateV) -> Result<bool, ValidationError> {
    match lookup(st, c.var) {
        Some(v) => cmp_v(c.cmp, v, c.val),
        None => Err(ValidationError::TypeMismatch),
    }
}

/// The outcome of walking a branch node's arms against the state.
pub enum BranchSel {
    /// An arm's condition held; the cursor must advance by the carried
    /// offset to reach the arm's first line.
    Taken(int),
    /// No arm matched; the cursor must advance by the carried offset,
    /// which reaches the `else` arm's body when that stands last, and the
    /// line after the whole node otherwise.
    Fallthrough(int),
    /// An arm's label failed to parse, or its comparison mixed kinds.
    Fail(ValidationError),
    /// An arm's condition names a variable absent from the state.
    Missing,
}

/// Walks the arms from `i` on with accumulated offset `acc`: `else` arms
/// are passed over without adding their length, a true condition stops
/// with the offset gathered so far, a false one adds its arm's flattened
/// length.
pub open spec fn sel_from(
    arms: Seq<(Seq<char>, Seq<LineV>)>,
    st: StateV,
    i: int,
    acc: int,
) -> BranchSel
    decreases arms.len() - i,
{
    if i < 0 || i >= arms.len() {
        BranchSel::Fallthrough(acc)
    } else if arms[i].0 == "else"@ {
        sel_from(arms, st, i + 1, acc)
    } else {
        match spec_parse_cond(arms[i].0) {
            Err(e) => BranchSel::Fail(e),
            Ok(c) => match lookup(st, c.var) {
                None => BranchSel::Missing,
                Some(v) => match cmp_v(c.cmp, v, c.val) {
                    Err(e) => BranchSel::Fail(e),
                    Ok(true) => BranchSel::Taken(acc),
                    Ok(false) => sel_from(arms, st, i + 1, acc + flat_len(arms[i].1)),
                },
            },
        }
    }
}

impl Conditional {
    /// Parses a condition label of the form `if VAR CMP VALUE`.
    pub fn parse(text: &str) -> (r: Result<Conditional, ValidationError>)
        ensures
            r is Ok <==> spec_parse_cond(text@) is Ok,
            r matches Ok(c) ==> Ok::<ConditionalV, ValidationError>(c@) == spec_parse_cond(text@),
            r matches Err(e) ==> Err::<ConditionalV, ValidationError>(e) == spec_parse_cond(text@),
    {
        let tokens = split_tokens(text);
        if tokens.len() != 4 {
            return Err(ValidationError::ParseError);
        }
        assert(forall|j: int| 0 <= j < 4 ==> tokens@[j]@ == split_spaces(text@)[j]);
        if !str_eq(tokens[0].as_str(), "if") {
            return Err(ValidationError::ParseError);
        }
        let cmp = match Comparator::parse(tokens[2].as_str()) {
            Ok(cmp) => cmp,
            Err(e) => {
                return Err(e);
            },
        };
        let val = match Value::parse(tokens[3].as_str()) {
            Ok(v) => v,
            Err(e) => {
                return Err(e);
            },
        };
        Ok(Conditional { var: tokens[1].clone(), cmp, val })
    }

    /// Evaluates this condition against the state, which must bind its
    /// variable.
    pub fn eval(&self, state: &State) -> (r: Result<bool, ValidationError>)
        requires
            lookup(state_view(state@), self.var@) is Some,
        ensures
            r == eval_cond_v(self@, state_view(state@)),
    {
        match state_get(state, self.var.as_str()) {
            Some(v) => self.cmp(v),
            None => {
                proof {
                    assert(false);
                }
                Err(ValidationError::TypeMismatch)
            },
        }
    }

    /// Compares a state value against this condition's literal; both must
    /// be of the identical kind.
    pub fn cmp(&self, val: &Value) -> (r: Result<bool, ValidationError>)
        ensures
            r == cmp_v(self.cmp, val@, self.val@),
    {
        if !val.same_type(&self.val) {
            return Err(ValidationError::TypeMismatch);
        }
        match self.cmp {
            Comparator::EQ => Ok(val.value_eq(&self.val)),
            Comparator::NEQ => Ok(!val.value_eq(&self.val)),
            Comparator::LT => Ok(val.value_lt(&self.val)),
            Comparator::LEQ => Ok(val.value_lt(&self.val) || val.value_eq(&self.val)),
            Comparator::GT => Ok(self.val.value_lt(val)),
            Comparator::GEQ => Ok(self.val.value_lt(val) || val.value_eq(&self.val)),
        }
    }
}

/// The flattened length of a line sequence: its own length plus the
/// flattened length of every arm body of every branch node in it, taken
/// or not, so that flat addresses never depend on the path taken.
pub fn branch_len(lines: &Vec<PassageLine>) -> (r: usize)
    requires
        flat_len(lines_view(lines@)) <= usize::MAX,
    ensures
        r == flat_len(lines_view(lines@)),
    decreases lines_view(lines@),
{
    let ghost lv = lines_view(lines@);
    proof {
        lemma_lines_view_upto(lines@, lines@.len() as int);
    }
    let mut total: usize = lines.len();
    let mut i: usize = 0;
    while i < lines.len()
        invariant
            lv == lines_view(lines@),
            lv.len() == lines@.len(),
            forall|j: int| 0 <= j < lv.len() ==> lv[j] == line_view(lines@[j]),
            0 <= i <= lines@.len(),
            flat_len(lv) <= usize::MAX,
            total == lines@.len() + seq_flat_len(lv, i as int) - i,
        decreases lines@.len() - i,
    {
        proof {
            lemma_seq_flat_len_mono(lv, i as int + 1, lv.len() as int);
            lemma_seq_flat_len_ge_from(lv, i as int + 1);
        }
        match &lines[i] {
            PassageLine::Branches(arms) => {
                let ghost av = arms_view_upto(arms@, arms@.len() as int);
                proof {
                    lemma_arms_view_upto(arms@, arms@.len() as int);
                    assert(lv[i as int] == LineV::Branches(av));
                }
                let mut j: usize = 0;
                while j < arms.len()
                    invariant
                        av == arms_view_upto(arms@, arms@.len() as int),
                        av.len() == arms@.len(),
                        forall|t: int|
                            0 <= t < av.len() ==> av[t] == (arms@[t].0@, lines_view(arms@[t].1@)),
                        0 <= j <= arms@.len(),
                        lv == lines_view(lines@),
                        lv.len() == lines@.len(),
                        0 <= i < lines@.len(),
                        lv[i as int] == LineV::Branches(av),
                        flat_len(lv) <= usize::MAX,
                        total == lines@.len() + seq_flat_len(lv, i as int) - i + arms_flat_len(
                            av,
                            j as int,
                        ),
                    decreases arms@.len() - j,
                {
                    proof {
                        lemma_branch_arm_bound(lv, i as int, av, j as int);
                        assert(lines_view(arms@[j as int].1@) == av[j as int].1);
                        assert(decreases_to!(lv => lv[i as int]));
                        assert(av == lv[i as int]->Branches_0);
                        assert(decreases_to!(lv[i as int] => lv[i as int]->Branches_0));
                        assert(decreases_to!(av => av[j as int].1));
                        assert(decreases_to!(lv => lines_view(arms@[j as int].1@)));
                    }
                    let part = branch_len(&arms[j].1);
                    total = total + part;
                    j += 1;
                }
                proof {
                    lemma_seq_flat_len_step_branches(lv, i as int, av);
                }
            },
            _ => {
                proof {
                    assert(!(lv[i as int] is Branches));
                    lemma_seq_flat_len_step_plain(lv, i as int);
                }
            },
        }
        i += 1;
    }
    total
}

/// Later prefixes of a line sequence flatten longer, by at least one
/// address per extra line.
pub proof fn lemma_seq_flat_len_mono(lines: Seq<LineV>, k1: int, k2: int)
    requires
        0 <= k1 <= k2 <= lines.len(),
    ensures
        seq_flat_len(lines, k1) + (k2 - k1) <= seq_flat_len(lines, k2),
    decreases k2 - k1,
{
    if k1 < k2 {
        lemma_seq_flat_len_mono(lines, k1, k2 - 1);
        lemma_line_flat_len_pos(lines[k2 - 1]);
    }
}

/// One line sequence step over a branch node adds one address plus all of
/// its arm bodies.
pub proof fn lemma_seq_flat_len_step_branches(
    lv: Seq<LineV>,
    i: int,
    av: Seq<(Seq<char>, Seq<LineV>)>,
)
    requires
        0 <= i < lv.len(),
        lv[i] == LineV::Branches(av),
    ensures
        seq_flat_len(lv, i + 1) == seq_flat_len(lv, i) + 1 + arms_flat_len(av, av.len() as int),
{
    assert(line_flat_len(LineV::Branches(av)) == 1 + arms_flat_len(av, av.len() as int));
    assert(seq_flat_len(lv, i + 1) == seq_flat_len(lv, i) + line_flat_len(lv[i]));
}

/// One line sequence step over any other line adds exactly one address.
proof fn lemma_seq_flat_len_step_plain(lv: Seq<LineV>, i: int)
    requires
        0 <= i < lv.len(),
        !(lv[i] is Branches),
    ensures
        seq_flat_len(lv, i + 1) == seq_flat_len(lv, i) + 1,
{
    assert(line_flat_len(lv[i]) == 1);
    assert(seq_flat_len(lv, i + 1) == seq_flat_len(lv, i) + line_flat_len(lv[i]));
}

/// A prefix flattens at least as long as its line count.
proof fn lemma_seq_flat_len_ge_from(lines: Seq<LineV>, k: int)
    requires
        0 <= k <= lines.len(),
    ensures
        seq_flat_len(lines, k) >= k,
    decreases k,
{
    if k > 0 {
        lemma_seq_flat_len_ge_from(lines, k - 1);
        lemma_line_flat_len_pos(lines[k - 1]);
    }
}

/// Each arm body of a branch node flattens within the whole sequence's
/// flattened length.
proof fn lemma_branch_arm_bound(lv: Seq<LineV>, i: int, av: Seq<(Seq<char>, Seq<LineV>)>, j: int)
    requires
        0 <= i < lv.len(),
        lv[i] == LineV::Branches(av),
        0 <= j < av.len(),
    ensures
        arms_flat_len(av, j) + flat_len(av[j].1) == arms_flat_len(av, j + 1),
        flat_len(av[j].1) >= 0,
        arms_flat_len(av, j) >= 0,
        seq_flat_len(lv, i) + 1 + arms_flat_len(av, j + 1) + (lv.len() - i - 1) <= flat_len(lv),
        seq_flat_len(lv, i) >= i,
{
    lemma_seq_flat_len_nonneg(av[j].1, av[j].1.len() as int);
    lemma_arms_flat_len_nonneg(av, j);
    lemma_arms_flat_len_mono(av, j + 1, av.len() as int);
    lemma_seq_flat_len_step_branches(lv, i, av);
    lemma_seq_flat_len_mono(lv, i + 1, lv.len() as int);
    lemma_seq_flat_len_ge_from(lv, i);
}

/// Later prefixes of a branch node's arms never sum shorter.
pub proof fn lemma_arms_flat_len_mono(arms: Seq<(Seq<char>, Seq<LineV>)>, k1: int, k2: int)
    requires
        0 <= k1 <= k2 <= arms.len(),
    ensures
        arms_flat_len(arms, k1) <= arms_flat_len(arms, k2),
    decreases k2 - k1,
{
    if k1 < k2 {
        lemma_arms_flat_len_mono(arms, k1, k2 - 1);
        lemma_seq_flat_len_nonneg(arms[k2 - 1].1, arms[k2 - 1].1.len() as int);
    }
}

/// Walks a branch node's arms in declaration order and advances the
/// cursor to the first line of the first arm whose condition holds, to
/// the `else` arm's body when no condition held and `else` stands last,
/// and past the whole node otherwise.
pub fn take_branch(config: &mut Config, branches: &Branches) -> (r: Result<(), ValidationError>)
    requires
        old(config).line + 1 + arms_flat_len(
            arms_view_upto(branches@, branches@.len() as int),
            branches@.len() as int,
        ) <= usize::MAX,
        !(sel_from(
            arms_view_upto(branches@, branches@.len() as int),
            state_view(old(config).state@),
            0,
            1,
        ) is Missing),
    ensures
        ({
            let sel = sel_from(
                arms_view_upto(branches@, branches@.len() as int),
                state_view(old(config).state@),
                0,
                1,
            );
            match r {
                Ok(_) => {
                    &&& (sel matches BranchSel::Taken(s) ==> final(config)@ == ConfigV {
                        line: old(config)@.line + s,
                        ..old(config)@
                    })
                    &&& (sel matches BranchSel::Fallthrough(s) ==> final(config)@ == ConfigV {
                        line: old(config)@.line + s,
                        ..old(config)@
                    })
                    &&& (sel is Taken || sel is Fallthrough)
                },
                Err(e) => {
                    &&& sel == BranchSel::Fail(e)
                    &&& *final(config) == *old(config)
                },
            }
        }),
{
    let ghost av = arms_view_upto(branches@, branches@.len() as int);
    let ghost sv = state_view(config.state@);
    proof {
        lemma_arms_view_upto(branches@, branches@.len() as int);
    }
    let mut skip: usize = 1;
    let mut i: usize = 0;
    while i < branches.len()
        invariant
            av == arms_view_upto(branches@, branches@.len() as int),
            av.len() == branches@.len(),
            forall|t: int|
                0 <= t < av.len() ==> av[t] == (branches@[t].0@, lines_view(branches@[t].1@)),
            sv == state_view(config.state@),
            *config == *old(config),
            0 <= i <= branches@.len(),
            1 <= skip,
            skip <= 1 + arms_flat_len(av, i as int),
            old(config).line + 1 + arms_flat_len(av, av.len() as int) <= usize::MAX,
            sel_from(av, sv, 0, 1) == sel_from(av, sv, i as int, skip as int),
            !(sel_from(av, sv, 0, 1) is Missing),
        decreases branches@.len() - i,
    {
        proof {
            lemma_arms_flat_len_mono(av, i as int + 1, av.len() as int);
            lemma_arms_flat_len_nonneg(av, i as int);
            lemma_seq_flat_len_nonneg(av[i as int].1, av[i as int].1.len() as int);
        }
        if str_eq(branches[i].0.as_str(), "else") {
            proof {
                assert(sel_from(av, sv, i as int, skip as int) == sel_from(
                    av,
                    sv,
                    i as int + 1,
                    skip as int,
                ));
            }
            i += 1;
            continue ;
        }
        let cond = match Conditional::parse(branches[i].0.as_str()) {
            Ok(c) => c,
            Err(e) => {
                return Err(e);
            },
        };
        proof {
            if lookup(sv, cond@.var) is None {
                assert(sel_from(av, sv, i as int, skip as int) is Missing);
                assert(false);
            }
        }
        match cond.eval(&config.state) {
            Err(e) => {
                return Err(e);
            },
            Ok(true) => {
                config.line = config.line + skip;
                return Ok(());
            },
            Ok(false) => {
                let part = branch_len(&branches[i].1);
                skip = skip + part;
            },
        }
        i += 1;
    }
    proof {
        lemma_arms_flat_len_mono(av, i as int, av.len() as int);
    }
    config.line = config.line + skip;
    Ok(())
}

} // verus!
