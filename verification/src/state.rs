//! The state-mutation language: `VAR OP` keys parsed into `StateMod`, and
//! the application of mutation sets to the variable state.
use vstd::prelude::*;
use crate::operator::Operator;
use crate::structs::{
    State, Value, ValueV, StateV, state_view, lookup, lookup_idx, lemma_lookup_skip,
    lemma_lookup_update,
};
use crate::text::{split_spaces, split_tokens, str_eq};
use crate::value::{add_v, sub_v, add_fits, sub_fits};
use crate::ValidationError;

verus! {

/// A parsed state mutation: the variable it touches and the operator.
#[derive(Debug)]
pub struct StateMod {
    pub var: String,
    pub op: Operator,
}

/// Model of a parsed state mutation.
#[verifier::ext_equal]
pub struct StateModV {
    pub var: Seq<char>,
    pub op: Operator,
}

impl View for StateMod {
    type V = StateModV;

    open spec fn view(&self) -> StateModV {
        StateModV { var: self.var@, op: self.op }
    }
}

/// The mutation a key denotes: exactly two space-separated tokens
/// `VAR OP`; the mutation key carries no operand itself.
pub open spec fn spec_parse_statemod(s: Seq<char>) -> Result<StateModV, ValidationError> {
    let toks = split_spaces(s);
    if toks.len() != 2 {
        Err(ValidationError::ParseError)
    } else {
        match Operator::spec_parse(toks[1]) {
            Ok(op) => Ok(StateModV { var: toks[0], op }),
            Err(e) => Err(e),
        }
    }
}

/// The value a mutation leaves behind: SET replaces outright, ADD and SUB
/// delegate to value arithmetic with its documented permissiveness.
pub open spec fn apply_op_v(op: Operator, cur: ValueV, v: ValueV) -> ValueV {
    match op {
        Operator::SET => v,
        Operator::ADD => add_v(cur, v),
        Operator::SUB => sub_v(cur, v),
    }
}

/// Whether a mutation's arithmetic stays within the machine number range.
pub open spec fn op_fits(op: Operator, cur: ValueV, v: ValueV) -> bool {
    match op {
        Operator::SET => true,
        Operator::ADD => add_fits(cur, v),
        Operator::SUB => sub_fits(cur, v),
    }
}

/// The state after applying the first `k` mutations of a set, in order.
/// A mutation whose key does not parse or whose variable is absent is
/// skipped here; `mods_ok` rules those out.
pub open spec fn apply_mods(st: StateV, mods: Seq<(Seq<char>, ValueV)>, k: int) -> StateV
    decreases k,
{
    if k <= 0 {
        st
    } else {
        let prev = apply_mods(st, mods, k - 1);
        match spec_parse_statemod(mods[k - 1].0) {
            Ok(m) => match lookup(prev, m.var) {
                Some(cur) => prev.update(
                    lookup_idx(prev, m.var),
                    (m.var, apply_op_v(m.op, cur, mods[k - 1].1)),
                ),
                None => prev,
            },
            Err(_) => prev,
        }
    }
}

/// Whether the first `k` mutations of a set all parse, touch present
/// variables, and stay within the machine number range.
pub open spec fn mods_ok(st: StateV, mods: Seq<(Seq<char>, ValueV)>, k: int) -> bool
    decreases k,
{
    if k <= 0 {
        true
    } else {
        mods_ok(st, mods, k - 1) && match spec_parse_statemod(mods[k - 1].0) {
            Ok(m) => match lookup(apply_mods(st, mods, k - 1), m.var) {
                Some(cur) => op_fits(m.op, cur, mods[k - 1].1),
                None => false,
            },
            Err(_) => false,
        }
    }
}

/// The value bound to `key` in the state, if any.
pub fn state_get<'a>(state: &'a State, key: &str) -> (r: Option<&'a Value>)
    ensures
        r is Some <==> lookup(state_view(state@), key@) is Some,
        r matches Some(v) ==> Some(v@) == lookup(state_view(state@), key@),
{
    let ghost sv = state_view(state@);
    let mut i: usize = 0;
    while i < state.len()
        invariant
            0 <= i <= state@.len(),
            sv == state_view(state@),
            forall|j: int| 0 <= j < i ==> sv[j].0 != key@,
        decreases state@.len() - i,
    {
        if str_eq(state[i].0.as_str(), key) {
            proof {
                lemma_lookup_skip(sv, key@, i as int);
                assert(sv.skip(i as int)[0] == sv[i as int]);
            }
            return Some(&state[i].1);
        }
        i += 1;
    }
    proof {
        lemma_lookup_skip(sv, key@, i as int);
        assert(sv.skip(i as int).len() == 0);
    }
    None
}

/// Like `state_get`, also yielding the entry's index.
fn state_find(state: &State, key: &str) -> (r: Option<usize>)
    ensures
        r is Some <==> lookup(state_view(state@), key@) is Some,
        r matches Some(i) ==> {
            &&& i < state@.len()
            &&& i as int == lookup_idx(state_view(state@), key@)
            &&& Some(state_view(state@)[i as int].1) == lookup(state_view(state@), key@)
        },
{
    let ghost sv = state_view(state@);
    let mut i: usize = 0;
    while i < state.len()
        invariant
            0 <= i <= state@.len(),
            sv == state_view(state@),
            forall|j: int| 0 <= j < i ==> sv[j].0 != key@,
        decreases state@.len() - i,
    {
        if str_eq(state[i].0.as_str(), key) {
            proof {
                lemma_lookup_skip(sv, key@, i as int);
                assert(sv.skip(i as int)[0] == sv[i as int]);
            }
            return Some(i);
        }
        i += 1;
    }
    proof {
        lemma_lookup_skip(sv, key@, i as int);
        assert(sv.skip(i as int).len() == 0);
    }
    None
}

impl StateMod {
    /// Parses a mutation key: exactly two space-separated tokens `VAR OP`.
    pub fn parse(text: &str) -> (r: Result<StateMod, ValidationError>)
        ensures
            r is Ok <==> spec_parse_statemod(text@) is Ok,
            r matches Ok(m) ==> Ok::<StateModV, ValidationError>(m@) == spec_parse_statemod(
                text@,
            ),
            r matches Err(e) ==> Err::<StateModV, _>(e) == spec_parse_statemod(text@),
    {
        let tokens = split_tokens(text);
        if tokens.len() != 2 {
            return Err(ValidationError::ParseError);
        }
        assert(tokens@[0]@ == split_spaces(text@)[0] && tokens@[1]@ == split_spaces(text@)[1]);
        let op = match Operator::parse(tokens[1].as_str()) {
            Ok(op) => op,
            Err(e) => {
                return Err(e);
            },
        };
        Ok(StateMod { var: tokens[0].clone(), op })
    }

    /// Applies this mutation to the state entry it names, which must be
    /// present, combining it with `value` as the operator directs.
    pub fn apply(&self, state: &mut State, value: &Value)
        requires
            lookup(state_view(old(state)@), self.var@) is Some,
            op_fits(
                self.op,
                lookup(state_view(old(state)@), self.var@)->Some_0,
                value@,
            ),
        ensures
            state_view(final(state)@) == state_view(old(state)@).update(
                lookup_idx(state_view(old(state)@), self.var@),
                (
                    self.var@,
                    apply_op_v(
                        self.op,
                        lookup(state_view(old(state)@), self.var@)->Some_0,
                        value@,
                    ),
                ),
            ),
    {
        let ghost sv = state_view(old(state)@);
        let i = match state_find(state, self.var.as_str()) {
            Some(i) => i,
            None => {
                proof {
                    assert(false);
                }
                return ;
            },
        };
        let mut nv = state[i].1.duplicate();
        match self.op {
            Operator::SET => {
                nv = value.duplicate();
            },
            Operator::ADD => {
                nv.add_assign(value);
            },
            Operator::SUB => {
                nv.sub_assign(value);
            },
        }
        let key = self.var.clone();
        state.set(i, (key, nv));
        proof {
            let updated = sv.update(
                i as int,
                (self.var@, apply_op_v(self.op, lookup(sv, self.var@)->Some_0, value@)),
            );
            assert(state_view(state@) =~= updated);
        }
    }
}

/// Applies every mutation of a set to the state, in declaration order;
/// each key must parse and name a present variable.
pub fn update_state(state: &mut State, state_mod: &State) -> (r: Result<(), ValidationError>)
    requires
        mods_ok(
            state_view(old(state)@),
            state_view(state_mod@),
            state_mod@.len() as int,
        ),
    ensures
        r is Ok,
        state_view(final(state)@) == apply_mods(
            state_view(old(state)@),
            state_view(state_mod@),
            state_mod@.len() as int,
        ),
{
    let ghost sv0 = state_view(old(state)@);
    let ghost mv = state_view(state_mod@);
    let mut k: usize = 0;
    while k < state_mod.len()
        invariant
            0 <= k <= state_mod@.len(),
            sv0 == state_view(old(state)@),
            mv == state_view(state_mod@),
            mods_ok(sv0, mv, state_mod@.len() as int),
            state_view(state@) == apply_mods(sv0, mv, k as int),
        decreases state_mod@.len() - k,
    {
        proof {
            lemma_mods_ok_prefix(sv0, mv, k as int + 1, state_mod@.len() as int);
        }
        let m = match StateMod::parse(state_mod[k].0.as_str()) {
            Ok(m) => m,
            Err(e) => {
                proof {
                    assert(false);
                }
                return Err(e);
            },
        };
        m.apply(state, &state_mod[k].1);
        k += 1;
    }
    Ok(())
}

/// A mutation set touches only the variables its keys name: after
/// applying the first `k` mutations, every variable that none of those
/// keys names still holds its old value.
pub proof fn lemma_apply_mods_other_keys(
    st: StateV,
    mods: Seq<(Seq<char>, ValueV)>,
    k: int,
    key: Seq<char>,
)
    requires
        forall|j: int|
            0 <= j < k ==> match #[trigger] spec_parse_statemod(mods[j].0) {
                Ok(m) => m.var != key,
                Err(_) => true,
            },
    ensures
        lookup(apply_mods(st, mods, k), key) == lookup(st, key),
    decreases k,
{
    if k > 0 {
        lemma_apply_mods_other_keys(st, mods, k - 1, key);
        let prev = apply_mods(st, mods, k - 1);
        match spec_parse_statemod(mods[k - 1].0) {
            Ok(m) => match lookup(prev, m.var) {
                Some(cur) => {
                    lemma_lookup_update(prev, m.var, apply_op_v(m.op, cur, mods[k - 1].1));
                },
                None => {},
            },
            Err(_) => {},
        }
    }
}

/// Mutation sets found sound up to `b` are sound up to any earlier `a`.
proof fn lemma_mods_ok_prefix(st: StateV, mods: Seq<(Seq<char>, ValueV)>, a: int, b: int)
    requires
        a <= b,
        mods_ok(st, mods, b),
    ensures
        mods_ok(st, mods, a),
    decreases b - a,
{
    if a < b {
        lemma_mods_ok_prefix(st, mods, a, b - 1);
    }
}

} // verus!
