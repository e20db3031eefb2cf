//! The story data model: values of the variable state, passages and their
//! lines, and the run configuration that a runner owns while playing.
//!
//! Each executable type has a mathematical model (`ValueV`, `LineV`,
//! `ConfigV`, ...) in which strings are character sequences and numbers are
//! unbounded integers; every contract of the engine is stated over these
//! models.
use vstd::prelude::*;

verus! {

// ---------------------------------------------------------------------------
// Executable types
// ---------------------------------------------------------------------------
/// A tagged scalar stored in the variable state.  Ordering and arithmetic
/// are defined only between values of the identical variant.
#[derive(Debug, Clone, PartialEq, PartialOrd)]
pub enum Value {
    Null,
    Str(String),
    Number(i64),
    Bool(bool),
}

/// One step of narrative content or control inside a passage.
#[derive(Debug)]
pub enum PassageLine {
    /// Ordered (condition-or-"else", body) arms of a conditional branch;
    /// a recursive tree, since any arm body may contain further branches.
    Branches(Branches),
    Choices(Choices),
    Goto(Goto),
    Text(String),
    SetCmd(SetCmd),
    /// A single character-name to quoted-text pairing.
    Dialogue(Dialogue),
    /// Internal sentinel: resolution has produced no observable line yet.
    Continue,
    /// Internal sentinel: the supplied input matched no pending choice.
    InvalidChoice,
}

/// The ordered arms of a conditional branch.
pub type Branches = Vec<(String, Vec<PassageLine>)>;

/// An ordered sequence of lines; the unit of narrative jumped between.
pub type Passage = Vec<PassageLine>;

/// An ordered association of passage names to passages.
pub type Story = Vec<(String, Passage)>;

/// An association of variable names to their current values.
pub type State = Vec<(String, Value)>;

/// A single character-name to quoted-text pairing.
pub type Dialogue = Vec<(String, String)>;

/// A mapping from display text to destination passage name.
#[derive(Debug)]
pub struct Choices {
    pub choices: Vec<(String, String)>,
}

/// An unconditional jump to another passage.
#[derive(Debug, Clone, PartialEq)]
pub struct Goto {
    pub goto: String,
}

/// A set of mutation-key to literal-value pairs, applied together.
#[derive(Debug)]
pub struct SetCmd {
    pub set: State,
}

/// A character of the registry; only its description is recorded.
#[derive(Debug, Clone, PartialEq)]
pub struct CharacterData {
    pub description: String,
}

/// The character registry of a run configuration.
pub type Characters = Vec<(String, CharacterData)>;

/// The run state: current passage name, flat line cursor, variable state
/// and character registry.  Owned and mutated exclusively by the runner.
#[derive(Debug)]
pub struct Config {
    pub passage: String,
    pub line: usize,
    pub state: State,
    pub characters: Characters,
}

// ---------------------------------------------------------------------------
// The mathematical model
// ---------------------------------------------------------------------------
/// Model of a `Value`: text as a character sequence, numbers unbounded.
#[verifier::ext_equal]
pub enum ValueV {
    Null,
    Str(Seq<char>),
    Number(int),
    Bool(bool),
}

/// Model of a `PassageLine`.
#[verifier::ext_equal]
pub enum LineV {
    Branches(Seq<(Seq<char>, Seq<LineV>)>),
    Choices(Seq<(Seq<char>, Seq<char>)>),
    Goto(Seq<char>),
    Text(Seq<char>),
    SetCmd(Seq<(Seq<char>, ValueV)>),
    Dialogue(Seq<(Seq<char>, Seq<char>)>),
    Continue,
    InvalidChoice,
}

/// Model of the variable state.
pub type StateV = Seq<(Seq<char>, ValueV)>;

/// Model of a story.
pub type StoryV = Seq<(Seq<char>, Seq<LineV>)>;

/// Model of a run configuration.
#[verifier::ext_equal]
pub struct ConfigV {
    pub passage: Seq<char>,
    pub line: int,
    pub state: StateV,
    pub characters: Seq<(Seq<char>, Seq<char>)>,
}

impl View for Value {
    type V = ValueV;

    open spec fn view(&self) -> ValueV {
        match self {
            Value::Null => ValueV::Null,
            Value::Str(s) => ValueV::Str(s@),
            Value::Number(n) => ValueV::Number(*n as int),
            Value::Bool(b) => ValueV::Bool(*b),
        }
    }
}

/// Model of one line.
pub open spec fn line_view(line: PassageLine) -> LineV
    decreases line,
{
    match line {
        PassageLine::Branches(arms) => LineV::Branches(arms_view_upto(arms@, arms@.len() as int)),
        PassageLine::Choices(c) => LineV::Choices(str_pairs_view(c.choices@)),
        PassageLine::Goto(g) => LineV::Goto(g.goto@),
        PassageLine::Text(t) => LineV::Text(t@),
        PassageLine::SetCmd(s) => LineV::SetCmd(state_view(s.set@)),
        PassageLine::Dialogue(d) => LineV::Dialogue(str_pairs_view(d@)),
        PassageLine::Continue => LineV::Continue,
        PassageLine::InvalidChoice => LineV::InvalidChoice,
    }
}

/// Model of the first `k` arms of a branch node.
pub open spec fn arms_view_upto(arms: Seq<(String, Vec<PassageLine>)>, k: int) -> Seq<
    (Seq<char>, Seq<LineV>),
>
    decreases arms, k,
{
    if k <= 0 || k > arms.len() {
        Seq::empty()
    } else {
        arms_view_upto(arms, k - 1).push(
            (arms[k - 1].0@, lines_view_upto(arms[k - 1].1@, arms[k - 1].1@.len() as int)),
        )
    }
}

/// Model of the first `k` lines of a sequence.
pub open spec fn lines_view_upto(lines: Seq<PassageLine>, k: int) -> Seq<LineV>
    decreases lines, k,
{
    if k <= 0 || k > lines.len() {
        Seq::empty()
    } else {
        lines_view_upto(lines, k - 1).push(line_view(lines[k - 1]))
    }
}

/// Model of a whole line sequence.
pub open spec fn lines_view(lines: Seq<PassageLine>) -> Seq<LineV> {
    lines_view_upto(lines, lines.len() as int)
}

/// Model of an association of strings to strings.
pub open spec fn str_pairs_view(pairs: Seq<(String, String)>) -> Seq<(Seq<char>, Seq<char>)> {
    Seq::new(pairs.len(), |i: int| (pairs[i].0@, pairs[i].1@))
}

/// Model of the variable state.
pub open spec fn state_view(state: Seq<(String, Value)>) -> StateV {
    Seq::new(state.len(), |i: int| (state[i].0@, state[i].1@))
}

/// Model of a story.
pub open spec fn story_view(story: Seq<(String, Passage)>) -> StoryV {
    Seq::new(story.len(), |i: int| (story[i].0@, lines_view(story[i].1@)))
}

/// Model of the character registry: name to description.
pub open spec fn characters_view(chars: Seq<(String, CharacterData)>) -> Seq<
    (Seq<char>, Seq<char>),
> {
    Seq::new(chars.len(), |i: int| (chars[i].0@, chars[i].1.description@))
}

impl View for PassageLine {
    type V = LineV;

    open spec fn view(&self) -> LineV {
        line_view(*self)
    }
}

impl View for Config {
    type V = ConfigV;

    open spec fn view(&self) -> ConfigV {
        ConfigV {
            passage: self.passage@,
            line: self.line as int,
            state: state_view(self.state@),
            characters: characters_view(self.characters@),
        }
    }
}

/// The models of the first `k` lines are the models of those lines, in order.
pub proof fn lemma_lines_view_upto(lines: Seq<PassageLine>, k: int)
    requires
        0 <= k <= lines.len(),
    ensures
        lines_view_upto(lines, k).len() == k,
        forall|i: int| 0 <= i < k ==> lines_view_upto(lines, k)[i] == line_view(lines[i]),
    decreases k,
{
    if k > 0 {
        lemma_lines_view_upto(lines, k - 1);
    }
}

/// The models of the first `k` arms are the models of those arms, in order.
pub proof fn lemma_arms_view_upto(arms: Seq<(String, Vec<PassageLine>)>, k: int)
    requires
        0 <= k <= arms.len(),
    ensures
        arms_view_upto(arms, k).len() == k,
        forall|i: int|
            0 <= i < k ==> arms_view_upto(arms, k)[i] == (arms[i].0@, lines_view(arms[i].1@)),
    decreases k,
{
    if k > 0 {
        lemma_arms_view_upto(arms, k - 1);
    }
}

// ---------------------------------------------------------------------------
// Association lookup over the model
// ---------------------------------------------------------------------------
/// The value associated with the first occurrence of `key`, if any.
pub open spec fn lookup<T>(entries: Seq<(Seq<char>, T)>, key: Seq<char>) -> Option<T>
    decreases entries.len(),
{
    if entries.len() == 0 {
        None
    } else if entries[0].0 == key {
        Some(entries[0].1)
    } else {
        lookup(entries.drop_first(), key)
    }
}

/// The index of the first entry bearing `key`.
pub open spec fn lookup_idx<T>(entries: Seq<(Seq<char>, T)>, key: Seq<char>) -> int
    decreases entries.len(),
{
    if entries.len() == 0 {
        0
    } else if entries[0].0 == key {
        0
    } else {
        1 + lookup_idx(entries.drop_first(), key)
    }
}

/// A found key is found at its first index, which lies before every other
/// occurrence of the key.
pub proof fn lemma_lookup_idx<T>(entries: Seq<(Seq<char>, T)>, key: Seq<char>)
    requires
        lookup(entries, key) is Some,
    ensures
        0 <= lookup_idx(entries, key) < entries.len(),
        entries[lookup_idx(entries, key)].0 == key,
        entries[lookup_idx(entries, key)].1 == lookup(entries, key)->Some_0,
        forall|j: int| 0 <= j < lookup_idx(entries, key) ==> entries[j].0 != key,
    decreases entries.len(),
{
    if entries.len() > 0 && entries[0].0 != key {
        lemma_lookup_idx(entries.drop_first(), key);
        assert forall|j: int| 0 <= j < lookup_idx(entries, key) implies entries[j].0 != key by {
            if j > 0 {
                assert(entries.drop_first()[j - 1] == entries[j]);
            }
        }
    }
}

/// Looking up a key that the first `i` entries do not bear skips them.
pub proof fn lemma_lookup_skip<T>(entries: Seq<(Seq<char>, T)>, key: Seq<char>, i: int)
    requires
        0 <= i <= entries.len(),
        forall|j: int| 0 <= j < i ==> entries[j].0 != key,
    ensures
        lookup(entries, key) == lookup(entries.skip(i), key),
        lookup(entries, key) is Some ==> lookup_idx(entries, key) == i + lookup_idx(
            entries.skip(i),
            key,
        ),
    decreases i,
{
    if i > 0 {
        assert(entries.drop_first() =~= entries.skip(1));
        lemma_lookup_skip(entries.drop_first(), key, i - 1);
        assert(entries.drop_first().skip(i - 1) =~= entries.skip(i));
    } else {
        assert(entries.skip(0) =~= entries);
    }
}

/// Updating the value at the first index of `key` changes the lookup of
/// `key` to that value and leaves every other key's lookup unchanged.
pub proof fn lemma_lookup_update<T>(entries: Seq<(Seq<char>, T)>, key: Seq<char>, v: T)
    requires
        lookup(entries, key) is Some,
    ensures
        ({
            let updated = entries.update(lookup_idx(entries, key), (key, v));
            &&& lookup(updated, key) == Some(v)
            &&& forall|k2: Seq<char>| k2 != key ==> lookup(updated, k2) == lookup(entries, k2)
        }),
    decreases entries.len(),
{
    lemma_lookup_idx(entries, key);
    if entries.len() > 0 && entries[0].0 != key {
        lemma_lookup_update(entries.drop_first(), key, v);
        let i = lookup_idx(entries, key);
        let updated = entries.update(i, (key, v));
        assert(updated.len() == entries.len());
        assert(updated[0] == entries[0]);
        assert(updated.drop_first() =~= entries.drop_first().update(i - 1, (key, v)));
        assert(lookup(updated, key) == lookup(updated.drop_first(), key));
        assert forall|k2: Seq<char>| k2 != key implies lookup(updated, k2) == lookup(
            entries,
            k2,
        ) by {
            if entries[0].0 == k2 {
                assert(lookup(updated, k2) == Some(updated[0].1));
                assert(lookup(entries, k2) == Some(entries[0].1));
            } else {
                assert(lookup(updated, k2) == lookup(updated.drop_first(), k2));
                assert(lookup(entries, k2) == lookup(entries.drop_first(), k2));
            }
        }
    } else if entries.len() > 0 {
        let updated = entries.update(0, (key, v));
        assert(updated[0] == (key, v));
        assert(lookup(updated, key) == Some(v));
        assert(updated.drop_first() =~= entries.drop_first());
        assert forall|k2: Seq<char>| k2 != key implies lookup(updated, k2) == lookup(
            entries,
            k2,
        ) by {
            assert(lookup(updated, k2) == lookup(updated.drop_first(), k2));
            assert(lookup(entries, k2) == lookup(entries.drop_first(), k2));
        }
    }
}

// ---------------------------------------------------------------------------
// Flattened addressing over the model
// ---------------------------------------------------------------------------
/// The number of flat addresses that one line occupies: one for the line
/// itself plus, for a branch node, the flattened length of every arm body,
/// taken or not, so that addresses never depend on the path taken.
pub open spec fn line_flat_len(line: LineV) -> int
    decreases line,
{
    match line {
        LineV::Branches(arms) => 1 + arms_flat_len(arms, arms.len() as int),
        _ => 1,
    }
}

/// The summed flattened length of the bodies of the first `k` arms.
pub open spec fn arms_flat_len(arms: Seq<(Seq<char>, Seq<LineV>)>, k: int) -> int
    decreases arms, k,
{
    if k <= 0 || k > arms.len() {
        0
    } else {
        arms_flat_len(arms, k - 1) + seq_flat_len(arms[k - 1].1, arms[k - 1].1.len() as int)
    }
}

/// The flattened length of a whole line sequence: its own length plus the
/// arm bodies of every branch node in it.
pub open spec fn flat_len(lines: Seq<LineV>) -> int
    decreases lines, 1int, lines.len(),
{
    seq_flat_len(lines, lines.len() as int)
}

/// The flattened length of the first `k` lines of a sequence.
pub open spec fn seq_flat_len(lines: Seq<LineV>, k: int) -> int
    decreases lines, 0int, k,
{
    if k <= 0 || k > lines.len() {
        0
    } else {
        seq_flat_len(lines, k - 1) + line_flat_len(lines[k - 1])
    }
}

/// A branch node occupies one flat address plus the flattened lengths of
/// every arm's body, summed across all arms.  No state appears here:
/// flattening is path-independent, and the address space reserves room
/// for every alternative whether or not an arm would be selected.
pub proof fn lemma_branches_flat_len(arms: Seq<(Seq<char>, Seq<LineV>)>)
    ensures
        line_flat_len(LineV::Branches(arms)) == 1 + arms_flat_len(arms, arms.len() as int),
{
}

/// Every single line occupies at least one flat address.
pub proof fn lemma_line_flat_len_pos(line: LineV)
    ensures
        line_flat_len(line) >= 1,
    decreases line, 2int, 0int,
{
    match line {
        LineV::Branches(arms) => {
            lemma_arms_flat_len_nonneg(arms, arms.len() as int);
        },
        _ => {},
    }
}

/// Arm bodies contribute a nonnegative flattened length.
pub proof fn lemma_arms_flat_len_nonneg(arms: Seq<(Seq<char>, Seq<LineV>)>, k: int)
    ensures
        arms_flat_len(arms, k) >= 0,
    decreases arms, 1int, k,
{
    if 0 < k <= arms.len() {
        lemma_arms_flat_len_nonneg(arms, k - 1);
        lemma_seq_flat_len_nonneg(arms[k - 1].1, arms[k - 1].1.len() as int);
    }
}

/// Line sequences contribute a nonnegative flattened length.
pub proof fn lemma_seq_flat_len_nonneg(lines: Seq<LineV>, k: int)
    ensures
        seq_flat_len(lines, k) >= 0,
    decreases lines, 0int, k,
{
    if 0 < k <= lines.len() {
        lemma_seq_flat_len_nonneg(lines, k - 1);
        lemma_line_flat_len_pos(lines[k - 1]);
    }
}

} // verus!
