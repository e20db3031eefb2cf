//! Verified text utilities: string equality, lexicographic order by
//! character scalar value, and splitting at single space characters, as the
//! two expression grammars require.
use vstd::prelude::*;
use vstd::string::StrSliceExecFns;

verus! {

/// The character sequences of a sequence of strings.
pub open spec fn views_of(tokens: Seq<String>) -> Seq<Seq<char>> {
    Seq::new(tokens.len(), |i: int| tokens[i]@)
}

/// The tokens of `s` split at every single space character: `n + 1` tokens
/// for `n` spaces, empty tokens included.
pub open spec fn split_spaces(s: Seq<char>) -> Seq<Seq<char>>
    decreases s.len(),
{
    if s.len() == 0 {
        seq![Seq::<char>::empty()]
    } else if s[0] == ' ' {
        seq![Seq::<char>::empty()] + split_spaces(s.drop_first())
    } else {
        let rest = split_spaces(s.drop_first());
        seq![seq![s[0]] + rest[0]] + rest.drop_first()
    }
}

/// Splitting a sequence whose first space stands at `k` yields the prefix
/// before `k`, then the tokens of what follows the space.
pub proof fn lemma_split_at_space(s: Seq<char>, k: int)
    requires
        0 <= k < s.len(),
        s[k] == ' ',
        forall|j: int| 0 <= j < k ==> s[j] != ' ',
    ensures
        split_spaces(s) == seq![s.take(k)] + split_spaces(s.skip(k + 1)),
    decreases k,
{
    if k == 0 {
        assert(s.take(0) =~= Seq::<char>::empty());
        assert(s.drop_first() =~= s.skip(1));
        assert(split_spaces(s) =~= seq![s.take(0)] + split_spaces(s.skip(1)));
    } else {
        lemma_split_at_space(s.drop_first(), k - 1);
        let rest = split_spaces(s.drop_first());
        assert(s.drop_first().take(k - 1) =~= s.take(k).drop_first());
        assert(s.drop_first().skip(k) =~= s.skip(k + 1));
        assert(rest[0] == s.drop_first().take(k - 1));
        assert(seq![s[0]] + rest[0] =~= s.take(k));
        assert(rest.drop_first() =~= split_spaces(s.skip(k + 1)));
        assert(split_spaces(s) =~= seq![s.take(k)] + split_spaces(s.skip(k + 1)));
    }
}

/// Splitting a sequence without spaces yields that sequence alone.
pub proof fn lemma_split_no_space(s: Seq<char>)
    requires
        forall|j: int| 0 <= j < s.len() ==> s[j] != ' ',
    ensures
        split_spaces(s) == seq![s],
    decreases s.len(),
{
    if s.len() > 0 {
        lemma_split_no_space(s.drop_first());
        let rest = split_spaces(s.drop_first());
        assert(rest[0] == s.drop_first());
        assert(seq![s[0]] + rest[0] =~= s);
        assert(rest.drop_first() =~= Seq::<Seq<char>>::empty());
        assert(split_spaces(s) =~= seq![s]);
    } else {
        assert(s =~= Seq::<char>::empty());
        assert(split_spaces(s) =~= seq![s]);
    }
}

/// Lexicographic strict order on character sequences by scalar value; a
/// proper prefix comes first.
pub open spec fn seq_str_lt(a: Seq<char>, b: Seq<char>) -> bool
    decreases a.len(),
{
    if b.len() == 0 {
        false
    } else if a.len() == 0 {
        true
    } else if (a[0] as u32) < (b[0] as u32) {
        true
    } else if (a[0] as u32) > (b[0] as u32) {
        false
    } else {
        seq_str_lt(a.drop_first(), b.drop_first())
    }
}

/// Two characters with the same scalar value are the same character.
pub proof fn lemma_char_code_injective(c1: char, c2: char)
    requires
        c1 as u32 == c2 as u32,
    ensures
        c1 == c2,
{
}

/// The order is a strict total order on each pair: exactly one of
/// `a < b`, `a == b`, `b < a` holds.
pub proof fn lemma_seq_str_lt_trichotomy(a: Seq<char>, b: Seq<char>)
    ensures
        seq_str_lt(a, b) || a == b || seq_str_lt(b, a),
        seq_str_lt(a, b) ==> a != b && !seq_str_lt(b, a),
        a == b ==> !seq_str_lt(a, b),
    decreases a.len(),
{
    if a.len() > 0 && b.len() > 0 && (a[0] as u32) == (b[0] as u32) {
        lemma_char_code_injective(a[0], b[0]);
        assert(a[0] == b[0]);
        lemma_seq_str_lt_trichotomy(a.drop_first(), b.drop_first());
        if a.drop_first() == b.drop_first() {
            assert forall|i: int| 0 <= i < a.len() implies a[i] == b[i] by {
                if i > 0 {
                    assert(a.drop_first()[i - 1] == b.drop_first()[i - 1]);
                }
            }
            assert(a =~= b);
        }
        if a == b {
            assert(a.drop_first() =~= b.drop_first());
        }
    } else if a.len() > 0 && b.len() > 0 {
        if (a[0] as u32) < (b[0] as u32) {
            assert(seq_str_lt(a, b));
            assert(!seq_str_lt(b, a));
            assert(a != b);
        } else {
            assert((a[0] as u32) > (b[0] as u32));
            assert(seq_str_lt(b, a));
            assert(!seq_str_lt(a, b));
            assert(a != b);
        }
    } else if a.len() == 0 && b.len() == 0 {
        assert(a =~= b);
    } else if a.len() == 0 {
        assert(seq_str_lt(a, b));
        assert(a != b);
        assert(!seq_str_lt(b, a));
    } else {
        assert(seq_str_lt(b, a));
        assert(a != b);
        assert(!seq_str_lt(a, b));
    }
}

/// Whether two string slices hold the same characters.
pub fn str_eq(a: &str, b: &str) -> (r: bool)
    ensures
        r == (a@ == b@),
{
    let alen = a.unicode_len();
    let blen = b.unicode_len();
    if alen != blen {
        return false;
    }
    let mut i: usize = 0;
    while i < alen
        invariant
            alen == a@.len(),
            alen == b@.len(),
            0 <= i <= alen,
            forall|j: int| 0 <= j < i ==> a@[j] == b@[j],
        decreases alen - i,
    {
        if a.get_char(i) != b.get_char(i) {
            return false;
        }
        i += 1;
    }
    proof {
        assert(a@ =~= b@);
    }
    true
}

/// Whether `a` comes strictly before `b` in lexicographic order.
pub fn str_lt(a: &str, b: &str) -> (r: bool)
    ensures
        r == seq_str_lt(a@, b@),
{
    let alen = a.unicode_len();
    let blen = b.unicode_len();
    let mut i: usize = 0;
    proof {
        assert(a@.skip(0) =~= a@);
        assert(b@.skip(0) =~= b@);
    }
    while i < alen && i < blen
        invariant
            alen == a@.len(),
            blen == b@.len(),
            0 <= i <= alen,
            0 <= i <= blen,
            seq_str_lt(a@, b@) == seq_str_lt(a@.skip(i as int), b@.skip(i as int)),
        decreases alen - i,
    {
        let ca = a.get_char(i) as u32;
        let cb = b.get_char(i) as u32;
        proof {
            assert(a@.skip(i as int)[0] == a@[i as int]);
            assert(b@.skip(i as int)[0] == b@[i as int]);
        }
        if ca < cb {
            return true;
        }
        if ca > cb {
            return false;
        }
        proof {
            assert(a@.skip(i as int).drop_first() =~= a@.skip(i as int + 1));
            assert(b@.skip(i as int).drop_first() =~= b@.skip(i as int + 1));
        }
        i += 1;
    }
    proof {
        if i == alen && i == blen {
            assert(b@.skip(i as int).len() == 0);
        } else if i == alen {
            assert(a@.skip(i as int).len() == 0);
            assert(b@.skip(i as int).len() > 0);
        } else {
            assert(b@.skip(i as int).len() == 0);
        }
    }
    alen < blen
}

/// The tokens of `s`, split at every single space character.
pub fn split_tokens(s: &str) -> (tokens: Vec<String>)
    ensures
        views_of(tokens@) == split_spaces(s@),
{
    let len = s.unicode_len();
    let mut tokens: Vec<String> = Vec::new();
    let mut start: usize = 0;
    let mut i: usize = 0;
    proof {
        assert(s@.skip(0) =~= s@);
        assert(views_of(tokens@) =~= Seq::<Seq<char>>::empty());
    }
    while i < len
        invariant
            len == s@.len(),
            0 <= start <= i <= len,
            forall|j: int| start <= j < i ==> s@[j] != ' ',
            split_spaces(s@) == views_of(tokens@) + split_spaces(s@.skip(start as int)),
        decreases len - i,
    {
        let c = s.get_char(i);
        if c == ' ' {
            let tok = s.substring_char(start, i).to_owned();
            proof {
                let tail = s@.skip(start as int);
                lemma_split_at_space(tail, i - start as int);
                assert(tail.take(i - start as int) =~= s@.subrange(start as int, i as int));
                assert(tail.skip(i - start as int + 1) =~= s@.skip(i as int + 1));
                assert(views_of(tokens@.push(tok)) =~= views_of(tokens@) + seq![tok@]);
                assert(split_spaces(s@) =~= views_of(tokens@.push(tok)) + split_spaces(
                    s@.skip(i as int + 1),
                ));
            }
            tokens.push(tok);
            start = i + 1;
        }
        i += 1;
    }
    let tok = s.substring_char(start, len).to_owned();
    proof {
        lemma_split_no_space(s@.skip(start as int));
        assert(s@.subrange(start as int, len as int) =~= s@.skip(start as int));
        assert(views_of(tokens@.push(tok)) =~= views_of(tokens@) + seq![tok@]);
        assert(split_spaces(s@) =~= views_of(tokens@.push(tok)));
    }
    tokens.push(tok);
    tokens
}

} // verus!
