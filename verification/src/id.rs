//! Block identity: a ULID, which is also the block file's name stem.
//!
//! An id is 26 characters of the Crockford base-32 alphabet (`0-9`, `A-Z` without `I`, `L`,
//! `O`, `U`), written in upper case, whose first character is at most `7` (so the 130-bit
//! text fits the 128-bit value).

use vstd::prelude::*;
use crate::text::{chars_of, chars_eq, lex_lt};

verus! {

/// A block's stable identity.
#[derive(Debug, PartialEq, Eq, Hash, PartialOrd, Ord)]
pub struct BlockId {
    id: String,
}

/// Why a string is not a block id.
#[derive(Debug, Clone, Copy, PartialEq, Eq)]
pub enum IdError {
    /// The text is not 26 characters long.
    Length,
    /// The text holds a character outside the Crockford alphabet, or overflows 128 bits.
    Character,
}

impl View for BlockId {
    type V = Seq<char>;

    closed spec fn view(&self) -> Seq<char> {
        self.id@
    }
}

impl Clone for BlockId {
    fn clone(&self) -> (r: Self)
        ensures
            r@ == self@,
    {
        proof {
            use_type_invariant(self);
        }
        BlockId { id: self.id.clone() }
    }
}

/// A character of the upper-case Crockford base-32 alphabet.
pub open spec fn is_crockford(c: char) -> bool {
    ('0' <= c && c <= '9') || ('A' <= c && c <= 'Z' && c != 'I' && c != 'L' && c != 'O' && c
        != 'U')
}

/// Whether `s` is the canonical text of a ULID.
pub open spec fn is_ulid(s: Seq<char>) -> bool {
    &&& s.len() == 26
    &&& forall|i: int| 0 <= i < 26 ==> is_crockford(#[trigger] s[i])
    &&& s[0] <= '7'
}

fn crockford(c: char) -> (r: bool)
    ensures
        r == is_crockford(c),
{
    ('0' <= c && c <= '9') || ('A' <= c && c <= 'Z' && c != 'I' && c != 'L' && c != 'O' && c
        != 'U')
}

/// The value of a Crockford base-32 digit.
pub open spec fn crockford_value(c: char) -> int {
    if '0' <= c && c <= '9' {
        c as int - '0' as int
    } else if c <= 'H' {
        c as int - 'A' as int + 10
    } else if c <= 'K' {
        c as int - 'J' as int + 18
    } else if c <= 'N' {
        c as int - 'M' as int + 20
    } else if c <= 'T' {
        c as int - 'P' as int + 22
    } else {
        c as int - 'V' as int + 27
    }
}

/// `32^n`.
pub open spec fn pow32(n: nat) -> int
    decreases n,
{
    if n == 0 {
        1
    } else {
        32 * pow32((n - 1) as nat)
    }
}

/// The number written by the first `n` base-32 digits of `s`.
pub open spec fn base32_prefix(s: Seq<char>, n: int) -> int
    decreases n,
{
    if n <= 0 {
        0
    } else {
        32 * base32_prefix(s, n - 1) + crockford_value(s[n - 1])
    }
}

/// The creation time a ULID encodes: the Unix milliseconds in its first ten digits.
pub open spec fn ulid_millis(s: Seq<char>) -> int {
    base32_prefix(s, 10)
}

proof fn lemma_pow32_mono(i: nat, j: nat)
    requires
        i <= j,
    ensures
        1 <= pow32(i) <= pow32(j),
    decreases j,
{
    if j > 0 {
        if i < j {
            lemma_pow32_mono(i, (j - 1) as nat);
        } else {
            lemma_pow32_mono((i - 1) as nat, (j - 1) as nat);
        }
    }
}

fn crockford_digit(c: char) -> (r: u64)
    requires
        is_crockford(c),
    ensures
        r == crockford_value(c),
        r < 32,
{
    let n = c as u32;
    if '0' <= c && c <= '9' {
        (n - 48) as u64
    } else if c <= 'H' {
        (n - 65 + 10) as u64
    } else if c <= 'K' {
        (n - 74 + 18) as u64
    } else if c <= 'N' {
        (n - 77 + 20) as u64
    } else if c <= 'T' {
        (n - 80 + 22) as u64
    } else {
        (n - 86 + 27) as u64
    }
}

impl BlockId {
    #[verifier::type_invariant]
    spec fn well_formed(self) -> bool {
        is_ulid(self.id@)
    }

    /// The creation time encoded in the id, in Unix milliseconds.
    pub fn timestamp_ms(&self) -> (r: u64)
        ensures
            r == ulid_millis(self@),
    {
        proof {
            use_type_invariant(self);
        }
        let v = chars_of(self.id.as_str());
        let mut acc: u64 = 0;
        let mut i: usize = 0;
        while i < 10
            invariant
                v@ == self@,
                is_ulid(v@),
                i <= 10,
                acc == base32_prefix(v@, i as int),
                acc < pow32(i as nat),
            decreases 10 - i,
        {
            proof {
                lemma_pow32_mono(i as nat, 9);
                reveal_with_fuel(pow32, 10);
                assert(pow32(9) == 35184372088832);
            }
            let d = crockford_digit(v[i]);
            acc = acc * 32 + d;
            i += 1;
        }
        acc
    }

    /// Parse a ULID text into an id.
    pub fn parse(s: &str) -> (r: Result<BlockId, IdError>)
        ensures
            r is Ok <==> is_ulid(s@),
            r matches Ok(id) ==> id@ == s@,
            r matches Err(e) ==> (e == IdError::Length <==> s@.len() != 26),
    {
        let v = chars_of(s);
        if v.len() != 26 {
            return Err(IdError::Length);
        }
        let mut i: usize = 0;
        while i < 26
            invariant
                v@ == s@,
                v@.len() == 26,
                i <= 26,
                forall|k: int| 0 <= k < i ==> is_crockford(#[trigger] v@[k]),
            decreases 26 - i,
        {
            if !crockford(v[i]) {
                return Err(IdError::Character);
            }
            i += 1;
        }
        if v[0] > '7' {
            return Err(IdError::Character);
        }
        Ok(BlockId { id: s.to_owned() })
    }

    /// The id's text.
    pub fn as_str(&self) -> (r: &str)
        ensures
            r@ == self@,
    {
        self.id.as_str()
    }

    /// Whether two ids are the same.
    pub fn same(&self, other: &BlockId) -> (r: bool)
        ensures
            r == (self@ == other@),
    {
        let a = chars_of(self.id.as_str());
        let b = chars_of(other.id.as_str());
        chars_eq(&a, &b)
    }
}

// ---------------------------------------------------------------------------------------------
// Ids sort by creation time.
// ---------------------------------------------------------------------------------------------

proof fn lemma_crockford_order(c: char, d: char)
    requires
        is_crockford(c),
        is_crockford(d),
    ensures
        0 <= crockford_value(c) < 32,
        c < d ==> crockford_value(c) < crockford_value(d),
{
}

proof fn lemma_prefix_same(s: Seq<char>, t: Seq<char>, n: int)
    requires
        0 <= n <= s.len(),
        n <= t.len(),
        forall|k: int| 0 <= k < n ==> s[k] == t[k],
    ensures
        base32_prefix(s, n) == base32_prefix(t, n),
    decreases n,
{
    if n > 0 {
        lemma_prefix_same(s, t, n - 1);
    }
}

proof fn lemma_prefix_bounds(s: Seq<char>, n: int)
    requires
        0 <= n <= s.len(),
        forall|k: int| 0 <= k < n ==> is_crockford(#[trigger] s[k]),
    ensures
        0 <= base32_prefix(s, n),
    decreases n,
{
    if n > 0 {
        lemma_prefix_bounds(s, n - 1);
        lemma_crockford_order(s[n - 1], s[n - 1]);
    }
}

proof fn lemma_prefix_less(s: Seq<char>, t: Seq<char>, i: int, n: int)
    requires
        0 <= i < n <= s.len(),
        n <= t.len(),
        forall|k: int| 0 <= k < n ==> is_crockford(#[trigger] s[k]) && is_crockford(t[k]),
        forall|k: int| 0 <= k < i ==> s[k] == t[k],
        s[i] < t[i],
    ensures
        base32_prefix(s, n) < base32_prefix(t, n),
    decreases n,
{
    if n == i + 1 {
        lemma_prefix_same(s, t, i);
        lemma_crockford_order(s[i], t[i]);
    } else {
        lemma_prefix_less(s, t, i, n - 1);
        lemma_crockford_order(s[n - 1], t[n - 1]);
        lemma_crockford_order(t[n - 1], t[n - 1]);
        let a = base32_prefix(s, n - 1);
        let b = base32_prefix(t, n - 1);
        assert(32 * a + crockford_value(s[n - 1]) < 32 * b + crockford_value(t[n - 1])) by (nonlinear_arith)
            requires
                a < b,
                0 <= crockford_value(s[n - 1]) < 32,
                0 <= crockford_value(t[n - 1]),
        ;
    }
}

proof fn lemma_lex_first_difference(a: Seq<char>, b: Seq<char>) -> (i: int)
    requires
        a.len() == b.len(),
        lex_lt(a, b),
    ensures
        0 <= i < a.len(),
        forall|k: int| 0 <= k < i ==> a[k] == b[k],
        a[i] < b[i],
    decreases a.len(),
{
    if a[0] != b[0] {
        0
    } else {
        let j = lemma_lex_first_difference(a.drop_first(), b.drop_first());
        assert forall|k: int| 0 <= k < j + 1 implies a[k] == b[k] by {
            if k > 0 {
                assert(a[k] == a.drop_first()[k - 1]);
                assert(b[k] == b.drop_first()[k - 1]);
            }
        }
        assert(a[j + 1] == a.drop_first()[j]);
        assert(b[j + 1] == b.drop_first()[j]);
        j + 1
    }
}

/// Ids sort by creation time: of two ids, the one that sorts first (character by character)
/// was not created later, and one created strictly earlier sorts first.
pub proof fn lemma_ids_sort_by_time(a: Seq<char>, b: Seq<char>)
    requires
        is_ulid(a),
        is_ulid(b),
    ensures
        lex_lt(a, b) ==> ulid_millis(a) <= ulid_millis(b),
        ulid_millis(a) < ulid_millis(b) ==> lex_lt(a, b),
{
    if lex_lt(a, b) {
        let i = lemma_lex_first_difference(a, b);
        if i < 10 {
            lemma_prefix_less(a, b, i, 10);
        } else {
            lemma_prefix_same(a, b, 10);
        }
    }
    if ulid_millis(a) < ulid_millis(b) {
        if !lex_lt(a, b) {
            crate::text::lemma_lex_total(a, b);
            if lex_lt(b, a) {
                let i = lemma_lex_first_difference(b, a);
                if i < 10 {
                    lemma_prefix_less(b, a, i, 10);
                } else {
                    lemma_prefix_same(b, a, 10);
                }
            } else {
                lemma_prefix_same(a, b, 10);
            }
        }
    }
}

} // verus!
