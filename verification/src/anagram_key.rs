//! The canonical encoding of an unordered letter multiset.
//!
//! A key is a pair `(len, inner)`: `inner` is the product of the primes of
//! the letters and `len` is the letter count.  Two words are anagrams of one
//! another exactly when their keys are equal; adding keys is multiset union
//! (checked multiplication), subtracting is multiset difference (division,
//! defined when the divisor's letters are contained in the dividend's).

use vstd::prelude::*;
use vstd::arithmetic::power2::{
    pow2, lemma_pow2_adds, lemma_pow2_pos, lemma_pow2_strictly_increases, lemma2_to64,
};

use crate::character::{Character, spec_character_of_char};

verus! {

/// An integer-encoded letter multiset: `inner` is the product of the primes
/// of the letters, `len` the number of letters.  The empty multiset is
/// `(len: 0, inner: 1)`.
#[derive(Clone, Copy, PartialEq, Eq, Structural, Debug, Hash)]
pub struct AnagramKey {
    pub len: u8,
    pub inner: u128,
}

/// The letters of a sequence of `char`s, in order: ASCII letters of either
/// case map to their `Character`; every other character is dropped.
pub open spec fn letters_of(s: Seq<char>) -> Seq<Character>
    decreases s.len(),
{
    if s.len() == 0 {
        Seq::empty()
    } else {
        match spec_character_of_char(s[0]) {
            Some(ch) => seq![ch] + letters_of(s.drop_first()),
            None => letters_of(s.drop_first()),
        }
    }
}

/// The product of the primes of a sequence of letters.
pub open spec fn prime_product(s: Seq<Character>) -> nat
    decreases s.len(),
{
    if s.len() == 0 {
        1
    } else {
        s[0].spec_prime() * prime_product(s.drop_first())
    }
}

/// The prime at a frequency index, 0 outside the alphabet.
pub open spec fn prime_at(idx: nat) -> nat {
    character_at(idx).spec_prime()
}

/// The letter at a frequency index; indices outside the alphabet give `Z`
/// and are never used.
pub open spec fn character_at(idx: nat) -> Character {
    if idx == 0 {
        Character::E
    } else if idx == 1 {
        Character::T
    } else if idx == 2 {
        Character::A
    } else if idx == 3 {
        Character::I
    } else if idx == 4 {
        Character::N
    } else if idx == 5 {
        Character::O
    } else if idx == 6 {
        Character::S
    } else if idx == 7 {
        Character::H
    } else if idx == 8 {
        Character::R
    } else if idx == 9 {
        Character::D
    } else if idx == 10 {
        Character::L
    } else if idx == 11 {
        Character::U
    } else if idx == 12 {
        Character::C
    } else if idx == 13 {
        Character::M
    } else if idx == 14 {
        Character::F
    } else if idx == 15 {
        Character::W
    } else if idx == 16 {
        Character::Y
    } else if idx == 17 {
        Character::G
    } else if idx == 18 {
        Character::P
    } else if idx == 19 {
        Character::B
    } else if idx == 20 {
        Character::V
    } else if idx == 21 {
        Character::K
    } else if idx == 22 {
        Character::Q
    } else if idx == 23 {
        Character::J
    } else if idx == 24 {
        Character::X
    } else {
        Character::Z
    }
}

/// The letters read back from an encoded product by trial division, in
/// frequency order: for each letter in turn, one occurrence per time its
/// prime divides what remains.
pub open spec fn decode_chars(inner: nat, idx: nat) -> Seq<Character>
    decreases inner, (if idx <= 26 { 26 - idx } else { 0 }) as nat,
    via decode_chars_decreases
{
    if idx >= 26 {
        Seq::empty()
    } else if inner >= 2 && inner % prime_at(idx) == 0 {
        seq![character_at(idx)] + decode_chars(inner / prime_at(idx), idx)
    } else {
        decode_chars(inner, idx + 1)
    }
}

/// Every index maps to a prime between 2 and 101.
pub proof fn lemma_prime_at_bounds(idx: nat)
    ensures
        2 <= prime_at(idx) <= 101,
{
}

#[via_fn]
proof fn decode_chars_decreases(inner: nat, idx: nat) {
    if idx < 26 && inner >= 2 && inner % prime_at(idx) == 0 {
        lemma_prime_at_bounds(idx);
        assert(inner / prime_at(idx) < inner) by (nonlinear_arith)
            requires
                inner >= 2,
                prime_at(idx) >= 2,
        ;
    }
}

/// What trial division leaves of an encoded product once every prime of the
/// alphabet has been divided out.
pub open spec fn decode_rem(inner: nat, idx: nat) -> nat
    decreases inner, (if idx <= 26 { 26 - idx } else { 0 }) as nat,
    via decode_rem_decreases
{
    if idx >= 26 {
        inner
    } else if inner >= 2 && inner % prime_at(idx) == 0 {
        decode_rem(inner / prime_at(idx), idx)
    } else {
        decode_rem(inner, idx + 1)
    }
}

#[via_fn]
proof fn decode_rem_decreases(inner: nat, idx: nat) {
    if idx < 26 && inner >= 2 && inner % prime_at(idx) == 0 {
        lemma_prime_at_bounds(idx);
        assert(inner / prime_at(idx) < inner) by (nonlinear_arith)
            requires
                inner >= 2,
                prime_at(idx) >= 2,
        ;
    }
}

pub proof fn lemma_prime_product_push(s: Seq<Character>, ch: Character)
    ensures
        prime_product(s.push(ch)) == prime_product(s) * ch.spec_prime(),
    decreases s.len(),
{
    if s.len() == 0 {
        assert(s.push(ch)[0] == ch);
        assert(s.push(ch).drop_first() =~= Seq::<Character>::empty());
        assert(prime_product(Seq::<Character>::empty()) == 1);
        assert(prime_product(s.push(ch)) == ch.spec_prime() * 1);
        assert(prime_product(s) == 1);
    } else {
        assert(s.push(ch)[0] == s[0]);
        assert(s.push(ch).drop_first() =~= s.drop_first().push(ch));
        lemma_prime_product_push(s.drop_first(), ch);
        assert(prime_product(s.push(ch)) == s[0].spec_prime() * prime_product(
            s.drop_first().push(ch),
        ));
        assert(prime_product(s) == s[0].spec_prime() * prime_product(s.drop_first()));
        assert(s[0].spec_prime() * (prime_product(s.drop_first()) * ch.spec_prime())
            == (s[0].spec_prime() * prime_product(s.drop_first())) * ch.spec_prime())
            by (nonlinear_arith);
    }
}

pub proof fn lemma_prime_product_concat(s1: Seq<Character>, s2: Seq<Character>)
    ensures
        prime_product(s1 + s2) == prime_product(s1) * prime_product(s2),
    decreases s1.len(),
{
    if s1.len() == 0 {
        assert(s1 + s2 =~= s2);
        assert(prime_product(s1) == 1);
    } else {
        assert((s1 + s2).drop_first() =~= s1.drop_first() + s2);
        lemma_prime_product_concat(s1.drop_first(), s2);
        assert((s1 + s2)[0] == s1[0]);
        assert((s1 + s2).len() != 0);
        assert(prime_product(s1 + s2) == s1[0].spec_prime() * prime_product(
            s1.drop_first() + s2,
        ));
        assert(prime_product(s1) == s1[0].spec_prime() * prime_product(s1.drop_first()));
        assert(s1[0].spec_prime() * (prime_product(s1.drop_first()) * prime_product(s2))
            == (s1[0].spec_prime() * prime_product(s1.drop_first())) * prime_product(s2))
            by (nonlinear_arith);
    }
}

pub proof fn lemma_prime_product_pos(s: Seq<Character>)
    ensures
        prime_product(s) >= 1,
    decreases s.len(),
{
    if s.len() > 0 {
        lemma_prime_product_pos(s.drop_first());
        assert(s[0].spec_prime() >= 2);
        assert(s[0].spec_prime() * prime_product(s.drop_first()) >= 1) by (nonlinear_arith)
            requires
                s[0].spec_prime() >= 2,
                prime_product(s.drop_first()) >= 1,
        ;
    }
}

/// Every letter's prime is at least 2, so the product dominates a power of
/// two in the letter count.
pub proof fn lemma_prime_product_ge_pow2(s: Seq<Character>)
    ensures
        prime_product(s) >= pow2(s.len()),
    decreases s.len(),
{
    if s.len() == 0 {
        assert(pow2(0) == 1) by {
            lemma2_to64();
        }
    } else {
        lemma_prime_product_ge_pow2(s.drop_first());
        lemma_pow2_adds(1, (s.len() - 1) as nat);
        assert(pow2(1) == 2) by {
            lemma2_to64();
        }
        assert(s[0].spec_prime() * prime_product(s.drop_first()) >= 2 * pow2(
            (s.len() - 1) as nat,
        )) by (nonlinear_arith)
            requires
                s[0].spec_prime() >= 2,
                prime_product(s.drop_first()) >= pow2((s.len() - 1) as nat),
                pow2((s.len() - 1) as nat) >= 0,
        ;
    }
}

pub proof fn lemma_letters_of_push(s: Seq<char>, c: char)
    ensures
        letters_of(s.push(c)) == match spec_character_of_char(c) {
            Some(ch) => letters_of(s).push(ch),
            None => letters_of(s),
        },
    decreases s.len(),
{
    if s.len() == 0 {
        assert(s.push(c)[0] == c);
        assert(s.push(c).drop_first() =~= Seq::<char>::empty());
        assert(letters_of(Seq::<char>::empty()) =~= Seq::<Character>::empty());
        match spec_character_of_char(c) {
            Some(ch) => {
                assert(letters_of(s.push(c)) =~= letters_of(s).push(ch));
            },
            None => {
                assert(letters_of(s.push(c)) =~= letters_of(s));
            },
        }
    } else {
        assert(s.push(c)[0] == s[0]);
        assert(s.push(c).drop_first() =~= s.drop_first().push(c));
        lemma_letters_of_push(s.drop_first(), c);
        match spec_character_of_char(c) {
            Some(ch) => {
                match spec_character_of_char(s[0]) {
                    Some(ch0) => {
                        assert(letters_of(s.push(c)) =~= letters_of(s).push(ch));
                    },
                    None => {
                        assert(letters_of(s.push(c)) =~= letters_of(s).push(ch));
                    },
                }
            },
            None => {
                match spec_character_of_char(s[0]) {
                    Some(ch0) => {
                        assert(letters_of(s.push(c)) =~= letters_of(s));
                    },
                    None => {
                        assert(letters_of(s.push(c)) =~= letters_of(s));
                    },
                }
            },
        }
    }
}

pub proof fn lemma_letters_of_concat(s1: Seq<char>, s2: Seq<char>)
    ensures
        letters_of(s1 + s2) == letters_of(s1) + letters_of(s2),
    decreases s1.len(),
{
    if s1.len() == 0 {
        assert(s1 + s2 =~= s2);
        assert(letters_of(s1) + letters_of(s2) =~= letters_of(s2));
    } else {
        assert((s1 + s2).drop_first() =~= s1.drop_first() + s2);
        assert((s1 + s2)[0] == s1[0]);
        lemma_letters_of_concat(s1.drop_first(), s2);
        match spec_character_of_char(s1[0]) {
            Some(ch) => {
                assert(letters_of(s1 + s2) =~= letters_of(s1) + letters_of(s2));
            },
            None => {
                assert(letters_of(s1 + s2) =~= letters_of(s1) + letters_of(s2));
            },
        }
    }
}

/// Stepping a prefix of a character sequence one character to the right
/// extends its letters by at most that one character's letter.
pub proof fn lemma_letters_of_take_step(s: Seq<char>, i: int)
    requires
        0 <= i < s.len(),
    ensures
        letters_of(s.take(i + 1)) == match spec_character_of_char(s[i]) {
            Some(ch) => letters_of(s.take(i)).push(ch),
            None => letters_of(s.take(i)),
        },
{
    assert(s.take(i + 1) =~= s.take(i).push(s[i]));
    lemma_letters_of_push(s.take(i), s[i]);
}

pub proof fn lemma_prime_product_singleton(ch: Character)
    ensures
        prime_product(seq![ch]) == ch.spec_prime(),
{
    lemma_prime_product_push(Seq::<Character>::empty(), ch);
    assert(seq![ch] =~= Seq::<Character>::empty().push(ch));
    assert(prime_product(Seq::<Character>::empty()) == 1);
}

/// Trial division accounts exactly for the encoded value: the product of the
/// decoded letters times what remains is the value itself.
pub proof fn lemma_decode_product(inner: nat, idx: nat)
    ensures
        prime_product(decode_chars(inner, idx)) * decode_rem(inner, idx) == inner,
    decreases inner, (if idx <= 26 { 26 - idx } else { 0 }) as nat,
{
    if idx >= 26 {
        assert(decode_chars(inner, idx) == Seq::<Character>::empty());
        assert(prime_product(Seq::<Character>::empty()) == 1);
        assert(decode_rem(inner, idx) == inner);
    } else if inner >= 2 && inner % prime_at(idx) == 0 {
        let p = prime_at(idx);
        let rest = inner / p;
        lemma_prime_at_bounds(idx);
        assert(rest < inner) by (nonlinear_arith)
            requires
                inner >= 2,
                p >= 2,
                rest == inner / p,
        ;
        lemma_decode_product(rest, idx);
        assert(decode_chars(inner, idx) == seq![character_at(idx)] + decode_chars(rest, idx));
        assert(decode_rem(inner, idx) == decode_rem(rest, idx));
        lemma_prime_product_concat(seq![character_at(idx)], decode_chars(rest, idx));
        lemma_prime_product_singleton(character_at(idx));
        assert(inner == p * rest) by (nonlinear_arith)
            requires
                p >= 2,
                inner % p == 0,
                rest == inner / p,
        ;
        assert(prime_product(decode_chars(inner, idx)) * decode_rem(inner, idx) == inner)
            by (nonlinear_arith)
            requires
                prime_product(decode_chars(inner, idx)) == p * prime_product(
                    decode_chars(rest, idx),
                ),
                decode_rem(inner, idx) == decode_rem(rest, idx),
                prime_product(decode_chars(rest, idx)) * decode_rem(rest, idx) == rest,
                inner == p * rest,
        ;
    } else {
        lemma_decode_product(inner, idx + 1);
        assert(decode_chars(inner, idx) == decode_chars(inner, idx + 1));
        assert(decode_rem(inner, idx) == decode_rem(inner, idx + 1));
    }
}

impl AnagramKey {
    /// A key is well formed when its count is what its product encodes:
    /// trial division strips the product down to 1 in exactly `len` steps.
    /// Every key built by `from_str`, `add` or `sub` of well-formed keys is
    /// well formed.
    pub open spec fn wf(self) -> bool {
        &&& self.inner >= 1
        &&& decode_rem(self.inner as nat, 0) == 1
        &&& self.len as nat == decode_chars(self.inner as nat, 0).len()
    }

    pub fn is_empty(&self) -> (r: bool)
        ensures
            r == (self.inner == 1),
    {
        self.inner == 1
    }

    pub fn empty() -> (r: Self)
        ensures
            r.len == 0,
            r.inner == 1,
    {
        AnagramKey { len: 0, inner: 1 }
    }

    pub fn is_length_at_least(&self, min: u8) -> (r: bool)
        ensures
            r == (self.len >= min),
    {
        self.len >= min
    }

    /// Multiset union: the product of the products and the sum of the
    /// counts, or `None` when either would overflow its machine type.
    pub fn add(self, rhs: Self) -> (r: Option<Self>)
        ensures
            match r {
                Some(k) => {
                    &&& self.inner * rhs.inner <= u128::MAX
                    &&& self.len + rhs.len <= u8::MAX
                    &&& k.inner == self.inner * rhs.inner
                    &&& k.len == self.len + rhs.len
                },
                None => self.inner * rhs.inner > u128::MAX || self.len + rhs.len > u8::MAX,
            },
    {
        match self.inner.checked_mul(rhs.inner) {
            Some(inner) => match self.len.checked_add(rhs.len) {
                Some(len) => Some(AnagramKey { len, inner }),
                None => None,
            },
            None => None,
        }
    }

    /// Multiset difference: defined when the divisor's product divides this
    /// one's and its count is no larger; the quotient and the count
    /// difference otherwise.
    pub fn sub(self, rhs: Self) -> (r: Option<Self>)
        ensures
            match r {
                Some(k) => {
                    &&& rhs.inner >= 1
                    &&& self.inner % rhs.inner == 0
                    &&& self.len >= rhs.len
                    &&& k.inner == self.inner / rhs.inner
                    &&& k.len == self.len - rhs.len
                },
                None => rhs.inner == 0 || self.inner % rhs.inner != 0 || self.len < rhs.len,
            },
    {
        if rhs.inner == 0 {
            return None;
        }
        if self.inner % rhs.inner != 0 {
            return None;
        }
        if self.len < rhs.len {
            return None;
        }
        Some(AnagramKey { len: self.len - rhs.len, inner: self.inner / rhs.inner })
    }

    /// Reads a key from text: ASCII letters of either case contribute their
    /// primes, all other characters are ignored.  Fails exactly when the
    /// product of the primes does not fit the encoding.
    pub fn from_str(s: &str) -> (r: Result<Self, &'static str>)
        ensures
            match r {
                Ok(k) => {
                    &&& prime_product(letters_of(s@)) <= u128::MAX
                    &&& k.inner == prime_product(letters_of(s@))
                    &&& k.len == letters_of(s@).len()
                },
                Err(_) => prime_product(letters_of(s@)) > u128::MAX,
            },
    {
        let n = s.unicode_len();
        let mut inner: u128 = 1;
        let mut len: u8 = 0;
        let mut i: usize = 0;
        proof {
            assert(s@.take(0) =~= Seq::<char>::empty());
            lemma2_to64();
        }
        while i < n
            invariant
                i <= n,
                n == s@.len(),
                inner as nat == prime_product(letters_of(s@.take(i as int))),
                len as nat == letters_of(s@.take(i as int)).len(),
                pow2(len as nat) <= inner,
                inner >= 1,
            decreases n - i,
        {
            let c = s.get_char(i);
            proof {
                lemma_letters_of_take_step(s@, i as int);
            }
            match Character::try_from(c) {
                Ok(ch) => {
                    let ghost prefix = letters_of(s@.take(i as int));
                    proof {
                        lemma_prime_product_push(prefix, ch);
                    }
                    match inner.checked_mul(ch.prime()) {
                        Some(next) => {
                            proof {
                                lemma_pow2_adds(len as nat, 1);
                                lemma_pow2_pos((len + 1) as nat);
                                lemma2_to64();
                                assert(pow2(len as nat) * 2 <= inner * ch.spec_prime())
                                    by (nonlinear_arith)
                                    requires
                                        pow2(len as nat) <= inner,
                                        ch.spec_prime() >= 2,
                                        inner >= 1,
                                ;
                                if len == u8::MAX {
                                    lemma_pow2_strictly_increases(128, len as nat + 1);
                                    lemma_pow2_adds(64, 64);
                                    lemma2_to64();
                                    assert(pow2(128) == 0x10000000000000000 * 0x10000000000000000);
                                    assert(false);
                                }
                            }
                            inner = next;
                            len = len + 1;
                        },
                        None => {
                            proof {
                                let whole = letters_of(s@);
                                let rest = letters_of(s@.skip(i as int + 1));
                                assert(s@ =~= s@.take(i as int + 1) + s@.skip(i as int + 1));
                                lemma_letters_of_concat(
                                    s@.take(i as int + 1),
                                    s@.skip(i as int + 1),
                                );
                                lemma_prime_product_concat(prefix.push(ch), rest);
                                lemma_prime_product_pos(rest);
                                assert(prime_product(whole) == (inner * ch.spec_prime())
                                    * prime_product(rest));
                                assert(prime_product(whole) >= inner * ch.spec_prime())
                                    by (nonlinear_arith)
                                    requires
                                        prime_product(whole) == (inner * ch.spec_prime())
                                            * prime_product(rest),
                                        prime_product(rest) >= 1,
                                        inner * ch.spec_prime() > u128::MAX,
                                ;
                            }
                            return Err("String is too long");
                        },
                    }
                },
                Err(_) => {},
            }
            i = i + 1;
        }
        proof {
            assert(s@.take(n as int) =~= s@);
        }
        Ok(AnagramKey { len, inner })
    }

    /// Renders the letter multiset: the letters in frequency order, upper
    /// case, read back from the product by trial division; the empty key
    /// renders as `"!"`.
    pub fn to_string(&self) -> (r: String)
        ensures
            self.inner == 1 ==> r@ == seq!['!'],
            self.inner != 1 ==> r@ == decode_chars(self.inner as nat, 0).map_values(
                |ch: Character| ch.spec_upper(),
            ),
    {
        if self.inner == 1 {
            let mut out = String::new();
            out.append("!");
            proof {
                reveal_strlit("!");
                assert(out@ =~= seq!['!']);
            }
            return out;
        }
        let mut out = String::new();
        let mut rem: u128 = self.inner;
        let ghost mut acc: Seq<Character> = Seq::empty();
        proof {
            assert(decode_chars(self.inner as nat, 0) =~= acc + decode_chars(rem as nat, 0));
            assert(out@ =~= acc.map_values(|ch: Character| ch.spec_upper()));
        }
        let mut idx: u8 = 0;
        while idx < 26
            invariant
                idx <= 26,
                decode_chars(self.inner as nat, 0) == acc + decode_chars(rem as nat, idx as nat),
                out@ == acc.map_values(|ch: Character| ch.spec_upper()),
            decreases 26 - idx, rem,
        {
            let ch = character_from_index(idx);
            let p = ch.prime();
            proof {
                assert(prime_at(idx as nat) == p);
                assert(character_at(idx as nat) == ch);
            }
            while rem >= 2 && rem % p == 0
                invariant
                    idx < 26,
                    p == prime_at(idx as nat),
                    p >= 2,
                    ch == character_at(idx as nat),
                    decode_chars(self.inner as nat, 0) == acc + decode_chars(
                        rem as nat,
                        idx as nat,
                    ),
                    out@ == acc.map_values(|ch: Character| ch.spec_upper()),
                decreases rem,
            {
                let c = ch.as_str();
                out.append(c);
                proof {
                    assert(decode_chars(rem as nat, idx as nat) == seq![ch] + decode_chars(
                        (rem / p) as nat,
                        idx as nat,
                    ));
                    let acc2 = acc.push(ch);
                    assert(acc + decode_chars(rem as nat, idx as nat) =~= acc2 + decode_chars(
                        (rem / p) as nat,
                        idx as nat,
                    ));
                    assert(acc2.map_values(|ch: Character| ch.spec_upper()) =~= acc.map_values(
                        |ch: Character| ch.spec_upper(),
                    ).push(ch.spec_upper()));
                    acc = acc2;
                }
                rem = rem / p;
            }
            proof {
                assert(decode_chars(rem as nat, idx as nat) == decode_chars(
                    rem as nat,
                    idx as nat + 1,
                ));
            }
            idx = idx + 1;
        }
        proof {
            assert(decode_chars(rem as nat, 26) =~= Seq::<Character>::empty());
            assert(decode_chars(self.inner as nat, 0) =~= acc);
        }
        out
    }
}

/// The letter at a frequency index, as executable code.
pub fn character_from_index(idx: u8) -> (r: Character)
    requires
        idx < 26,
    ensures
        r == character_at(idx as nat),
{
    match idx {
        0 => Character::E,
        1 => Character::T,
        2 => Character::A,
        3 => Character::I,
        4 => Character::N,
        5 => Character::O,
        6 => Character::S,
        7 => Character::H,
        8 => Character::R,
        9 => Character::D,
        10 => Character::L,
        11 => Character::U,
        12 => Character::C,
        13 => Character::M,
        14 => Character::F,
        15 => Character::W,
        16 => Character::Y,
        17 => Character::G,
        18 => Character::P,
        19 => Character::B,
        20 => Character::V,
        21 => Character::K,
        22 => Character::Q,
        23 => Character::J,
        24 => Character::X,
        _ => Character::Z,
    }
}

/// Adding a key and then subtracting it gives back the first key: whenever
/// `a.add(b)` is defined its result `c` satisfies `c.sub(b) == Some(a)`, by
/// the contracts of `add` and `sub`.
pub proof fn lemma_add_sub_round_trip(a: AnagramKey, b: AnagramKey)
    requires
        b.inner >= 1,
        a.inner * b.inner <= u128::MAX,
        a.len + b.len <= u8::MAX,
    ensures
        (a.inner * b.inner) % (b.inner as int) == 0,
        (a.inner * b.inner) / (b.inner as int) == a.inner,
        (a.len + b.len) - b.len == a.len,
{
    assert((a.inner * b.inner) % (b.inner as int) == 0 && (a.inner * b.inner) / (b.inner as int)
        == a.inner) by (nonlinear_arith)
        requires
            b.inner >= 1,
    ;
}

/// Rendering a well-formed key and parsing the rendering gives back the very
/// same key: the rendered letters read back as themselves, and their prime
/// product restores `inner` while their count restores `len`.  Together with
/// the contracts of `to_string` and `from_str` this pins
/// `AnagramKey::from_str` after `to_string` to the identity.
pub proof fn lemma_render_parse_round_trip(k: AnagramKey)
    requires
        k.wf(),
        k.inner >= 2,
    ensures
        letters_of(decode_chars(k.inner as nat, 0).map_values(|ch: Character| ch.spec_upper()))
            == decode_chars(k.inner as nat, 0),
        prime_product(decode_chars(k.inner as nat, 0)) == k.inner,
        letters_of(decode_chars(k.inner as nat, 0).map_values(|ch: Character| ch.spec_upper())).len()
            == k.len,
{
    lemma_decode_product(k.inner as nat, 0);
    lemma_letters_of_upper(decode_chars(k.inner as nat, 0));
}

/// Upper-case renderings of letters read back as exactly those letters.
pub proof fn lemma_letters_of_upper(s: Seq<Character>)
    ensures
        letters_of(s.map_values(|ch: Character| ch.spec_upper())) == s,
    decreases s.len(),
{
    let mapped = s.map_values(|ch: Character| ch.spec_upper());
    if s.len() == 0 {
        assert(letters_of(mapped) =~= s);
    } else {
        assert(mapped[0] == s[0].spec_upper());
        crate::character::lemma_upper_round_trip(s[0]);
        assert(mapped.drop_first() =~= s.drop_first().map_values(
            |ch: Character| ch.spec_upper(),
        ));
        lemma_letters_of_upper(s.drop_first());
        assert(letters_of(mapped) =~= s);
    }
}

} // verus!
