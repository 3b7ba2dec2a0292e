//! Solutions: an expression solution is an ordered tuple of words; anagram
//! and spoonerism solutions pair a left and a right tuple.  A pair is
//! trivial when both sides use the same multiset of word texts.

use vstd::prelude::*;
use vstd::multiset::Multiset;
use vstd::relations::{sorted_by, total_ordering};
use vstd::seq_lib::lemma_sorted_unique;

use crate::anagram_key::{letters_of, lemma_letters_of_concat, lemma_prime_product_concat,
    prime_product};
use crate::character::Character;
use crate::homograph::Homograph;
use crate::term_dict::{hg_view, hgs_view};
use crate::text::{lemma_lex_le_antisym, lemma_lex_le_total, lemma_lex_le_trans, lex_le, str_eq,
    str_le};

verus! {

/// The texts of a tuple of words.
pub open spec fn sol_texts(hs: Seq<Homograph>) -> Seq<Seq<char>> {
    hs.map_values(|h: Homograph| h.text@)
}

/// The rest of a joined rendering: a space before each further text.
pub open spec fn tail_join(ts: Seq<Seq<char>>) -> Seq<char>
    decreases ts.len(),
{
    if ts.len() == 0 {
        Seq::empty()
    } else {
        seq![' '] + ts[0] + tail_join(ts.drop_first())
    }
}

/// Texts joined with single spaces.
pub open spec fn join_texts(ts: Seq<Seq<char>>) -> Seq<char> {
    if ts.len() == 0 {
        Seq::empty()
    } else {
        ts[0] + tail_join(ts.drop_first())
    }
}

pub proof fn lemma_tail_join_push(ts: Seq<Seq<char>>, x: Seq<char>)
    ensures
        tail_join(ts.push(x)) == tail_join(ts) + seq![' '] + x,
    decreases ts.len(),
{
    if ts.len() == 0 {
        assert(ts.push(x)[0] == x);
        assert(ts.push(x).drop_first() =~= Seq::<Seq<char>>::empty());
        assert(tail_join(Seq::<Seq<char>>::empty()) == Seq::<char>::empty());
        assert(tail_join(ts) == Seq::<char>::empty());
        assert(tail_join(ts.push(x)) =~= tail_join(ts) + seq![' '] + x);
    } else {
        assert(ts.push(x)[0] == ts[0]);
        assert(ts.push(x).drop_first() =~= ts.drop_first().push(x));
        lemma_tail_join_push(ts.drop_first(), x);
        assert(tail_join(ts.push(x)) =~= tail_join(ts) + seq![' '] + x);
    }
}

pub proof fn lemma_join_texts_push(ts: Seq<Seq<char>>, x: Seq<char>)
    ensures
        ts.len() == 0 ==> join_texts(ts.push(x)) == x,
        ts.len() > 0 ==> join_texts(ts.push(x)) == join_texts(ts) + seq![' '] + x,
{
    if ts.len() == 0 {
        assert(ts.push(x)[0] == x);
        assert(ts.push(x).drop_first() =~= Seq::<Seq<char>>::empty());
        assert(join_texts(ts.push(x)) =~= x);
    } else {
        assert(ts.push(x)[0] == ts[0]);
        assert(ts.push(x).drop_first() =~= ts.drop_first().push(x));
        lemma_tail_join_push(ts.drop_first(), x);
        assert(join_texts(ts.push(x)) =~= join_texts(ts) + seq![' '] + x);
    }
}

/// The letters of a tuple of texts, in order.
pub open spec fn texts_letters(ts: Seq<Seq<char>>) -> Seq<Character>
    decreases ts.len(),
{
    if ts.len() == 0 {
        Seq::empty()
    } else {
        letters_of(ts[0]) + texts_letters(ts.drop_first())
    }
}

pub proof fn lemma_texts_letters_push(ts: Seq<Seq<char>>, x: Seq<char>)
    ensures
        texts_letters(ts.push(x)) == texts_letters(ts) + letters_of(x),
    decreases ts.len(),
{
    if ts.len() == 0 {
        assert(ts.push(x)[0] == x);
        assert(ts.push(x).drop_first() =~= Seq::<Seq<char>>::empty());
        assert(texts_letters(Seq::<Seq<char>>::empty()) == Seq::<Character>::empty());
        assert(texts_letters(ts) == Seq::<Character>::empty());
        assert(texts_letters(ts.push(x)) =~= texts_letters(ts) + letters_of(x));
    } else {
        assert(ts.push(x)[0] == ts[0]);
        assert(ts.push(x).drop_first() =~= ts.drop_first().push(x));
        lemma_texts_letters_push(ts.drop_first(), x);
        assert(texts_letters(ts.push(x)) =~= texts_letters(ts) + letters_of(x));
    }
}

pub proof fn lemma_texts_letters_concat(a: Seq<Seq<char>>, b: Seq<Seq<char>>)
    ensures
        texts_letters(a + b) == texts_letters(a) + texts_letters(b),
    decreases a.len(),
{
    if a.len() == 0 {
        assert(a + b =~= b);
        assert(texts_letters(a) == Seq::<Character>::empty());
        assert(texts_letters(a) + texts_letters(b) =~= texts_letters(b));
    } else {
        assert((a + b)[0] == a[0]);
        assert((a + b).drop_first() =~= a.drop_first() + b);
        lemma_texts_letters_concat(a.drop_first(), b);
        assert(texts_letters(a + b) =~= texts_letters(a) + texts_letters(b));
    }
}

/// Joining texts with spaces does not change their letters: a space is no
/// letter.
pub proof fn lemma_letters_of_join(ts: Seq<Seq<char>>)
    ensures
        letters_of(join_texts(ts)) == texts_letters(ts),
    decreases ts.len(),
{
    if ts.len() == 0 {
        assert(letters_of(join_texts(ts)) =~= texts_letters(ts));
    } else {
        lemma_letters_of_tail_join(ts.drop_first());
        lemma_letters_of_concat(ts[0], tail_join(ts.drop_first()));
        assert(letters_of(join_texts(ts)) =~= texts_letters(ts));
    }
}

proof fn lemma_letters_of_tail_join(ts: Seq<Seq<char>>)
    ensures
        letters_of(tail_join(ts)) == texts_letters(ts),
    decreases ts.len(),
{
    if ts.len() == 0 {
        assert(letters_of(tail_join(ts)) =~= texts_letters(ts));
    } else {
        lemma_letters_of_tail_join(ts.drop_first());
        lemma_letters_of_concat(seq![' '] + ts[0], tail_join(ts.drop_first()));
        lemma_letters_of_concat(seq![' '], ts[0]);
        assert(letters_of(seq![' ']) =~= Seq::<Character>::empty()) by {
            assert(seq![' '][0] == ' ');
            assert(crate::character::spec_character_of_char(' ') is None);
            assert(seq![' '].drop_first() =~= Seq::<char>::empty());
            assert(letters_of(Seq::<char>::empty()) =~= Seq::<Character>::empty());
        }
        assert((seq![' '] + ts[0]) + tail_join(ts.drop_first()) =~= tail_join(ts));
        assert(letters_of(tail_join(ts)) =~= texts_letters(ts));
    }
}

/// The letters of a tuple with one text removed: the rest of the letters.
pub proof fn lemma_texts_letters_remove(ts: Seq<Seq<char>>, i: int)
    requires
        0 <= i < ts.len(),
    ensures
        prime_product(texts_letters(ts)) == prime_product(letters_of(ts[i])) * prime_product(
            texts_letters(ts.remove(i)),
        ),
        texts_letters(ts).len() == letters_of(ts[i]).len() + texts_letters(ts.remove(i)).len(),
    decreases ts.len(),
{
    lemma_prime_product_concat(letters_of(ts[0]), texts_letters(ts.drop_first()));
    if i == 0 {
        assert(ts.remove(0) =~= ts.drop_first());
    } else {
        let rest = ts.drop_first();
        lemma_texts_letters_remove(rest, i - 1);
        assert(ts.remove(i).drop_first() =~= rest.remove(i - 1));
        assert(ts.remove(i)[0] == ts[0]);
        lemma_prime_product_concat(
            letters_of(ts[0]),
            texts_letters(rest.remove(i - 1)),
        );
        assert(rest[i - 1] == ts[i]);
        let a = prime_product(letters_of(ts[0]));
        let b = prime_product(letters_of(ts[i]));
        let c = prime_product(texts_letters(rest.remove(i - 1)));
        assert(a * (b * c) == b * (a * c)) by (nonlinear_arith);
    }
}

/// Tuples that hold the same multiset of texts hold the same letters: the
/// prime product and the letter count do not depend on word order.
pub proof fn lemma_texts_letters_permutation(ts1: Seq<Seq<char>>, ts2: Seq<Seq<char>>)
    requires
        ts1.to_multiset() == ts2.to_multiset(),
    ensures
        prime_product(texts_letters(ts1)) == prime_product(texts_letters(ts2)),
        texts_letters(ts1).len() == texts_letters(ts2).len(),
    decreases ts1.len(),
{
    broadcast use vstd::seq_lib::group_to_multiset_ensures;

    assert(ts1.to_multiset().len() == ts1.len());
    assert(ts2.to_multiset().len() == ts2.len());
    if ts1.len() == 0 {
        assert(ts2.len() == 0);
        assert(ts1 =~= ts2);
    } else {
        assert(ts2.len() == ts1.len());
        let x = ts1[0];
        assert(ts1.to_multiset().contains(x)) by {
            assert(ts1.contains(x));
        }
        assert(ts2.to_multiset().contains(x));
        assert(ts2.contains(x));
        let i = choose|i: int| 0 <= i < ts2.len() && ts2[i] == x;
        assert(ts1.drop_first().to_multiset() =~= ts1.to_multiset().remove(x)) by {
            assert(ts1.drop_first() =~= ts1.remove(0));
        }
        assert(ts2.remove(i).to_multiset() =~= ts2.to_multiset().remove(x));
        lemma_texts_letters_permutation(ts1.drop_first(), ts2.remove(i));
        lemma_texts_letters_remove(ts2, i);
        lemma_prime_product_concat(letters_of(ts1[0]), texts_letters(ts1.drop_first()));
    }
}

/// The texts of a list of strings.
pub open spec fn strs_view(v: Seq<String>) -> Seq<Seq<char>> {
    v.map_values(|s: String| s@)
}

/// Sorts strings into the lexicographic order of their characters, keeping
/// the multiset of texts.
fn sort_strings(v: Vec<String>) -> (r: Vec<String>)
    ensures
        sorted_by(strs_view(r@), |a: Seq<char>, b: Seq<char>| lex_le(a, b)),
        strs_view(r@).to_multiset() == strs_view(v@).to_multiset(),
{
    broadcast use vstd::seq_lib::group_to_multiset_ensures;

    let ghost orig = strs_view(v@);
    let ghost leq = |a: Seq<char>, b: Seq<char>| lex_le(a, b);
    let mut input = v;
    let mut out: Vec<String> = Vec::new();
    proof {
        assert(strs_view(out@).to_multiset().add(
            strs_view(input@).to_multiset(),
        ) =~= orig.to_multiset()) by {
            assert(strs_view(out@) =~= Seq::<Seq<char>>::empty());
            assert(Seq::<Seq<char>>::empty().to_multiset() =~= Multiset::<Seq<char>>::empty());
        }
    }
    while input.len() > 0
        invariant
            strs_view(out@).to_multiset().add(
                strs_view(input@).to_multiset(),
            ) == orig.to_multiset(),
            sorted_by(strs_view(out@), |a: Seq<char>, b: Seq<char>| lex_le(a, b)),
            forall|i: int, j: int|
                0 <= i < out@.len() && 0 <= j < input@.len() ==> lex_le(
                    (#[trigger] out@[i])@,
                    (#[trigger] input@[j])@,
                ),
        decreases input.len(),
    {
        let n = input.len();
        let mut m: usize = 0;
        let mut k: usize = 1;
        proof {
            lemma_lex_le_total(input@[0]@, input@[0]@);
        }
        while k < n
            invariant
                1 <= k <= n,
                m < k,
                n == input@.len(),
                forall|j: int| 0 <= j < k ==> lex_le(input@[m as int]@, (#[trigger] input@[j])@),
            decreases n - k,
        {
            if str_le(input[k].as_str(), input[m].as_str()) {
                proof {
                    assert forall|j: int| 0 <= j < k + 1 implies lex_le(
                        input@[k as int]@,
                        (#[trigger] input@[j])@,
                    ) by {
                        if j < k {
                            lemma_lex_le_trans(input@[k as int]@, input@[m as int]@, input@[j]@);
                        } else {
                            lemma_lex_le_total(input@[k as int]@, input@[k as int]@);
                        }
                    }
                }
                m = k;
            } else {
                proof {
                    lemma_lex_le_total(input@[k as int]@, input@[m as int]@);
                    assert forall|j: int| 0 <= j < k + 1 implies lex_le(
                        input@[m as int]@,
                        (#[trigger] input@[j])@,
                    ) by {
                        if j == k {
                            assert(lex_le(input@[m as int]@, input@[k as int]@));
                        }
                    }
                }
            }
            k = k + 1;
        }
        let ghost old_out = out@;
        let ghost old_input = input@;
        let picked = input.remove(m);
        out.push(picked);
        proof {
            broadcast use vstd::multiset::group_multiset_axioms;

            assert(strs_view(old_input).len() == old_input.len());
            assert(strs_view(old_out).len() == old_out.len());
            strs_view(old_input).to_multiset_ensures();
            strs_view(old_out).to_multiset_ensures();
            assert(strs_view(old_input).remove(m as int) =~= strs_view(input@));
            assert(strs_view(old_input)[m as int] == picked@);
            assert(strs_view(old_input).remove(m as int).to_multiset() =~= strs_view(old_input).to_multiset().remove(picked@));
            assert(strs_view(old_input).to_multiset().remove(picked@) =~= strs_view(input@).to_multiset());
            assert(strs_view(out@) =~= strs_view(old_out).push(picked@));
            assert(strs_view(old_out).push(picked@).to_multiset() =~= strs_view(old_out).to_multiset().insert(picked@));
            assert(strs_view(out@).to_multiset() =~= strs_view(old_out).to_multiset().insert(picked@));
            assert(strs_view(old_input).contains(picked@));
            assert(strs_view(old_input).to_multiset().count(picked@) > 0);
            assert(strs_view(out@).to_multiset().add(strs_view(input@).to_multiset())
                =~= orig.to_multiset());
            let leq2 = |a: Seq<char>, b: Seq<char>| lex_le(a, b);
            assert forall|i: int, j: int|
                0 <= i < j < strs_view(out@).len() implies #[trigger] leq2(
                strs_view(out@)[i],
                strs_view(out@)[j],
            ) by {
                assert(strs_view(out@)[i] == out@[i]@);
                assert(strs_view(out@)[j] == out@[j]@);
                if j < out@.len() - 1 {
                    assert(out@[i] == old_out[i]);
                    assert(out@[j] == old_out[j]);
                    assert(strs_view(old_out)[i] == old_out[i]@);
                    assert(strs_view(old_out)[j] == old_out[j]@);
                    assert(leq2(strs_view(old_out)[i], strs_view(old_out)[j]));
                } else {
                    assert(out@[j] == picked);
                    assert(lex_le(old_out[i]@, old_input[m as int]@));
                }
            }
            assert forall|i: int, j: int|
                0 <= i < out@.len() && 0 <= j < input@.len() implies lex_le(
                (#[trigger] out@[i])@,
                (#[trigger] input@[j])@,
            ) by {
                let jj = if j < m { j } else { j + 1 };
                assert(input@[j] == old_input[jj]);
                if i < out@.len() - 1 {
                    assert(out@[i] == old_out[i]);
                    assert(lex_le(old_out[i]@, old_input[jj]@));
                } else {
                    assert(out@[i] == picked);
                    assert(lex_le(old_input[m as int]@, old_input[jj]@));
                }
            }
        }
    }
    proof {
        assert(strs_view(input@) =~= Seq::<Seq<char>>::empty());
        assert(Seq::<Seq<char>>::empty().to_multiset() =~= Multiset::<Seq<char>>::empty());
        assert(strs_view(out@).to_multiset() =~= orig.to_multiset());
    }
    out
}

/// The lexicographic order on texts is a total order.
proof fn lemma_lex_le_total_ordering()
    ensures
        total_ordering(|a: Seq<char>, b: Seq<char>| lex_le(a, b)),
{
    let leq = |a: Seq<char>, b: Seq<char>| lex_le(a, b);
    assert forall|a: Seq<char>| #[trigger] leq(a, a) by {
        lemma_lex_le_total(a, a);
    }
    assert forall|a: Seq<char>, b: Seq<char>| #[trigger] leq(a, b) && #[trigger] leq(b, a)
        implies a == b by {
        lemma_lex_le_antisym(a, b);
    }
    assert forall|a: Seq<char>, b: Seq<char>, c: Seq<char>|
        #[trigger] leq(a, b) && #[trigger] leq(b, c) implies leq(a, c) by {
        lemma_lex_le_trans(a, b, c);
    }
    assert forall|a: Seq<char>, b: Seq<char>| #[trigger] leq(a, b) || #[trigger] leq(b, a) by {
        lemma_lex_le_total(a, b);
    }
}

/// Whether two tuples of words use the same multiset of texts.
pub fn texts_multiset_eq(a: &Vec<Homograph>, b: &Vec<Homograph>) -> (r: bool)
    ensures
        r == (sol_texts(a@).to_multiset() == sol_texts(b@).to_multiset()),
{
    broadcast use vstd::seq_lib::group_to_multiset_ensures;

    if a.len() != b.len() {
        proof {
            assert(sol_texts(a@).to_multiset().len() == sol_texts(a@).len());
            assert(sol_texts(b@).to_multiset().len() == sol_texts(b@).len());
        }
        return false;
    }
    let mut ta: Vec<String> = Vec::new();
    let mut tb: Vec<String> = Vec::new();
    let n = a.len();
    let mut i: usize = 0;
    #[verifier::loop_isolation(false)]
    while i < n
        invariant
            i <= n,
            strs_view(ta@) == sol_texts(a@).take(i as int),
            strs_view(tb@) == sol_texts(b@).take(i as int),
        decreases n - i,
    {
        ta.push(a[i].text.clone());
        tb.push(b[i].text.clone());
        proof {
            assert(strs_view(ta@) =~= sol_texts(a@).take(i as int + 1));
            assert(strs_view(tb@) =~= sol_texts(b@).take(i as int + 1));
        }
        i = i + 1;
    }
    proof {
        assert(sol_texts(a@).take(n as int) =~= sol_texts(a@));
        assert(sol_texts(b@).take(n as int) =~= sol_texts(b@));
    }
    let sa = sort_strings(ta);
    let sb = sort_strings(tb);
    if sa.len() != sb.len() {
        proof {
            assert(strs_view(sa@).to_multiset().len() == sa@.len());
            assert(strs_view(sb@).to_multiset().len() == sb@.len());
        }
        return false;
    }
    let m = sa.len();
    let mut j: usize = 0;
    #[verifier::loop_isolation(false)]
    while j < m
        invariant
            j <= m,
            forall|k: int| 0 <= k < j ==> #[trigger] text_at(sa@, k) == text_at(sb@, k),
        decreases m - j,
    {
        if !str_eq(sa[j].as_str(), sb[j].as_str()) {
            proof {
                lemma_lex_le_total_ordering();
                if sol_texts(a@).to_multiset() == sol_texts(b@).to_multiset() {
                    lemma_sorted_unique(
                        strs_view(sa@),
                        strs_view(sb@),
                        |x: Seq<char>, y: Seq<char>| lex_le(x, y),
                    );
                    assert(strs_view(sa@)[j as int] == strs_view(sb@)[j as int]);
                    assert(strs_view(sa@)[j as int] == sa@[j as int]@);
                    assert(strs_view(sb@)[j as int] == sb@[j as int]@);
                    assert(false);
                }
            }
            return false;
        }
        proof {
            assert(text_at(sa@, j as int) == sa@[j as int]@);
            assert(text_at(sb@, j as int) == sb@[j as int]@);
        }
        j = j + 1;
    }
    proof {
        assert(strs_view(sa@).len() == sa@.len());
        assert(strs_view(sb@).len() == sb@.len());
        assert forall|k: int|
            0 <= k < strs_view(sa@).len() implies #[trigger] strs_view(sa@)[k] == strs_view(
            sb@,
        )[k] by {
            assert(text_at(sa@, k) == text_at(sb@, k));
            assert(text_at(sa@, k) == strs_view(sa@)[k]);
            assert(text_at(sb@, k) == strs_view(sb@)[k]);
        }
        assert(strs_view(sa@) =~= strs_view(sb@));
    }
    true
}

/// One entry's text, as a spec value.
pub open spec fn text_at(v: Seq<String>, k: int) -> Seq<char> {
    strs_view(v)[k]
}

/// An ordered tuple of words.
#[derive(Debug)]
pub struct ExpressionSolution {
    pub homographs: Vec<Homograph>,
}

impl Clone for ExpressionSolution {
    fn clone(&self) -> (r: Self)
        ensures
            hgs_view(r.homographs@) == hgs_view(self.homographs@),
    {
        ExpressionSolution { homographs: crate::term_dict::clone_homographs(&self.homographs) }
    }
}

impl ExpressionSolution {
    /// The words joined with single spaces.
    pub fn get_text(&self) -> (r: String)
        ensures
            r@ == join_texts(sol_texts(self.homographs@)),
    {
        let n = self.homographs.len();
        let mut out = String::new();
        let mut i: usize = 0;
        #[verifier::loop_isolation(false)]
        while i < n
            invariant
                i <= n,
                out@ == join_texts(sol_texts(self.homographs@).take(i as int)),
            decreases n - i,
        {
            let ghost ts = sol_texts(self.homographs@);
            if i > 0 {
                out.append(" ");
            }
            out.append(self.homographs[i].text.as_str());
            proof {
                assert(ts.take(i as int + 1) =~= ts.take(i as int).push(ts[i as int]));
                lemma_join_texts_push(ts.take(i as int), ts[i as int]);
                reveal_strlit(" ");
                if i > 0 {
                    assert(out@ =~= join_texts(ts.take(i as int)) + seq![' '] + ts[i as int]);
                } else {
                    assert(out@ =~= ts[i as int]);
                }
            }
            i = i + 1;
        }
        proof {
            assert(sol_texts(self.homographs@).take(n as int) =~= sol_texts(self.homographs@));
        }
        out
    }

    /// Whether some word of the tuple has exactly this text.
    pub fn contains_word(&self, word: &Homograph) -> (r: bool)
        ensures
            r == sol_texts(self.homographs@).contains(word.text@),
    {
        let n = self.homographs.len();
        let mut i: usize = 0;
        #[verifier::loop_isolation(false)]
        while i < n
            invariant
                i <= n,
                forall|j: int| 0 <= j < i ==> sol_texts(self.homographs@)[j] != word.text@,
            decreases n - i,
        {
            if str_eq(self.homographs[i].text.as_str(), word.text.as_str()) {
                proof {
                    assert(sol_texts(self.homographs@)[i as int] == word.text@);
                }
                return true;
            }
            proof {
                assert(sol_texts(self.homographs@)[i as int] == self.homographs@[i as int].text@);
            }
            i = i + 1;
        }
        false
    }
}

/// A pair of tuples whose letters are the same multiset.
#[derive(Debug)]
pub struct AnagramSolution {
    pub left: ExpressionSolution,
    pub right: ExpressionSolution,
}

impl Clone for AnagramSolution {
    fn clone(&self) -> (r: Self)
        ensures
            hgs_view(r.left.homographs@) == hgs_view(self.left.homographs@),
            hgs_view(r.right.homographs@) == hgs_view(self.right.homographs@),
    {
        AnagramSolution { left: self.left.clone(), right: self.right.clone() }
    }
}

/// A pair of two-word tuples with leading letters swapped.
#[derive(Debug)]
pub struct SpoonerismSolution {
    pub left: ExpressionSolution,
    pub right: ExpressionSolution,
}

impl Clone for SpoonerismSolution {
    fn clone(&self) -> (r: Self)
        ensures
            hgs_view(r.left.homographs@) == hgs_view(self.left.homographs@),
            hgs_view(r.right.homographs@) == hgs_view(self.right.homographs@),
    {
        SpoonerismSolution { left: self.left.clone(), right: self.right.clone() }
    }
}

/// `left : right`, both sides space-joined.
fn pair_text(left: &ExpressionSolution, right: &ExpressionSolution) -> (r: String)
    ensures
        r@ == join_texts(sol_texts(left.homographs@)) + " : "@ + join_texts(
            sol_texts(right.homographs@),
        ),
{
    let mut out = left.get_text();
    out.append(" : ");
    let rt = right.get_text();
    out.append(rt.as_str());
    out
}

impl AnagramSolution {
    pub fn get_text(&self) -> (r: String)
        ensures
            r@ == join_texts(sol_texts(self.left.homographs@)) + " : "@ + join_texts(
                sol_texts(self.right.homographs@),
            ),
    {
        pair_text(&self.left, &self.right)
    }

    /// The same pair the other way round.
    pub fn flip(self) -> (r: Self)
        ensures
            r.left == self.right,
            r.right == self.left,
    {
        AnagramSolution { left: self.right, right: self.left }
    }

    /// Whether both sides use the same multiset of word texts.
    pub fn is_trivial(&self) -> (r: bool)
        ensures
            r == (sol_texts(self.left.homographs@).to_multiset() == sol_texts(
                self.right.homographs@,
            ).to_multiset()),
    {
        texts_multiset_eq(&self.left.homographs, &self.right.homographs)
    }
}

impl SpoonerismSolution {
    pub fn get_text(&self) -> (r: String)
        ensures
            r@ == join_texts(sol_texts(self.left.homographs@)) + " : "@ + join_texts(
                sol_texts(self.right.homographs@),
            ),
    {
        pair_text(&self.left, &self.right)
    }

    /// The same pair the other way round.
    pub fn flip(self) -> (r: Self)
        ensures
            r.left == self.right,
            r.right == self.left,
    {
        SpoonerismSolution { left: self.right, right: self.left }
    }

    /// Whether both sides use the same multiset of word texts.
    pub fn is_trivial(&self) -> (r: bool)
        ensures
            r == (sol_texts(self.left.homographs@).to_multiset() == sol_texts(
                self.right.homographs@,
            ).to_multiset()),
    {
        texts_multiset_eq(&self.left.homographs, &self.right.homographs)
    }
}

/// Any answer the solver can give.
#[derive(Debug)]
pub enum QuestionSolution {
    Expression(ExpressionSolution),
    Anagram(AnagramSolution),
    Spoonerism(SpoonerismSolution),
}

impl Clone for QuestionSolution {
    fn clone(&self) -> (r: Self)
        ensures
            r is Expression == *self is Expression,
            r is Anagram == *self is Anagram,
            r is Spoonerism == *self is Spoonerism,
    {
        match self {
            QuestionSolution::Expression(e) => QuestionSolution::Expression(e.clone()),
            QuestionSolution::Anagram(a) => QuestionSolution::Anagram(a.clone()),
            QuestionSolution::Spoonerism(s) => QuestionSolution::Spoonerism(s.clone()),
        }
    }
}

impl QuestionSolution {
    /// What the solution prints as: a tuple's words space-joined, a pair's
    /// sides joined with `" : "`.
    pub fn get_text(&self) -> (r: String)
        ensures
            match self {
                QuestionSolution::Expression(e) => r@ == join_texts(sol_texts(e.homographs@)),
                QuestionSolution::Anagram(a) => r@ == join_texts(sol_texts(a.left.homographs@))
                    + " : "@ + join_texts(sol_texts(a.right.homographs@)),
                QuestionSolution::Spoonerism(s) => r@ == join_texts(
                    sol_texts(s.left.homographs@),
                ) + " : "@ + join_texts(sol_texts(s.right.homographs@)),
            },
    {
        match self {
            QuestionSolution::Expression(e) => e.get_text(),
            QuestionSolution::Anagram(a) => a.get_text(),
            QuestionSolution::Spoonerism(s) => s.get_text(),
        }
    }
}

} // verus!
