//! The anagram enumerator: a lazy depth-first backtracking search that
//! yields every ordered partition of a target key into dictionary keys, in
//! descending key order, duplicates suppressed by a weakly decreasing
//! bound.

use vstd::prelude::*;
use vstd::arithmetic::power::{lemma_pow1, lemma_pow_adds, lemma_pow_positive, pow};

use crate::anagram_dict::AnagramDict;
use crate::anagram_key::AnagramKey;
use crate::anagram_settings::AnagramSettings;

verus! {

/// The product of a list of keys' encodings.
pub open spec fn keys_product(s: Seq<AnagramKey>) -> nat
    decreases s.len(),
{
    if s.len() == 0 {
        1
    } else {
        (s[0].inner as nat) * keys_product(s.drop_first())
    }
}

/// The sum of a list of keys' letter counts.
pub open spec fn keys_len_sum(s: Seq<AnagramKey>) -> nat
    decreases s.len(),
{
    if s.len() == 0 {
        0
    } else {
        (s[0].len as nat) + keys_len_sum(s.drop_first())
    }
}

pub proof fn lemma_keys_product_push(s: Seq<AnagramKey>, k: AnagramKey)
    ensures
        keys_product(s.push(k)) == keys_product(s) * k.inner,
        keys_len_sum(s.push(k)) == keys_len_sum(s) + k.len,
    decreases s.len(),
{
    if s.len() == 0 {
        assert(s.push(k)[0] == k);
        assert(s.push(k).drop_first() =~= Seq::<AnagramKey>::empty());
        assert(keys_product(Seq::<AnagramKey>::empty()) == 1);
        assert(keys_len_sum(Seq::<AnagramKey>::empty()) == 0);
        assert(keys_product(s) == 1);
        assert(keys_len_sum(s) == 0);
        assert(keys_product(s.push(k)) == (k.inner as nat) * 1);
    } else {
        assert(s.push(k)[0] == s[0]);
        assert(s.push(k).drop_first() =~= s.drop_first().push(k));
        lemma_keys_product_push(s.drop_first(), k);
        assert(keys_product(s.push(k)) == (s[0].inner as nat) * keys_product(
            s.drop_first().push(k),
        ));
        assert(keys_product(s.drop_first().push(k)) == keys_product(s.drop_first()) * k.inner);
        assert(keys_product(s) == (s[0].inner as nat) * keys_product(s.drop_first()));
        assert(keys_product(s.push(k)) == keys_product(s) * k.inner) by (nonlinear_arith)
            requires
                keys_product(s.push(k)) == (s[0].inner as nat) * keys_product(
                    s.drop_first().push(k),
                ),
                keys_product(s.drop_first().push(k)) == keys_product(s.drop_first()) * k.inner,
                keys_product(s) == (s[0].inner as nat) * keys_product(s.drop_first()),
        ;
    }
}

/// Whether a list of keys holds this very key.
pub open spec fn has_key(keys: Seq<AnagramKey>, k: AnagramKey) -> bool {
    exists|i: int| 0 <= i < keys.len() && keys[i] == k
}

/// Whether a key sequence is weakly decreasing by encoded product: the
/// order in which one search branch picks its keys.
pub open spec fn keys_weakly_decreasing(s: Seq<AnagramKey>) -> bool {
    forall|j: int| 0 <= j < s.len() - 1 ==> (#[trigger] s[j + 1]).inner <= s[j].inner
}

/// Whether every key below an index bound stays at or below a cap.
pub open spec fn bound_capped(keys: Seq<AnagramKey>, b: int, cap: u128) -> bool {
    forall|i: int| 0 <= i < b ==> (#[trigger] keys[i]).inner <= cap
}

/// The termination potential of the search stack: a weighted sum in which
/// deeper frames weigh less, so that narrowing a frame's bound pays for any
/// frame pushed below it.
pub open spec fn frames_measure(stack: Seq<(AnagramKey, usize)>, w: nat) -> nat
    decreases stack.len(),
{
    if stack.len() == 0 {
        0
    } else {
        (frames_measure(stack.drop_last(), w) + (stack.last().1 + 1) * pow(
            w as int,
            (if stack.len() <= 300 {
                300 - stack.len()
            } else {
                0
            }) as nat,
        )) as nat
    }
}

/// Narrowing the top frame's bound strictly shrinks the potential.
proof fn lemma_measure_lower_top(s1: Seq<(AnagramKey, usize)>, s2: Seq<(AnagramKey, usize)>, w: nat)
    requires
        s1.len() == s2.len(),
        s1.len() > 0,
        s1.drop_last() == s2.drop_last(),
        s2.last().1 < s1.last().1,
        w >= 1,
    ensures
        frames_measure(s2, w) < frames_measure(s1, w),
{
    let e = (if s1.len() <= 300 {
        300 - s1.len()
    } else {
        0
    }) as nat;
    lemma_pow_positive(w as int, e);
    let p = pow(w as int, e) as nat;
    assert((s2.last().1 + 1) * p < (s1.last().1 + 1) * p) by (nonlinear_arith)
        requires
            p >= 1,
            s2.last().1 < s1.last().1,
    ;
}

/// Popping the top frame strictly shrinks the potential.
proof fn lemma_measure_pop(s: Seq<(AnagramKey, usize)>, w: nat)
    requires
        s.len() > 0,
        w >= 1,
    ensures
        frames_measure(s.drop_last(), w) < frames_measure(s, w),
{
    let e = (if s.len() <= 300 {
        300 - s.len()
    } else {
        0
    }) as nat;
    lemma_pow_positive(w as int, e);
    let p = pow(w as int, e) as nat;
    assert((s.last().1 + 1) * p >= 1) by (nonlinear_arith)
        requires
            p >= 1,
    ;
}

/// Narrowing the top frame's bound and pushing one frame below it still
/// strictly shrinks the potential: the new frame weighs less than what the
/// narrowing freed.
proof fn lemma_measure_push(
    s1: Seq<(AnagramKey, usize)>,
    s2: Seq<(AnagramKey, usize)>,
    nf: (AnagramKey, usize),
    w: nat,
)
    requires
        s1.len() == s2.len(),
        0 < s1.len() <= 298,
        s1.drop_last() == s2.drop_last(),
        s2.last().1 < s1.last().1,
        nf.1 + 2 <= w,
        w >= 1,
    ensures
        frames_measure(s2.push(nf), w) < frames_measure(s1, w),
{
    let d = s1.len();
    let e1 = (300 - d) as nat;
    let e2 = (300 - (d + 1)) as nat;
    lemma_pow_positive(w as int, e1);
    lemma_pow_positive(w as int, e2);
    lemma_pow1(w as int);
    lemma_pow_adds(w as int, 1, e2);
    assert(pow(w as int, e1) == w * pow(w as int, e2));
    let p1 = pow(w as int, e1) as nat;
    let p2 = pow(w as int, e2) as nat;
    assert(s2.push(nf).drop_last() =~= s2);
    assert(s2.push(nf).last() == nf);
    assert(s2.push(nf).len() == d + 1);
    assert(frames_measure(s2.push(nf), w) == frames_measure(s2, w) + (nf.1 + 1) * p2);
    assert(frames_measure(s2, w) == frames_measure(s2.drop_last(), w) + (s2.last().1 + 1) * p1);
    assert(frames_measure(s1, w) == frames_measure(s1.drop_last(), w) + (s1.last().1 + 1) * p1);
    assert((s2.last().1 + 1) * p1 + (nf.1 + 1) * p2 < (s1.last().1 + 1) * p1)
        by (nonlinear_arith)
        requires
            p1 == w * p2,
            p2 >= 1,
            s2.last().1 + 1 <= s1.last().1,
            nf.1 + 2 <= w,
            w >= 1,
    ;
}

/// Each frame of a strictly thinning stack is at least one letter shorter
/// than the one above, so the depth never passes the first frame's count.
proof fn lemma_depth_bound(stack: Seq<(AnagramKey, usize)>, j: int)
    requires
        0 <= j < stack.len(),
        forall|i: int|
            0 <= i < stack.len() - 1 ==> (#[trigger] stack[i + 1].0).len < stack[i].0.len,
    ensures
        stack[j].0.len + j <= stack[0].0.len,
    decreases j,
{
    if j > 0 {
        lemma_depth_bound(stack, j - 1);
        assert(stack[(j - 1) + 1].0.len < stack[j - 1].0.len);
    }
}

/// Letter products telescope down the stack: what remains at the top times
/// what was chosen on the way down gives back the root key.
proof fn lemma_stack_telescope(stack: Seq<(AnagramKey, usize)>, used: Seq<AnagramKey>)
    requires
        stack.len() == used.len() + 1,
        forall|j: int|
            0 <= j < used.len() ==> (#[trigger] used[j]).inner * stack[j + 1].0.inner
                == stack[j].0.inner && used[j].len + stack[j + 1].0.len == stack[j].0.len,
    ensures
        keys_product(used) * stack.last().0.inner == stack[0].0.inner,
        keys_len_sum(used) + stack.last().0.len == stack[0].0.len,
    decreases used.len(),
{
    if used.len() == 0 {
        assert(keys_product(used) == 1);
        assert(keys_len_sum(used) == 0);
    } else {
        let st = stack.drop_first();
        let ut = used.drop_first();
        assert forall|j: int|
            0 <= j < ut.len() implies (#[trigger] ut[j]).inner * st[j + 1].0.inner
            == st[j].0.inner && ut[j].len + st[j + 1].0.len == st[j].0.len by {
            assert(ut[j] == used[j + 1]);
            assert(st[j] == stack[j + 1]);
            assert(st[j + 1] == stack[j + 2]);
            assert(used[j + 1].inner * stack[j + 2].0.inner == stack[j + 1].0.inner);
        }
        lemma_stack_telescope(st, ut);
        assert(st.last() == stack.last());
        assert(used[0].inner * stack[1].0.inner == stack[0].0.inner);
        assert(keys_product(used) == used[0].inner * keys_product(ut));
        assert(keys_product(ut) * stack.last().0.inner == stack[1].0.inner);
        assert((used[0].inner * keys_product(ut)) * stack.last().0.inner == used[0].inner * (
        keys_product(ut) * stack.last().0.inner)) by (nonlinear_arith);
    }
}

/// The backtracking enumerator.  Each frame holds what remains of the
/// target and an exclusive index bound on the candidate keys, so that the
/// chosen keys within one branch are weakly decreasing and no permutation
/// is emitted twice.
pub struct AnagramIterator<'a> {
    pub dict: &'a AnagramDict,
    pub stack: Vec<(AnagramKey, usize)>,
    pub used: Vec<AnagramKey>,
    pub settings: AnagramSettings,
    pub target: Ghost<AnagramKey>,
}

impl<'a> AnagramIterator<'a> {
    /// The iterator's invariant: frames chain by exact division, chosen
    /// keys are dictionary keys of admissible length, and bounds stay
    /// within the index.
    pub open spec fn wf(self) -> bool {
        &&& self.dict.wf()
        &&& self.stack@.len() == 0 ==> self.used@.len() == 0
        &&& self.stack@.len() > 0 ==> self.used@.len() == self.stack@.len() - 1
        &&& self.stack@.len() > 0 ==> self.stack@[0].0 == self.target@
        &&& forall|j: int|
            0 <= j < self.stack@.len() ==> (#[trigger] self.stack@[j]).1
                <= self.dict.words.keys@.len()
        &&& forall|j: int| 0 <= j < self.stack@.len() ==> (#[trigger] self.stack@[j]).0.inner >= 1
        &&& forall|j: int|
            0 <= j < self.stack@.len() - 1 ==> (#[trigger] self.stack@[j + 1].0).len
                < self.stack@[j].0.len
        &&& forall|j: int|
            0 <= j < self.used@.len() ==> (#[trigger] self.used@[j]).inner * self.stack@[j
                + 1].0.inner == self.stack@[j].0.inner && self.used@[j].len + self.stack@[j
                + 1].0.len == self.stack@[j].0.len
        &&& forall|j: int|
            0 <= j < self.used@.len() ==> has_key(
                self.dict.words.keys@,
                #[trigger] self.used@[j],
            )
        &&& forall|j: int|
            0 <= j < self.used@.len() ==> (#[trigger] self.used@[j]).len
                >= self.settings.min_word_length
        &&& match self.settings.max_words {
            Some(m) => self.used@.len() == 0 || self.used@.len() + 2 <= m,
            None => true,
        }
        &&& keys_weakly_decreasing(self.used@)
        &&& forall|j: int|
            1 <= j < self.stack@.len() ==> bound_capped(
                self.dict.words.keys@,
                (#[trigger] self.stack@[j]).1 as int,
                self.used@[j - 1].inner,
            )
    }

    /// The search potential: strictly falls with every step the search
    /// takes, so pulling results always terminates.
    pub open spec fn measure(self) -> nat {
        frames_measure(self.stack@, self.dict.words.keys@.len() + 2)
    }

    /// A fresh search for partitions of `key`.
    pub fn create(dict: &'a AnagramDict, key: AnagramKey, settings: AnagramSettings) -> (r: Self)
        requires
            dict.wf(),
            key.inner >= 1,
        ensures
            r.wf(),
            r.dict == dict,
            r.settings == settings,
            r.target@ == key,
    {
        let bound = dict.words.count_le(key.inner);
        let mut stack: Vec<(AnagramKey, usize)> = Vec::new();
        stack.push((key, bound));
        AnagramIterator {
            dict,
            stack,
            used: Vec::new(),
            settings,
            target: Ghost(key),
        }
    }

    /// The next partition: a list of dictionary keys, each at least the
    /// configured length, whose products multiply back to the target and
    /// whose letter counts sum to it; `None` once the search is exhausted.
    #[verifier::rlimit(100)]
    pub fn next(&mut self) -> (r: Option<Vec<AnagramKey>>)
        requires
            old(self).wf(),
        ensures
            final(self).wf(),
            final(self).dict == old(self).dict,
            final(self).settings == old(self).settings,
            final(self).target == old(self).target,
            match r {
                Some(v) => {
                    &&& v@.len() >= 1
                    &&& keys_product(v@) == old(self).target@.inner
                    &&& keys_len_sum(v@) == old(self).target@.len
                    &&& forall|j: int|
                        0 <= j < v@.len() ==> has_key(
                            old(self).dict.words.keys@,
                            #[trigger] v@[j],
                        )
                    &&& forall|j: int|
                        0 <= j < v@.len() ==> (#[trigger] v@[j]).len
                            >= old(self).settings.min_word_length
                    &&& keys_weakly_decreasing(v@)
                    &&& match old(self).settings.max_words {
                        Some(m) => v@.len() <= (if m >= 1 {
                            m
                        } else {
                            1
                        }),
                        None => true,
                    }
                    &&& final(self).measure() < old(self).measure()
                },
                None => final(self).stack@.len() == 0,
            },
    {
        let ghost w = self.dict.words.keys@.len() + 2;
        let ghost tgt = self.target@;
        #[verifier::loop_isolation(false)]
        while self.stack.len() > 0
            invariant
                self.wf(),
                self.dict == old(self).dict,
                self.settings == old(self).settings,
                self.target == old(self).target,
                frames_measure(self.stack@, w) <= old(self).measure(),
            decreases frames_measure(self.stack@, w),
        {
            let top_idx = self.stack.len() - 1;
            let (rem, bound) = self.stack[top_idx];
            match find_candidate(self.dict, rem, bound, self.settings) {
                Some((i, k, rem2)) => {
                    let ghost s1 = self.stack@;
                    // Narrow this frame's bound so the next sibling choice
                    // is strictly smaller.
                    let _ = self.stack.pop();
                    self.stack.push((rem, i));
                    proof {
                        assert(self.stack@ =~= s1.update(s1.len() - 1, (rem, i)));
                        assert(self.stack@.drop_last() =~= s1.drop_last());
                        lemma_measure_lower_top(s1, self.stack@, w);
                        assert forall|j: int|
                            0 <= j < self.used@.len() implies (#[trigger] self.used@[j]).inner
                            * self.stack@[j + 1].0.inner == self.stack@[j].0.inner && self.used@[
                        j].len + self.stack@[j + 1].0.len == self.stack@[j].0.len by {
                            assert(self.stack@[j] == s1[j]);
                            if j + 1 < self.stack@.len() - 1 {
                                assert(self.stack@[j + 1] == s1[j + 1]);
                            } else {
                                assert(self.stack@[j + 1].0 == s1[j + 1].0);
                            }
                        }
                        assert forall|j: int|
                            1 <= j < self.stack@.len() implies bound_capped(
                            self.dict.words.keys@,
                            (#[trigger] self.stack@[j]).1 as int,
                            self.used@[j - 1].inner,
                        ) by {
                            if j < self.stack@.len() - 1 {
                                assert(self.stack@[j] == s1[j]);
                                assert(bound_capped(
                                    self.dict.words.keys@,
                                    s1[j].1 as int,
                                    self.used@[j - 1].inner,
                                ));
                            } else {
                                assert(bound_capped(
                                    self.dict.words.keys@,
                                    s1[j].1 as int,
                                    self.used@[j - 1].inner,
                                ));
                                assert forall|ii: int|
                                    0 <= ii < self.stack@[j].1 implies (
                                #[trigger] self.dict.words.keys@[ii]).inner <= self.used@[j
                                    - 1].inner by {
                                    assert(ii < s1[j].1);
                                }
                            }
                        }
                        if self.used@.len() > 0 {
                            // The chosen key sits below the old bound, so it
                            // is no larger than the key chosen one frame up.
                            assert(bound_capped(
                                self.dict.words.keys@,
                                s1[s1.len() - 1].1 as int,
                                self.used@[self.used@.len() - 1].inner,
                            ));
                            assert(k.inner <= self.used@[self.used@.len() - 1].inner);
                        }
                    }
                    if rem2.inner == 1 && rem2.len == 0 {
                        // The chosen key finishes the partition.
                        let mut out = clone_keys(&self.used);
                        out.push(k);
                        proof {
                            lemma_stack_telescope(self.stack@, self.used@);
                            lemma_keys_product_push(self.used@, k);
                            assert(rem.inner == k.inner * rem2.inner) by (nonlinear_arith)
                                requires
                                    k.inner >= 1,
                                    rem.inner as int % (k.inner as int) == 0,
                                    rem2.inner == rem.inner as int / (k.inner as int),
                            ;
                            assert(keys_product(out@) == tgt.inner) by (nonlinear_arith)
                                requires
                                    keys_product(out@) == keys_product(self.used@) * k.inner,
                                    keys_product(self.used@) * rem.inner == tgt.inner,
                                    rem.inner == k.inner * 1,
                            ;
                            assert forall|j: int|
                                0 <= j < out@.len() - 1 implies (#[trigger] out@[j + 1]).inner
                                <= out@[j].inner by {
                                if j + 1 < out@.len() - 1 {
                                    assert(out@[j] == self.used@[j]);
                                    assert(out@[j + 1] == self.used@[j + 1]);
                                } else {
                                    assert(out@[j] == self.used@[self.used@.len() - 1]);
                                    assert(out@[j + 1] == k);
                                }
                            }
                        }
                        return Some(out);
                    }
                    if self.settings.allow_key(&rem2) {
                        let two_left = match self.settings.max_words {
                            Some(m) => m == self.used.len() + 2,
                            None => false,
                        };
                        let may_push = match self.settings.max_words {
                            Some(m) => m > self.used.len() + 2,
                            None => true,
                        };
                        if two_left {
                            // One word may follow: it must be the whole
                            // remainder, itself a dictionary word no larger
                            // than the key just chosen.
                            if rem2.inner <= k.inner {
                                match self.dict.words.index_of(rem2.inner) {
                                    Some(idx) => {
                                        let dk = self.dict.words.keys[idx];
                                        if dk.len == rem2.len {
                                            let mut out = clone_keys(&self.used);
                                            out.push(k);
                                            out.push(dk);
                                            proof {
                                                lemma_stack_telescope(
                                                    self.stack@,
                                                    self.used@,
                                                );
                                                lemma_keys_product_push(self.used@, k);
                                                lemma_keys_product_push(
                                                    self.used@.push(k),
                                                    dk,
                                                );
                                                assert(rem.inner == k.inner * rem2.inner)
                                                    by (nonlinear_arith)
                                                    requires
                                                        k.inner >= 1,
                                                        rem.inner as int % (k.inner as int) == 0,
                                                        rem2.inner == rem.inner as int / (
                                                        k.inner as int),
                                                ;
                                                assert(keys_product(out@) == tgt.inner)
                                                    by (nonlinear_arith)
                                                    requires
                                                        keys_product(out@) == (keys_product(
                                                            self.used@,
                                                        ) * k.inner) * dk.inner,
                                                        keys_product(self.used@) * rem.inner
                                                            == tgt.inner,
                                                        rem.inner == k.inner * rem2.inner,
                                                        dk.inner == rem2.inner,
                                                ;
                                                assert forall|j: int|
                                                    0 <= j < out@.len() - 1 implies (
                                                #[trigger] out@[j + 1]).inner <= out@[j].inner
                                                    by {
                                                    let u = self.used@.len() as int;
                                                    if j < u - 1 {
                                                        assert(out@[j] == self.used@[j]);
                                                        assert(out@[j + 1] == self.used@[j
                                                            + 1]);
                                                    } else if j == u - 1 {
                                                        assert(out@[j] == self.used@[u - 1]);
                                                        assert(out@[j + 1] == k);
                                                    } else {
                                                        assert(j == u);
                                                        assert(out@[j] == k);
                                                        assert(out@[j + 1] == dk);
                                                    }
                                                }
                                            }
                                            return Some(out);
                                        }
                                    },
                                    None => {},
                                }
                            }
                        } else if may_push {
                            // Search deeper: the remainder becomes a new
                            // frame whose candidates stay at most the key
                            // just chosen.
                            proof {
                                lemma_depth_bound(
                                    self.stack@,
                                    self.stack@.len() - 1,
                                );
                                assert(self.stack@.len() <= 256);
                            }
                            let ghost s2 = self.stack@;
                            let ghost u2 = self.used@;
                            self.used.push(k);
                            self.stack.push((rem2, i + 1));
                            proof {
                                lemma_measure_push(s1, s2, (rem2, (i + 1) as usize), w);
                                assert(self.stack@ =~= s2.push((rem2, (i + 1) as usize)));
                                assert(rem.inner == k.inner * rem2.inner) by (nonlinear_arith)
                                    requires
                                        k.inner >= 1,
                                        rem.inner as int % (k.inner as int) == 0,
                                        rem2.inner == rem.inner as int / (k.inner as int),
                                ;
                                assert(rem2.inner >= 1) by (nonlinear_arith)
                                    requires
                                        rem.inner == k.inner * rem2.inner,
                                        rem.inner >= 1,
                                ;
                                assert forall|j: int|
                                    0 <= j < self.used@.len() implies (#[trigger] self.used@[
                                j]).inner * self.stack@[j + 1].0.inner == self.stack@[j].0.inner
                                    && self.used@[j].len + self.stack@[j + 1].0.len
                                    == self.stack@[j].0.len by {
                                    if j < u2.len() {
                                        assert(self.used@[j] == u2[j]);
                                        assert(self.stack@[j] == s2[j]);
                                        assert(self.stack@[j + 1] == s2[j + 1]);
                                    } else {
                                        assert(self.used@[j] == k);
                                        assert(self.stack@[j] == (rem, i));
                                        assert(self.stack@[j + 1] == (rem2, (i + 1) as usize));
                                    }
                                }
                                assert forall|j: int|
                                    0 <= j < self.used@.len() - 1 implies (
                                #[trigger] self.used@[j + 1]).inner <= self.used@[j].inner by {
                                    if j + 1 < self.used@.len() - 1 {
                                        assert(self.used@[j] == u2[j]);
                                        assert(self.used@[j + 1] == u2[j + 1]);
                                    } else {
                                        assert(self.used@[j] == u2[u2.len() - 1]);
                                        assert(self.used@[j + 1] == k);
                                    }
                                }
                                assert forall|j: int|
                                    1 <= j < self.stack@.len() implies bound_capped(
                                    self.dict.words.keys@,
                                    (#[trigger] self.stack@[j]).1 as int,
                                    self.used@[j - 1].inner,
                                ) by {
                                    if j < self.stack@.len() - 1 {
                                        assert(self.stack@[j] == s2[j]);
                                        assert(self.used@[j - 1] == u2[j - 1]);
                                        assert(bound_capped(
                                            self.dict.words.keys@,
                                            s2[j].1 as int,
                                            u2[j - 1].inner,
                                        ));
                                    } else {
                                        // The fresh frame: every candidate
                                        // at or below the chosen index is no
                                        // larger than the chosen key.
                                        assert(self.stack@[j] == (rem2, (i + 1) as usize));
                                        assert(self.used@[j - 1] == k);
                                        assert forall|ii: int|
                                            0 <= ii < i + 1 implies (
                                        #[trigger] self.dict.words.keys@[ii]).inner <= k.inner
                                            by {
                                            if ii < i {
                                                assert(self.dict.words.keys@[ii].inner
                                                    < self.dict.words.keys@[i as int].inner);
                                            }
                                        }
                                    }
                                }
                            }
                        }
                    }
                },
                None => {
                    let ghost s1 = self.stack@;
                    let ghost u1 = self.used@;
                    let _ = self.stack.pop();
                    if self.used.len() > 0 {
                        let _ = self.used.pop();
                    }
                    proof {
                        lemma_measure_pop(s1, w);
                        assert(self.stack@ =~= s1.drop_last());
                        assert forall|j: int|
                            0 <= j < self.used@.len() - 1 implies (#[trigger] self.used@[j
                            + 1]).inner <= self.used@[j].inner by {
                            assert(self.used@[j] == u1[j]);
                            assert(self.used@[j + 1] == u1[j + 1]);
                        }
                        assert forall|j: int|
                            1 <= j < self.stack@.len() implies bound_capped(
                            self.dict.words.keys@,
                            (#[trigger] self.stack@[j]).1 as int,
                            self.used@[j - 1].inner,
                        ) by {
                            assert(self.stack@[j] == s1[j]);
                            assert(self.used@[j - 1] == u1[j - 1]);
                            assert(bound_capped(
                                self.dict.words.keys@,
                                s1[j].1 as int,
                                u1[j - 1].inner,
                            ));
                        }
                    }
                },
            }
        }
        None
    }
}

/// A copy of a list of keys.
fn clone_keys(v: &Vec<AnagramKey>) -> (r: Vec<AnagramKey>)
    ensures
        r@ == v@,
{
    let n = v.len();
    let mut out: Vec<AnagramKey> = Vec::new();
    let mut i: usize = 0;
    while i < n
        invariant
            i <= n,
            n == v@.len(),
            out@ == v@.take(i as int),
        decreases n - i,
    {
        out.push(v[i]);
        proof {
            assert(out@ =~= v@.take(i as int + 1));
        }
        i = i + 1;
    }
    proof {
        assert(v@.take(n as int) =~= v@);
    }
    out
}

/// The largest admissible dictionary key below the bound that divides the
/// remainder, with what would remain after choosing it.
fn find_candidate(dict: &AnagramDict, rem: AnagramKey, bound: usize, settings: AnagramSettings) -> (r:
    Option<(usize, AnagramKey, AnagramKey)>)
    requires
        dict.wf(),
        bound <= dict.words.keys@.len(),
    ensures
        match r {
            Some((i, k, rem2)) => {
                &&& i < bound
                &&& k == dict.words.keys@[i as int]
                &&& k.len >= settings.min_word_length
                &&& k.inner >= 1
                &&& rem.inner as int % (k.inner as int) == 0
                &&& rem.len >= k.len
                &&& rem2.inner == rem.inner as int / (k.inner as int)
                &&& rem2.len == rem.len - k.len
            },
            None => true,
        },
{
    let mut i: usize = bound;
    while i > 0
        invariant
            i <= bound,
            bound <= dict.words.keys@.len(),
            dict.wf(),
        decreases i,
    {
        i = i - 1;
        let k = dict.words.keys[i];
        if settings.allow_key(&k) {
            match rem.sub(k) {
                Some(rem2) => {
                    proof {
                        assert(k.inner >= 2);
                    }
                    return Some((i, k, rem2));
                },
                None => {},
            }
        }
    }
    None
}

} // verus!
