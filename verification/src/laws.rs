//! The library's laws: properties of searching relative to insertion and
//! deletion, proved once for every engine state the operations can reach
//! (every well-formed state).

use vstd::prelude::*;
use vstd::std_specs::cmp::PartialEqSpec;

use crate::engine::eq_faithful;
use crate::engine::lemma_id_match_neg;
use crate::engine::SimSearch;
use crate::options::SearchOptions;
use crate::options::SCORE_SCALE;
use crate::score::best_contribution;
use crate::score::contribution;
use crate::score::token_score;
use crate::search::lemma_rank_insert_elems;
use crate::search::rank_beats;
use crate::search::rank_insert;
use crate::text::views_of;

verus! {

/// A token's best contribution is at least its contribution against any one
/// query token.
proof fn lemma_best_ge(opt: SearchOptions, v: Seq<char>, qs: Seq<Seq<char>>, k: int)
    requires
        0 <= k < qs.len(),
    ensures
        best_contribution(opt, v, qs) >= contribution(opt, v, qs[k]),
    decreases qs.len(),
{
    if k == qs.len() - 1 {
        assert(qs.last() == qs[k]);
    } else {
        assert(qs.drop_last()[k] == qs[k]);
        lemma_best_ge(opt, v, qs.drop_last(), k);
    }
}

/// A positive best contribution names a query token whose score beats the
/// threshold.
proof fn lemma_best_pos(opt: SearchOptions, v: Seq<char>, qs: Seq<Seq<char>>)
    requires
        best_contribution(opt, v, qs) > 0,
    ensures
        exists|k: int|
            0 <= k < qs.len() && token_score(opt, v, #[trigger] qs[k]) > opt.threshold,
    decreases qs.len(),
{
    let c = contribution(opt, v, qs.last());
    if c > 0 && c >= best_contribution(opt, v, qs.drop_last()) {
        assert(token_score(opt, v, qs.last()) > opt.threshold);
        assert(qs[qs.len() - 1] == qs.last());
    } else {
        lemma_best_pos(opt, v, qs.drop_last());
        let k = choose|k: int|
            0 <= k < qs.drop_last().len() && token_score(opt, v, #[trigger] qs.drop_last()[k])
                > opt.threshold;
        assert(qs[k] == qs.drop_last()[k]);
    }
}

impl<Id> SimSearch<Id> where Id: Eq + Clone {
    /// Every summand of a slot total is nonnegative.
    proof fn lemma_slot_total_nonneg(self, qs: Seq<Seq<char>>, s: u64, n: int)
        ensures
            self.slot_total_upto(qs, s, n) >= 0,
        decreases n,
    {
        if n > 0 {
            self.lemma_slot_total_nonneg(qs, s, n - 1);
        }
    }

    /// A slot's total is at least the contribution of any one vocabulary
    /// entry whose bucket holds it.
    proof fn lemma_slot_total_ge_term(self, qs: Seq<Seq<char>>, s: u64, j: int, n: int)
        requires
            0 <= j < n <= self.reverse@.len(),
            self.reverse@[j].slots@.contains(s),
        ensures
            self.slot_total_upto(qs, s, n) >= best_contribution(
                self.option,
                self.reverse@[j].token@,
                qs,
            ),
        decreases n,
    {
        if j == n - 1 {
            self.lemma_slot_total_nonneg(qs, s, n - 1);
        } else {
            self.lemma_slot_total_ge_term(qs, s, j, n - 1);
        }
    }

    /// A positive total names a vocabulary entry that holds the slot and
    /// contributes.
    proof fn lemma_slot_total_pos(self, qs: Seq<Seq<char>>, s: u64, n: int)
        requires
            0 < n <= self.reverse@.len(),
            self.slot_total_upto(qs, s, n) > 0,
        ensures
            exists|j: int|
                0 <= j < n && (#[trigger] self.reverse@[j]).slots@.contains(s)
                    && best_contribution(self.option, self.reverse@[j].token@, qs) > 0,
        decreases n,
    {
        if self.reverse@[n - 1].slots@.contains(s) && best_contribution(
            self.option,
            self.reverse@[n - 1].token@,
            qs,
        ) > 0 {
        } else {
            assert(self.slot_total_upto(qs, s, n - 1) > 0);
            self.lemma_slot_total_pos(qs, s, n - 1);
        }
    }

    /// A live slot with a positive total is ranked, paired with that total.
    proof fn lemma_ranked_upto_contains(self, qs: Seq<Seq<char>>, i: int, n: int)
        requires
            0 <= i < n <= self.forward@.len(),
            self.slot_total(qs, self.forward@[i].slot) > 0,
        ensures
            self.ranked_upto(qs, n).contains(
                (self.forward@[i].slot, self.slot_total(qs, self.forward@[i].slot)),
            ),
        decreases n,
    {
        let s = self.forward@[i].slot;
        let p = (s, self.slot_total(qs, s));
        let prev = self.ranked_upto(qs, n - 1);
        let s2 = self.forward@[n - 1].slot;
        let tot2 = self.slot_total(qs, s2);
        if i == n - 1 {
            lemma_rank_insert_elems(prev, p, p);
        } else {
            self.lemma_ranked_upto_contains(qs, i, n - 1);
            if tot2 > 0 {
                lemma_rank_insert_elems(prev, (s2, tot2), p);
            }
        }
    }

    /// Round-trip identity: an entry whose token set the query reproduces
    /// exactly — as searching for the inserted content verbatim does — is
    /// among the ranked results, provided the entry has at least one token
    /// and the threshold lies below the maximal score.
    pub proof fn lemma_round_trip(self, i: int, qs: Seq<Seq<char>>)
        requires
            self.wf(),
            0 <= i < self.forward@.len(),
            qs == views_of(self.forward@[i].tokens@),
            qs.len() > 0,
            self.option.threshold < SCORE_SCALE,
        ensures
            exists|w: int|
                0 <= w < self.ranked(qs).len() && (#[trigger] self.ranked(qs)[w]).0
                    == self.forward@[i].slot,
    {
        let s = self.forward@[i].slot;
        let t = qs[0];
        assert(t == self.forward@[i].tokens@[0]@);
        assert(self.reverse_has(s, t));
        let j = self.reverse_index_of(t);
        assert(self.has_token_key(t));
        assert(0 <= j < self.reverse@.len() && self.reverse@[j].token@ == t);
        assert(self.bucket_of(t) == self.reverse@[j].slots@);
        // the token scores the maximum against itself
        assert(token_score(self.option, t, t) == SCORE_SCALE);
        assert(contribution(self.option, t, t) == SCORE_SCALE);
        assert(qs.contains(t));
        lemma_best_ge(self.option, t, qs, 0);
        assert(best_contribution(self.option, t, qs) >= SCORE_SCALE);
        self.lemma_slot_total_ge_term(qs, s, j, self.reverse@.len() as int);
        assert(self.slot_total(qs, s) > 0);
        self.lemma_ranked_upto_contains(qs, i, self.forward@.len() as int);
        let p = (s, self.slot_total(qs, s));
        let w = choose|w: int| 0 <= w < self.ranked(qs).len() && self.ranked(qs)[w] == p;
        assert(self.ranked(qs)[w].0 == s);
    }

    /// Only matching entries are returned: a ranked slot's entry holds a
    /// vocabulary token whose score against some query token strictly
    /// exceeds the threshold. An entry none of whose tokens qualifies — for
    /// instance one whose old content was replaced by a re-insert — cannot
    /// appear in any result.
    pub proof fn lemma_result_has_qualifying_token(self, qs: Seq<Seq<char>>, w: int)
        requires
            self.wf(),
            0 <= w < self.ranked(qs).len(),
        ensures
            exists|j: int, k: int|
                {
                    &&& 0 <= j < self.reverse@.len()
                    &&& 0 <= k < qs.len()
                    &&& self.slot_has_token(self.ranked(qs)[w].0, (#[trigger] self.reverse@[j]).token@)
                    &&& token_score(self.option, self.reverse@[j].token@, #[trigger] qs[k])
                        > self.option.threshold
                },
    {
        let x = self.ranked(qs)[w];
        assert(self.ranked(qs).contains(x));
        self.lemma_ranked_elems(qs, self.forward@.len() as int, x);
        assert(self.reverse@.len() > 0) by {
            if self.reverse@.len() == 0 {
                assert(self.slot_total_upto(qs, x.0, 0) == 0);
            }
        }
        self.lemma_slot_total_pos(qs, x.0, self.reverse@.len() as int);
        let j = choose|j: int|
            0 <= j < self.reverse@.len() && (#[trigger] self.reverse@[j]).slots@.contains(x.0)
                && best_contribution(self.option, self.reverse@[j].token@, qs) > 0;
        let m = choose|m: int|
            0 <= m < self.reverse@[j].slots@.len() && self.reverse@[j].slots@[m] == x.0;
        assert(self.slot_has_token(self.reverse@[j].slots@[m], self.reverse@[j].token@));
        lemma_best_pos(self.option, self.reverse@[j].token@, qs);
        let k = choose|k: int|
            0 <= k < qs.len() && token_score(self.option, self.reverse@[j].token@, #[trigger] qs[k])
                > self.option.threshold;
        assert(0 <= j < self.reverse@.len() && 0 <= k < qs.len() && self.slot_has_token(
            self.ranked(qs)[w].0,
            self.reverse@[j].token@,
        ) && token_score(self.option, self.reverse@[j].token@, qs[k]) > self.option.threshold);
    }

    /// Deletion removes find-ability: once an identifier is no longer live —
    /// as `delete` ensures — no search result names it, whatever the query.
    pub proof fn lemma_deleted_not_found(self, id: Id, qs: Seq<Seq<char>>, w: int)
        requires
            self.wf(),
            eq_faithful::<Id>(),
            !self.has_id(id),
            0 <= w < self.ranked(qs).len(),
        ensures
            !self.id_of_slot(self.ranked(qs)[w].0).eq_spec(&id),
    {
        let x = self.ranked(qs)[w];
        assert(self.ranked(qs).contains(x));
        self.lemma_ranked_elems(qs, self.forward@.len() as int, x);
        let i = choose|i: int|
            0 <= i < self.forward@.len() && (#[trigger] self.forward@[i]).slot == x.0 && x.1
                == self.slot_total(qs, x.0) && x.1 > 0;
        assert(self.ids@[i].slot == x.0);
        let c = self.slot_index_of(x.0);
        assert(exists|i2: int|
            0 <= i2 < self.ids@.len() && (#[trigger] self.ids@[i2]).slot == x.0);
        assert(0 <= c < self.ids@.len() && self.ids@[c].slot == x.0);
        lemma_id_match_neg(self.ids@, id);
        assert(!self.ids@[c].id.eq_spec(&id));
    }

    /// The reverse mapping carries no information of its own: a slot sits in
    /// a token's bucket exactly when the slot's live entry holds the token.
    /// Together with the buckets' strict ordering this determines the
    /// reverse mapping from the forward mapping, so the contracts of insert
    /// and delete, which pin the forward mapping, pin the searchable state.
    pub proof fn lemma_bucket_membership(self, s: u64, t: Seq<char>)
        requires
            self.wf(),
        ensures
            self.reverse_has(s, t) <==> self.slot_has_token(s, t),
    {
        if self.reverse_has(s, t) {
            let j = self.reverse_index_of(t);
            let n = choose|n: int|
                0 <= n < self.reverse@[j].slots@.len() && self.reverse@[j].slots@[n] == s;
            assert(self.slot_has_token(self.reverse@[j].slots@[n], self.reverse@[j].token@));
        }
        if self.slot_has_token(s, t) {
            let i = choose|i: int|
                0 <= i < self.forward@.len() && (#[trigger] self.forward@[i]).slot == s
                    && self.fwd_tokens(i).contains(t);
            let k = choose|k: int|
                0 <= k < self.fwd_tokens(i).len() && self.fwd_tokens(i)[k] == t;
            assert(self.forward@[i].tokens@[k]@ == t);
            assert(self.reverse_has(self.forward@[i].slot, self.forward@[i].tokens@[k]@));
        }
    }

    /// Invariant preservation: the identifiers scanned from the forward
    /// mapping are exactly the keys of the identifier bijection. Both
    /// vectors pair the same slots index by index, so the live-slot sets
    /// agree; every operation's contract ends in a well-formed engine, so
    /// this holds after any sequence of inserts and deletes.
    pub proof fn lemma_forward_ids_bijection(self)
        requires
            self.wf(),
        ensures
            self.ids@.len() == self.forward@.len(),
            forall|i: int|
                0 <= i < self.forward@.len() ==> (#[trigger] self.ids@[i]).slot
                    == self.forward@[i].slot,
            forall|s: u64|
                self.slot_live(s) <==> exists|i: int|
                    0 <= i < self.ids@.len() && (#[trigger] self.ids@[i]).slot == s,
    {
        assert forall|s: u64|
            self.slot_live(s) <==> exists|i: int|
                0 <= i < self.ids@.len() && (#[trigger] self.ids@[i]).slot == s by {
            if self.slot_live(s) {
                let i = choose|i: int|
                    0 <= i < self.forward@.len() && (#[trigger] self.forward@[i]).slot == s;
                assert(self.ids@[i].slot == s);
            }
            if exists|i: int| 0 <= i < self.ids@.len() && (#[trigger] self.ids@[i]).slot == s {
                let i = choose|i: int|
                    0 <= i < self.ids@.len() && (#[trigger] self.ids@[i]).slot == s;
                assert(self.forward@[i].slot == s);
            }
        }
    }
}

/// Whether a ranked sequence is strictly ordered: every earlier pair beats
/// every later one.
pub open spec fn rank_sorted(s: Seq<(u64, int)>) -> bool {
    forall|a: int, b: int| 0 <= a < b < s.len() ==> rank_beats(#[trigger] s[a], #[trigger] s[b])
}

/// Inserting a pair with a fresh slot keeps a ranked sequence strictly
/// ordered.
proof fn lemma_rank_insert_sorted(s: Seq<(u64, int)>, p: (u64, int))
    requires
        rank_sorted(s),
        forall|k: int| 0 <= k < s.len() ==> (#[trigger] s[k]).0 != p.0,
    ensures
        rank_sorted(rank_insert(s, p)),
    decreases s.len(),
{
    if s.len() == 0 {
    } else if rank_beats(p, s[0]) {
        let out = seq![p] + s;
        assert forall|a: int, b: int| 0 <= a < b < out.len() implies rank_beats(
            #[trigger] out[a],
            #[trigger] out[b],
        ) by {
            if a == 0 {
                assert(out[b] == s[b - 1]);
                if b > 1 {
                    assert(rank_beats(s[0], s[b - 1]));
                }
            } else {
                assert(out[a] == s[a - 1] && out[b] == s[b - 1]);
            }
        }
    } else {
        assert forall|a: int, b: int| 0 <= a < b < s.skip(1).len() implies rank_beats(
            #[trigger] s.skip(1)[a],
            #[trigger] s.skip(1)[b],
        ) by {
            assert(s.skip(1)[a] == s[a + 1] && s.skip(1)[b] == s[b + 1]);
        }
        assert forall|k: int| 0 <= k < s.skip(1).len() implies (#[trigger] s.skip(1)[k]).0
            != p.0 by {
            assert(s.skip(1)[k] == s[k + 1]);
        }
        lemma_rank_insert_sorted(s.skip(1), p);
        let rest = rank_insert(s.skip(1), p);
        let out = seq![s[0]] + rest;
        // the head beats the inserted pair and everything it already beat
        assert(rank_beats(s[0], p)) by {
            assert(s[0].0 != p.0);
        }
        assert forall|a: int, b: int| 0 <= a < b < out.len() implies rank_beats(
            #[trigger] out[a],
            #[trigger] out[b],
        ) by {
            if a == 0 {
                assert(out[b] == rest[b - 1]);
                assert(rest.contains(rest[b - 1]));
                lemma_rank_insert_elems(s.skip(1), p, rest[b - 1]);
                if s.skip(1).contains(rest[b - 1]) {
                    let k = choose|k: int|
                        0 <= k < s.skip(1).len() && s.skip(1)[k] == rest[b - 1];
                    assert(s[k + 1] == rest[b - 1]);
                    assert(rank_beats(s[0], s[k + 1]));
                }
            } else {
                assert(out[a] == rest[a - 1] && out[b] == rest[b - 1]);
            }
        }
    }
}

impl<Id> SimSearch<Id> where Id: Eq + Clone {
    proof fn lemma_ranked_upto_sorted(self, qs: Seq<Seq<char>>, n: int)
        requires
            self.wf(),
            0 <= n <= self.forward@.len(),
        ensures
            rank_sorted(self.ranked_upto(qs, n)),
        decreases n,
    {
        if n > 0 {
            self.lemma_ranked_upto_sorted(qs, n - 1);
            let prev = self.ranked_upto(qs, n - 1);
            let s = self.forward@[n - 1].slot;
            let tot = self.slot_total(qs, s);
            if tot > 0 {
                assert forall|k: int| 0 <= k < prev.len() implies (#[trigger] prev[k]).0 != s by {
                    assert(prev.contains(prev[k]));
                    self.lemma_ranked_elems(qs, n - 1, prev[k]);
                    let i = choose|i: int|
                        0 <= i < n - 1 && (#[trigger] self.forward@[i]).slot == prev[k].0
                            && prev[k].1 == self.slot_total(qs, prev[k].0) && prev[k].1 > 0;
                    assert(self.forward@[i].slot < self.forward@[n - 1].slot);
                }
                lemma_rank_insert_sorted(prev, (s, tot));
            }
        }
    }

    /// Results are ranked: the pairs of `ranked` are strictly ordered by
    /// descending total score, ties broken towards the earlier slot. With
    /// the membership law this pins the result sequence completely.
    pub proof fn lemma_ranked_sorted(self, qs: Seq<Seq<char>>)
        requires
            self.wf(),
        ensures
            rank_sorted(self.ranked(qs)),
    {
        self.lemma_ranked_upto_sorted(qs, self.forward@.len() as int);
    }

    /// Exactly the live slots with a positive total are ranked, each paired
    /// with its total: what `search` returns is determined by the slot
    /// totals alone.
    pub proof fn lemma_ranked_characterization(self, qs: Seq<Seq<char>>, p: (u64, int))
        requires
            self.wf(),
        ensures
            self.ranked(qs).contains(p) <==> exists|i: int|
                0 <= i < self.forward@.len() && (#[trigger] self.forward@[i]).slot == p.0 && p.1
                    == self.slot_total(qs, p.0) && p.1 > 0,
    {
        if self.ranked(qs).contains(p) {
            self.lemma_ranked_elems(qs, self.forward@.len() as int, p);
        }
        if exists|i: int|
            0 <= i < self.forward@.len() && (#[trigger] self.forward@[i]).slot == p.0 && p.1
                == self.slot_total(qs, p.0) && p.1 > 0 {
            let i = choose|i: int|
                0 <= i < self.forward@.len() && (#[trigger] self.forward@[i]).slot == p.0 && p.1
                    == self.slot_total(qs, p.0) && p.1 > 0;
            self.lemma_ranked_upto_contains(qs, i, self.forward@.len() as int);
        }
    }
}

/// The score of a token pair reads only the metric choice, never the
/// threshold, so lowering the threshold can only keep or grow each
/// contribution.
proof fn lemma_contribution_monotone(
    opt1: SearchOptions,
    opt2: SearchOptions,
    v: Seq<char>,
    q: Seq<char>,
)
    requires
        opt1.levenshtein == opt2.levenshtein,
        opt1.threshold <= opt2.threshold,
    ensures
        contribution(opt2, v, q) <= contribution(opt1, v, q),
{
    assert(token_score(opt1, v, q) == token_score(opt2, v, q));
}

/// Best contributions are monotone the same way.
proof fn lemma_best_monotone(
    opt1: SearchOptions,
    opt2: SearchOptions,
    v: Seq<char>,
    qs: Seq<Seq<char>>,
)
    requires
        opt1.levenshtein == opt2.levenshtein,
        opt1.threshold <= opt2.threshold,
    ensures
        best_contribution(opt2, v, qs) <= best_contribution(opt1, v, qs),
    decreases qs.len(),
{
    if qs.len() > 0 {
        lemma_best_monotone(opt1, opt2, v, qs.drop_last());
        lemma_contribution_monotone(opt1, opt2, v, qs.last());
    }
}

impl<Id> SimSearch<Id> where Id: Eq + Clone {
    /// Slot totals are monotone in the threshold.
    proof fn lemma_total_monotone(self, other: Self, qs: Seq<Seq<char>>, s: u64, n: int)
        requires
            other.reverse@ == self.reverse@,
            other.option.levenshtein == self.option.levenshtein,
            self.option.threshold <= other.option.threshold,
            n <= self.reverse@.len(),
        ensures
            other.slot_total_upto(qs, s, n) <= self.slot_total_upto(qs, s, n),
        decreases n,
    {
        if n > 0 {
            self.lemma_total_monotone(other, qs, s, n - 1);
            lemma_best_monotone(self.option, other.option, self.reverse@[n - 1].token@, qs);
        }
    }

    /// Threshold monotonicity: raising the threshold never adds a result.
    /// A slot ranked by the engine with the higher threshold is ranked by
    /// the engine that differs only in a lower threshold.
    pub proof fn lemma_threshold_monotone(self, other: Self, qs: Seq<Seq<char>>, w: int)
        requires
            self.wf(),
            other.wf(),
            other.ids@ == self.ids@,
            other.forward@ == self.forward@,
            other.reverse@ == self.reverse@,
            other.option.case_sensitive == self.option.case_sensitive,
            other.option.stop_whitespace == self.option.stop_whitespace,
            other.option.levenshtein == self.option.levenshtein,
            other.option.threshold >= self.option.threshold,
            0 <= w < other.ranked(qs).len(),
        ensures
            exists|w2: int|
                0 <= w2 < self.ranked(qs).len() && (#[trigger] self.ranked(qs)[w2]).0
                    == other.ranked(qs)[w].0,
    {
        let x = other.ranked(qs)[w];
        assert(other.ranked(qs).contains(x));
        other.lemma_ranked_elems(qs, other.forward@.len() as int, x);
        let i = choose|i: int|
            0 <= i < other.forward@.len() && (#[trigger] other.forward@[i]).slot == x.0 && x.1
                == other.slot_total(qs, x.0) && x.1 > 0;
        self.lemma_total_monotone(other, qs, x.0, self.reverse@.len() as int);
        assert(self.slot_total(qs, x.0) > 0);
        assert(self.forward@[i].slot == x.0);
        self.lemma_ranked_upto_contains(qs, i, self.forward@.len() as int);
        let p = (x.0, self.slot_total(qs, x.0));
        let w2 = choose|w2: int| 0 <= w2 < self.ranked(qs).len() && self.ranked(qs)[w2] == p;
        assert(self.ranked(qs)[w2].0 == x.0);
    }
}

} // verus!
