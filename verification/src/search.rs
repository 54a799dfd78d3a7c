//! Searching: scoring the vocabulary against a query, folding token scores
//! into per-slot totals through the reverse mapping, and ranking.
//!
//! A search tokenizes and deduplicates its query exactly as insertion does.
//! Every distinct vocabulary token is scored against every query token; a
//! token that strictly exceeds the threshold against some query token
//! contributes its best such score to the total of every slot in its bucket.
//! Slots with a positive total are returned, best total first, ties broken
//! by insertion (slot) order, each mapped back to its identifier.

use vstd::pervasive::cloned;
use vstd::pervasive::unreached;
use vstd::prelude::*;

use crate::engine::SimSearch;
use crate::options::SCORE_SCALE;
use crate::score::best_contribution;
use crate::score::best_contribution_of;
use crate::text::dedup_spec;
use crate::text::dedup_tokens;
use crate::text::tokenize;
use crate::text::tokenize_spec;
use crate::text::views_of;

verus! {

/// Ranking order on (slot, total) pairs: the higher total wins; equal
/// totals go to the earlier (lower) slot.
pub open spec fn rank_beats(a: (u64, int), b: (u64, int)) -> bool {
    a.1 > b.1 || (a.1 == b.1 && a.0 < b.0)
}

/// Inserts `p` into a ranked sequence, before the first pair it beats.
pub open spec fn rank_insert(s: Seq<(u64, int)>, p: (u64, int)) -> Seq<(u64, int)>
    decreases s.len(),
{
    if s.len() == 0 {
        seq![p]
    } else if rank_beats(p, s[0]) {
        seq![p] + s
    } else {
        seq![s[0]] + rank_insert(s.skip(1), p)
    }
}

/// `rank_insert` splices `p` in at the first position it beats.
proof fn lemma_rank_insert_at(s: Seq<(u64, int)>, p: (u64, int), pos: int)
    requires
        0 <= pos <= s.len(),
        forall|k: int| 0 <= k < pos ==> !rank_beats(p, #[trigger] s[k]),
        pos < s.len() ==> rank_beats(p, s[pos]),
    ensures
        rank_insert(s, p) == s.take(pos) + seq![p] + s.skip(pos),
    decreases pos,
{
    if s.len() == 0 {
        assert(rank_insert(s, p) =~= s.take(pos) + seq![p] + s.skip(pos));
    } else if pos == 0 {
        if rank_beats(p, s[0]) {
            assert(rank_insert(s, p) =~= s.take(0) + seq![p] + s.skip(0));
        }
    } else {
        assert(!rank_beats(p, s[0]));
        assert forall|k: int| 0 <= k < pos - 1 implies !rank_beats(p, #[trigger] s.skip(1)[k]) by {
            assert(s.skip(1)[k] == s[k + 1]);
        }
        if pos < s.len() {
            assert(s.skip(1)[pos - 1] == s[pos]);
        }
        lemma_rank_insert_at(s.skip(1), p, pos - 1);
        assert(seq![s[0]] + (s.skip(1).take(pos - 1) + seq![p] + s.skip(1).skip(pos - 1)) =~= s.take(
            pos,
        ) + seq![p] + s.skip(pos));
    }
}

/// The pairs of `rank_insert(s, p)` are those of `s` and `p` itself.
pub proof fn lemma_rank_insert_elems(s: Seq<(u64, int)>, p: (u64, int), x: (u64, int))
    ensures
        rank_insert(s, p).contains(x) <==> (s.contains(x) || x == p),
    decreases s.len(),
{
    if s.len() == 0 {
        assert(rank_insert(s, p)[0] == p);
    } else if rank_beats(p, s[0]) {
        assert((seq![p] + s)[0] == p);
        assert forall|k: int| 0 <= k < s.len() implies (seq![p] + s)[k + 1] == s[k] by {}
        if (seq![p] + s).contains(x) {
            let k = choose|k: int| 0 <= k < (seq![p] + s).len() && (seq![p] + s)[k] == x;
            if k > 0 {
                assert(s[k - 1] == x);
            }
        }
        if s.contains(x) {
            let k = choose|k: int| 0 <= k < s.len() && s[k] == x;
            assert((seq![p] + s)[k + 1] == x);
        }
    } else {
        lemma_rank_insert_elems(s.skip(1), p, x);
        let rest = rank_insert(s.skip(1), p);
        let whole = seq![s[0]] + rest;
        assert(whole[0] == s[0]);
        if whole.contains(x) {
            let k = choose|k: int| 0 <= k < whole.len() && whole[k] == x;
            if k > 0 {
                assert(rest[k - 1] == x);
                if s.skip(1).contains(x) {
                    let k2 = choose|k2: int| 0 <= k2 < s.skip(1).len() && s.skip(1)[k2] == x;
                    assert(s[k2 + 1] == x);
                }
            }
        }
        if s.contains(x) {
            let k = choose|k: int| 0 <= k < s.len() && s[k] == x;
            if k > 0 {
                assert(s.skip(1)[k - 1] == x);
                assert(rest.contains(x));
                let k2 = choose|k2: int| 0 <= k2 < rest.len() && rest[k2] == x;
                assert(whole[k2 + 1] == x);
            }
        }
        if x == p {
            assert(rest.contains(x));
            let k2 = choose|k2: int| 0 <= k2 < rest.len() && rest[k2] == x;
            assert(whole[k2 + 1] == x);
        }
    }
}

/// The view of the exec ranking pairs.
pub open spec fn pair_views(s: Seq<(u64, u128)>) -> Seq<(u64, int)> {
    s.map_values(|p: (u64, u128)| (p.0, p.1 as int))
}

impl<Id> SimSearch<Id> where Id: Eq + Clone {
    /// What the first `n` vocabulary entries add up to for slot `s`: each
    /// entry whose bucket holds `s` adds its best qualifying score against
    /// the query tokens `qs`.
    pub open spec fn slot_total_upto(self, qs: Seq<Seq<char>>, s: u64, n: int) -> int
        decreases n,
    {
        if n <= 0 {
            0
        } else {
            self.slot_total_upto(qs, s, n - 1) + (if self.reverse@[n - 1].slots@.contains(s) {
                best_contribution(self.option, self.reverse@[n - 1].token@, qs) as int
            } else {
                0
            })
        }
    }

    /// The total score of slot `s` over the whole vocabulary.
    pub open spec fn slot_total(self, qs: Seq<Seq<char>>, s: u64) -> int {
        self.slot_total_upto(qs, s, self.reverse@.len() as int)
    }

    /// The ranked (slot, total) pairs drawn from the first `n` entries of
    /// the forward mapping: those with a positive total, ordered by
    /// [`rank_beats`].
    pub open spec fn ranked_upto(self, qs: Seq<Seq<char>>, n: int) -> Seq<(u64, int)>
        decreases n,
    {
        if n <= 0 {
            Seq::empty()
        } else {
            let prev = self.ranked_upto(qs, n - 1);
            let s = self.forward@[n - 1].slot;
            let tot = self.slot_total(qs, s);
            if tot > 0 {
                rank_insert(prev, (s, tot))
            } else {
                prev
            }
        }
    }

    /// The search result as (slot, total) pairs: every live slot with a
    /// positive total, ranked best first, ties in slot order.
    pub open spec fn ranked(self, qs: Seq<Seq<char>>) -> Seq<(u64, int)> {
        self.ranked_upto(qs, self.forward@.len() as int)
    }

    /// The query tokens of the given fragments under this engine's options:
    /// tokenized and deduplicated like indexed content.
    pub open spec fn query_views(self, frags: Seq<Seq<char>>) -> Seq<Seq<char>> {
        dedup_spec(tokenize_spec(self.option, frags))
    }

    /// The index of the bijection entry holding slot `s`.
    pub open spec fn slot_index_of(self, s: u64) -> int {
        choose|i: int| 0 <= i < self.ids@.len() && (#[trigger] self.ids@[i]).slot == s
    }

    /// The identifier registered under slot `s`.
    pub open spec fn id_of_slot(self, s: u64) -> Id {
        self.ids@[self.slot_index_of(s)].id
    }

    /// Every ranked pair is a live slot with its positive total.
    pub proof fn lemma_ranked_elems(self, qs: Seq<Seq<char>>, n: int, x: (u64, int))
        requires
            0 <= n <= self.forward@.len(),
            self.ranked_upto(qs, n).contains(x),
        ensures
            exists|i: int|
                0 <= i < n && (#[trigger] self.forward@[i]).slot == x.0 && x.1 == self.slot_total(
                    qs,
                    x.0,
                ) && x.1 > 0,
        decreases n,
    {
        let prev = self.ranked_upto(qs, n - 1);
        let s = self.forward@[n - 1].slot;
        let tot = self.slot_total(qs, s);
        if tot > 0 {
            lemma_rank_insert_elems(prev, (s, tot), x);
        }
        if prev.contains(x) {
            self.lemma_ranked_elems(qs, n - 1, x);
        } else {
            assert(x == (s, tot));
        }
    }

    /// Whether the bucket holds the slot `s`.
    fn bucket_contains(b: &Vec<u64>, s: u64) -> (r: bool)
        ensures
            r == b@.contains(s),
    {
        let mut n: usize = 0;
        while n < b.len()
            invariant
                n <= b@.len(),
                forall|k: int| 0 <= k < n ==> b@[k] != s,
            decreases b@.len() - n,
        {
            if b[n] == s {
                return true;
            }
            n += 1;
        }
        false
    }

    /// Searches the query tokens and returns the matching identifiers, best
    /// total score first, ties in insertion order.
    pub fn search_tokens(&self, pattern_tokens: &[&str]) -> (r: Vec<Id>)
        requires
            self.wf(),
        ensures
            ({
                let ranked = self.ranked(
                    self.query_views(pattern_tokens@.map_values(|f: &str| f@)),
                );
                &&& r@.len() == ranked.len()
                &&& forall|i: int|
                    0 <= i < ranked.len() ==> cloned::<Id>(
                        self.id_of_slot(ranked[i].0),
                        #[trigger] r@[i],
                    )
            }),
    {
        let toks = tokenize(&self.option, pattern_tokens);
        let toks = dedup_tokens(toks);
        let ghost qs = self.query_views(pattern_tokens@.map_values(|f: &str| f@));
        proof {
            assert(views_of(toks@) == qs);
        }
        // Score every vocabulary token against the query once.
        let mut scores: Vec<u64> = Vec::new();
        let mut j: usize = 0;
        while j < self.reverse.len()
            invariant
                j <= self.reverse@.len(),
                scores@.len() == j,
                self.wf(),
                views_of(toks@) == qs,
                forall|w: int|
                    0 <= w < j ==> (#[trigger] scores@[w]) as nat == best_contribution(
                        self.option,
                        self.reverse@[w].token@,
                        qs,
                    ) && scores@[w] <= SCORE_SCALE,
            decreases self.reverse@.len() - j,
        {
            let c = best_contribution_of(&self.option, &self.reverse[j].token, &toks);
            scores.push(c);
            j += 1;
        }
        // Fold the scores into per-slot totals, ranking as we go.
        let mut pairs: Vec<(u64, u128)> = Vec::new();
        let mut i: usize = 0;
        proof {
            assert(pair_views(pairs@) =~= self.ranked_upto(qs, 0));
        }
        while i < self.forward.len()
            invariant
                i <= self.forward@.len(),
                self.wf(),
                views_of(toks@) == qs,
                scores@.len() == self.reverse@.len(),
                forall|w: int|
                    0 <= w < scores@.len() ==> (#[trigger] scores@[w]) as nat == best_contribution(
                        self.option,
                        self.reverse@[w].token@,
                        qs,
                    ) && scores@[w] <= SCORE_SCALE,
                pair_views(pairs@) == self.ranked_upto(qs, i as int),
            decreases self.forward@.len() - i,
        {
            let slot = self.forward[i].slot;
            let mut acc: u128 = 0;
            let mut j2: usize = 0;
            while j2 < self.reverse.len()
                invariant
                    j2 <= self.reverse@.len(),
                    self.wf(),
                    scores@.len() == self.reverse@.len(),
                    forall|w: int|
                        0 <= w < scores@.len() ==> (#[trigger] scores@[w]) as nat
                            == best_contribution(self.option, self.reverse@[w].token@, qs)
                            && scores@[w] <= SCORE_SCALE,
                    acc as int == self.slot_total_upto(qs, slot, j2 as int),
                    acc <= (j2 as int) * (SCORE_SCALE as int),
                decreases self.reverse@.len() - j2,
            {
                proof {
                    assert((j2 + 1) * (SCORE_SCALE as int) <= 0x1_0000_0000_0000_0000
                        * 0x4000_0000int && (j2 as int) * (SCORE_SCALE as int) + SCORE_SCALE == ((
                    j2 + 1) as int) * (SCORE_SCALE as int)) by (nonlinear_arith)
                        requires
                            0 <= j2 < 0x1_0000_0000_0000_0000,
                    ;
                }
                if Self::bucket_contains(&self.reverse[j2].slots, slot) {
                    acc = acc + (scores[j2] as u128);
                }
                j2 += 1;
            }
            if acc > 0 {
                let p: (u64, u128) = (slot, acc);
                let mut pos: usize = 0;
                while pos < pairs.len() && !(p.1 > pairs[pos].1 || (p.1 == pairs[pos].1 && p.0
                    < pairs[pos].0))
                    invariant
                        pos <= pairs@.len(),
                        forall|k: int|
                            0 <= k < pos ==> !rank_beats(
                                (p.0, p.1 as int),
                                #[trigger] pair_views(pairs@)[k],
                            ),
                    decreases pairs@.len() - pos,
                {
                    proof {
                        assert(pair_views(pairs@)[pos as int] == (
                            pairs@[pos as int].0,
                            pairs@[pos as int].1 as int,
                        ));
                    }
                    pos += 1;
                }
                let ghost before = pairs@;
                proof {
                    if pos < pairs@.len() {
                        assert(pair_views(before)[pos as int] == (
                            before[pos as int].0,
                            before[pos as int].1 as int,
                        ));
                    }
                    lemma_rank_insert_at(pair_views(before), (p.0, p.1 as int), pos as int);
                }
                pairs.insert(pos, p);
                proof {
                    assert(pair_views(pairs@) =~= pair_views(before).take(pos as int) + seq![
                        (p.0, p.1 as int),
                    ] + pair_views(before).skip(pos as int)) by {
                        assert forall|w: int| 0 <= w < pairs@.len() implies pair_views(pairs@)[w]
                            == (pair_views(before).take(pos as int) + seq![(p.0, p.1 as int)]
                            + pair_views(before).skip(pos as int))[w] by {
                            if w < pos {
                                assert(pairs@[w] == before[w]);
                            } else if w > pos {
                                assert(pairs@[w] == before[w - 1]);
                            }
                        }
                    }
                }
            }
            i += 1;
        }
        // Map each ranked slot back to its identifier.
        let ghost ranked = self.ranked(qs);
        let mut out: Vec<Id> = Vec::new();
        let mut w: usize = 0;
        while w < pairs.len()
            invariant
                w <= pairs@.len(),
                self.wf(),
                pair_views(pairs@) == ranked,
                ranked == self.ranked(qs),
                qs == self.query_views(pattern_tokens@.map_values(|f: &str| f@)),
                out@.len() == w,
                forall|v: int|
                    0 <= v < w ==> cloned::<Id>(self.id_of_slot(ranked[v].0), #[trigger] out@[v]),
            decreases pairs@.len() - w,
        {
            let slot = pairs[w].0;
            proof {
                assert(pair_views(pairs@)[w as int] == (
                    pairs@[w as int].0,
                    pairs@[w as int].1 as int,
                ));
                assert(ranked.contains(ranked[w as int]));
                self.lemma_ranked_elems(qs, self.forward@.len() as int, ranked[w as int]);
            }
            let mut n: usize = 0;
            let mut found: Option<usize> = None;
            while n < self.ids.len()
                invariant
                    n <= self.ids@.len(),
                    self.wf(),
                    match found {
                        Some(f) => f < self.ids@.len() && self.ids@[f as int].slot == slot,
                        None => forall|k: int|
                            0 <= k < n ==> (#[trigger] self.ids@[k]).slot != slot,
                    },
                decreases self.ids@.len() - n,
            {
                if self.ids[n].slot == slot {
                    found = Some(n);
                    break ;
                }
                n += 1;
            }
            match found {
                Some(f) => {
                    let idv = self.ids[f].id.clone();
                    proof {
                        // slots are unique, so this is the slot's entry
                        let c = self.slot_index_of(slot);
                        assert(exists|i2: int|
                            0 <= i2 < self.ids@.len() && (#[trigger] self.ids@[i2]).slot == slot);
                        assert(0 <= c < self.ids@.len() && self.ids@[c].slot == slot);
                        if c != f as int {
                            assert(self.forward@[c].slot == self.ids@[c].slot);
                            assert(self.forward@[f as int].slot == self.ids@[f as int].slot);
                            assert(false);
                        }
                    }
                    out.push(idv);
                },
                None => {
                    proof {
                        // the ranked slot is live, so the scan cannot miss
                        let i2 = choose|i2: int|
                            0 <= i2 < self.forward@.len() && (#[trigger] self.forward@[i2]).slot
                                == ranked[w as int].0 && ranked[w as int].1 == self.slot_total(
                                qs,
                                ranked[w as int].0,
                            ) && ranked[w as int].1 > 0;
                        assert(self.ids@[i2].slot == slot);
                        assert(false);
                    }
                    let idv = unreached::<Id>();
                    out.push(idv);
                },
            }
            w += 1;
        }
        out
    }

    /// Searches a pattern and returns the matching identifiers sorted by
    /// relevance.
    pub fn search(&self, pattern: &str) -> (r: Vec<Id>)
        requires
            self.wf(),
        ensures
            ({
                let ranked = self.ranked(self.query_views(seq![pattern@]));
                &&& r@.len() == ranked.len()
                &&& forall|i: int|
                    0 <= i < ranked.len() ==> cloned::<Id>(
                        self.id_of_slot(ranked[i].0),
                        #[trigger] r@[i],
                    )
            }),
    {
        let mut frags: Vec<&str> = Vec::new();
        frags.push(pattern);
        proof {
            assert(frags@.map_values(|f: &str| f@) =~= seq![pattern@]);
        }
        self.search_tokens(frags.as_slice())
    }
}

} // verus!
