//! The index engine: the id/slot bijection, the forward and reverse token
//! mappings, and the insert / delete / search operations over them.
//!
//! Each live entry holds a caller-supplied identifier, an internal slot (a
//! fresh, monotonically increasing handle), and its deduplicated token set.
//! The identifier/slot pairs and the slot/token-set pairs sit in two vectors
//! kept aligned index by index and sorted by slot; the reverse mapping keys
//! each distinct token to the sorted bucket of slots whose entries hold it.
//! [`SimSearch::wf`] states these invariants, every operation preserves
//! them, and searching relies on them to map every scored slot back to a
//! live identifier.

use vstd::pervasive::cloned;
use vstd::prelude::*;
use vstd::std_specs::cmp::PartialEqSpec;

use crate::options::OptionsError;
use crate::options::SearchOptions;
use crate::text::dedup_spec;
use crate::text::dedup_tokens;
use crate::text::lemma_dedup_contains;
use crate::text::lemma_dedup_distinct;
use crate::text::lemma_tokenize_nonempty;
use crate::text::tokenize;
use crate::text::tokenize_spec;
use crate::text::views_of;

verus! {

/// One identifier/slot pair of the bijection.
pub struct IdEntry<Id> {
    /// The caller-supplied identifier.
    pub id: Id,
    /// The slot of the entry holding that identifier.
    pub slot: u64,
}

/// One slot/token-set pair of the forward mapping.
pub struct ForwardEntry {
    /// The slot of the entry.
    pub slot: u64,
    /// The entry's tokens, deduplicated, each nonempty.
    pub tokens: Vec<String>,
}

/// One token/bucket pair of the reverse mapping.
pub struct ReverseEntry {
    /// A distinct vocabulary token.
    pub token: String,
    /// The slots of the entries holding the token, strictly increasing.
    pub slots: Vec<u64>,
}

/// Whether the token views are pairwise distinct and all nonempty.
pub open spec fn distinct_nonempty(ts: Seq<Seq<char>>) -> bool {
    &&& forall|a: int, b: int| 0 <= a < b < ts.len() ==> ts[a] != ts[b]
    &&& forall|a: int| 0 <= a < ts.len() ==> ts[a].len() > 0
}

/// Whether the slots are strictly increasing.
pub open spec fn strictly_increasing(s: Seq<u64>) -> bool {
    forall|a: int, b: int| 0 <= a < b < s.len() ==> s[a] < s[b]
}

/// The index of the first entry whose identifier equals `id`, or -1 when
/// there is none.
pub open spec fn id_match<Id: Eq + Clone>(s: Seq<IdEntry<Id>>, id: Id) -> int
    decreases s.len(),
{
    if s.len() == 0 {
        -1
    } else if s[0].id.eq_spec(&id) {
        0
    } else {
        let r = id_match(s.skip(1), id);
        if r < 0 {
            -1
        } else {
            1 + r
        }
    }
}

/// What `id_match` finds is the first matching entry; -1 means none.
pub proof fn lemma_id_match_at<Id: Eq + Clone>(s: Seq<IdEntry<Id>>, id: Id, j: int)
    requires
        0 <= j <= s.len(),
        forall|k: int| 0 <= k < j ==> !(#[trigger] s[k]).id.eq_spec(&id),
        j < s.len() ==> s[j].id.eq_spec(&id),
    ensures
        j < s.len() ==> id_match(s, id) == j,
        j == s.len() ==> id_match(s, id) == -1,
    decreases j,
{
    if j == 0 {
        if s.len() > 0 && !s[0].id.eq_spec(&id) {
            lemma_id_match_at(s.skip(1), id, 0);
        }
    } else {
        assert(!s[0].id.eq_spec(&id));
        assert forall|k: int| 0 <= k < j - 1 implies !(#[trigger] s.skip(1)[k]).id.eq_spec(&id) by {
            assert(s.skip(1)[k] == s[k + 1]);
        }
        if j < s.len() {
            assert(s.skip(1)[j - 1] == s[j]);
        }
        lemma_id_match_at(s.skip(1), id, j - 1);
    }
}

/// Whether exec equality on `Id` is faithfully modeled by `eq_spec` and is
/// an equivalence, as Rust's `Eq` contract documents. Under this hypothesis
/// re-inserting and deleting by identifier behave like map updates.
pub open spec fn eq_faithful<Id: Eq>() -> bool {
    &&& Id::obeys_eq_spec()
    &&& forall|a: Id| #[trigger] a.eq_spec(&a)
    &&& forall|a: Id, b: Id| #[trigger] a.eq_spec(&b) ==> b.eq_spec(&a)
    &&& forall|a: Id, b: Id, c: Id|
        #[trigger] a.eq_spec(&b) && #[trigger] b.eq_spec(&c) ==> a.eq_spec(&c)
}

/// The simple search engine.
pub struct SimSearch<Id> where Id: Eq + Clone {
    /// The engine's configuration, fixed at construction.
    pub option: SearchOptions,
    /// The next slot to hand out; above every live slot.
    pub slot_counter: u64,
    /// The identifier/slot bijection, sorted by slot.
    pub ids: Vec<IdEntry<Id>>,
    /// The forward mapping, aligned with `ids` index by index.
    pub forward: Vec<ForwardEntry>,
    /// The reverse mapping: distinct tokens, each with its slot bucket.
    pub reverse: Vec<ReverseEntry>,
}

impl<Id> SimSearch<Id> where Id: Eq + Clone {
    /// The token views of the forward entry at `i`.
    pub open spec fn fwd_tokens(self, i: int) -> Seq<Seq<char>> {
        views_of(self.forward@[i].tokens@)
    }

    /// Whether some live entry has slot `s` and holds the token `t`.
    pub open spec fn slot_has_token(self, s: u64, t: Seq<char>) -> bool {
        exists|i: int|
            0 <= i < self.forward@.len() && (#[trigger] self.forward@[i]).slot == s
                && self.fwd_tokens(i).contains(t)
    }

    /// Whether slot `s` belongs to a live entry.
    pub open spec fn slot_live(self, s: u64) -> bool {
        exists|i: int| 0 <= i < self.forward@.len() && (#[trigger] self.forward@[i]).slot == s
    }

    /// Whether the reverse mapping keys the token `t`.
    pub open spec fn has_token_key(self, t: Seq<char>) -> bool {
        exists|j: int| 0 <= j < self.reverse@.len() && (#[trigger] self.reverse@[j]).token@ == t
    }

    /// The index of the reverse entry keyed by `t`.
    pub open spec fn reverse_index_of(self, t: Seq<char>) -> int {
        choose|j: int| 0 <= j < self.reverse@.len() && (#[trigger] self.reverse@[j]).token@ == t
    }

    /// The bucket of the token `t`: the slots of the entries holding it, or
    /// empty when the token is not keyed.
    pub open spec fn bucket_of(self, t: Seq<char>) -> Seq<u64> {
        if self.has_token_key(t) {
            self.reverse@[self.reverse_index_of(t)].slots@
        } else {
            Seq::empty()
        }
    }

    /// Whether the reverse mapping records slot `s` under token `t`.
    pub open spec fn reverse_has(self, s: u64, t: Seq<char>) -> bool {
        self.bucket_of(t).contains(s)
    }

    /// The identifier and forward vectors pair the same slots up, index by
    /// index: the two together are the id/slot bijection.
    pub open spec fn wf_bijection(self) -> bool {
        &&& self.ids@.len() == self.forward@.len()
        &&& forall|i: int|
            0 <= i < self.ids@.len() ==> (#[trigger] self.ids@[i]).slot == self.forward@[i].slot
    }

    /// Slots are strictly increasing (hence unique) and below the counter.
    pub open spec fn wf_slots(self) -> bool {
        &&& forall|i: int, j: int|
            0 <= i < j < self.forward@.len() ==> (#[trigger] self.forward@[i]).slot < (
            #[trigger] self.forward@[j]).slot
        &&& forall|i: int|
            0 <= i < self.forward@.len() ==> (#[trigger] self.forward@[i]).slot
                < self.slot_counter
    }

    /// Each entry's tokens are deduplicated and nonempty.
    pub open spec fn wf_tokens(self) -> bool {
        forall|i: int| 0 <= i < self.forward@.len() ==> distinct_nonempty(#[trigger] self.fwd_tokens(i))
    }

    /// Reverse keys are pairwise distinct and buckets strictly increasing.
    pub open spec fn wf_reverse_shape(self) -> bool {
        &&& forall|j: int, j2: int|
            0 <= j < j2 < self.reverse@.len() ==> (#[trigger] self.reverse@[j]).token@ != (
            #[trigger] self.reverse@[j2]).token@
        &&& forall|j: int|
            0 <= j < self.reverse@.len() ==> strictly_increasing(
                (#[trigger] self.reverse@[j]).slots@,
            )
    }

    /// No stale reverse entries: every bucket member is a live slot whose
    /// entry holds the bucket's token.
    pub open spec fn wf_reverse_sound(self) -> bool {
        forall|j: int, n: int|
            0 <= j < self.reverse@.len() && 0 <= n < self.reverse@[j].slots@.len()
                ==> self.slot_has_token(
                #[trigger] self.reverse@[j].slots@[n],
                self.reverse@[j].token@,
            )
    }

    /// Every token of every live entry is keyed in the reverse mapping with
    /// the entry's slot in its bucket.
    pub open spec fn wf_reverse_complete(self) -> bool {
        forall|i: int, k: int|
            0 <= i < self.forward@.len() && 0 <= k < self.forward@[i].tokens@.len()
                ==> self.reverse_has(
                self.forward@[i].slot,
                (#[trigger] self.forward@[i].tokens@[k])@,
            )
    }

    /// Live identifiers are pairwise distinct (when equality on `Id` is
    /// faithfully modeled as an equivalence).
    pub open spec fn wf_ids_unique(self) -> bool {
        eq_faithful::<Id>() ==> forall|i: int, i2: int|
            0 <= i < i2 < self.ids@.len() ==> !(#[trigger] self.ids@[i]).id.eq_spec(
                &(#[trigger] self.ids@[i2]).id,
            )
    }

    /// The engine's invariant: all of the above, and a well-formed
    /// configuration. It holds of every constructed engine and is preserved
    /// by every operation.
    pub open spec fn wf(self) -> bool {
        &&& self.option.wf()
        &&& self.wf_bijection()
        &&& self.wf_slots()
        &&& self.wf_tokens()
        &&& self.wf_reverse_shape()
        &&& self.wf_reverse_sound()
        &&& self.wf_reverse_complete()
        &&& self.wf_ids_unique()
    }

    /// Whether some live entry's identifier equals `id`.
    pub open spec fn has_id(self, id: Id) -> bool {
        id_match(self.ids@, id) >= 0
    }

    /// The index of the first live entry whose identifier equals `id`.
    pub open spec fn id_index(self, id: Id) -> int {
        id_match(self.ids@, id)
    }

    /// Creates a search engine with the default options.
    pub fn new() -> (r: Self)
        ensures
            r.wf(),
            r.option.case_sensitive == false,
            r.option.stop_whitespace == true,
            r.option.stop_words@ == Seq::<String>::empty(),
            r.option.threshold == crate::options::DEFAULT_THRESHOLD,
            r.option.levenshtein == false,
            r.ids@.len() == 0,
            r.forward@.len() == 0,
            r.reverse@.len() == 0,
            r.slot_counter == 0,
    {
        SimSearch {
            option: SearchOptions::new(),
            slot_counter: 0,
            ids: Vec::new(),
            forward: Vec::new(),
            reverse: Vec::new(),
        }
    }

    /// Creates a search engine with the given options, rejecting a threshold
    /// that names no fraction in `[0, 1]`.
    pub fn new_with(option: SearchOptions) -> (r: Result<Self, OptionsError>)
        ensures
            r is Ok <==> option.wf(),
            r is Ok ==> ({
                let e = r->Ok_0;
                &&& e.wf()
                &&& e.option == option
                &&& e.ids@.len() == 0
                &&& e.forward@.len() == 0
                &&& e.reverse@.len() == 0
                &&& e.slot_counter == 0
            }),
            r is Err ==> r->Err_0 == OptionsError::ThresholdOutOfRange,
    {
        if option.threshold > crate::options::SCORE_SCALE {
            return Err(OptionsError::ThresholdOutOfRange);
        }
        Ok(
            SimSearch {
                option,
                slot_counter: 0,
                ids: Vec::new(),
                forward: Vec::new(),
                reverse: Vec::new(),
            },
        )
    }

    /// The index of the entry whose identifier equals `id`, scanning in slot
    /// order.
    fn find_id(&self, id: &Id) -> (r: Option<usize>)
        ensures
            r is Some ==> r->0 < self.ids@.len(),
            Id::obeys_eq_spec() ==> match r {
                Some(i) => {
                    &&& i as int == id_match(self.ids@, *id)
                    &&& self.ids@[i as int].id.eq_spec(id)
                    &&& forall|k: int| 0 <= k < i ==> !(#[trigger] self.ids@[k]).id.eq_spec(id)
                },
                None => id_match(self.ids@, *id) == -1,
            },
    {
        let mut i: usize = 0;
        while i < self.ids.len()
            invariant
                i <= self.ids@.len(),
                Id::obeys_eq_spec() ==> forall|k: int|
                    0 <= k < i ==> !(#[trigger] self.ids@[k]).id.eq_spec(id),
            decreases self.ids@.len() - i,
        {
            if self.ids[i].id == *id {
                proof {
                    if Id::obeys_eq_spec() {
                        lemma_id_match_at(self.ids@, *id, i as int);
                    }
                }
                return Some(i);
            }
            i += 1;
        }
        proof {
            if Id::obeys_eq_spec() {
                lemma_id_match_at(self.ids@, *id, self.ids@.len() as int);
            }
        }
        None
    }

    /// The index of the reverse entry keyed by the token `t`, if any.
    fn find_reverse(&self, t: &String) -> (r: Option<usize>)
        ensures
            match r {
                Some(j) => j < self.reverse@.len() && self.reverse@[j as int].token@ == t@,
                None => !self.has_token_key(t@),
            },
    {
        let mut j: usize = 0;
        while j < self.reverse.len()
            invariant
                j <= self.reverse@.len(),
                forall|k: int| 0 <= k < j ==> (#[trigger] self.reverse@[k]).token@ != t@,
            decreases self.reverse@.len() - j,
        {
            if self.reverse[j].token == *t {
                return Some(j);
            }
            j += 1;
        }
        None
    }
}

/// Filtering out an absent slot changes nothing.
proof fn lemma_filter_absent(b: Seq<u64>, s: u64)
    requires
        !b.contains(s),
    ensures
        b.filter(|x: u64| x != s) == b,
    decreases b.len(),
{
    reveal(Seq::filter);
    if b.len() > 0 {
        assert(!b.drop_last().contains(s)) by {
            if b.drop_last().contains(s) {
                let n = choose|n: int| 0 <= n < b.drop_last().len() && b.drop_last()[n] == s;
                assert(b[n] == s);
            }
        }
        lemma_filter_absent(b.drop_last(), s);
        assert(b[b.len() - 1] != s);
        assert(b.filter(|x: u64| x != s) =~= b);
    }
}

/// Filtering keeps a strictly increasing bucket strictly increasing.
proof fn lemma_filter_sorted(b: Seq<u64>, s: u64)
    requires
        strictly_increasing(b),
    ensures
        strictly_increasing(b.filter(|x: u64| x != s)),
    decreases b.len(),
{
    reveal(Seq::filter);
    if b.len() > 0 {
        assert(strictly_increasing(b.drop_last()));
        lemma_filter_sorted(b.drop_last(), s);
        let prev = b.drop_last().filter(|x: u64| x != s);
        if b.last() != s {
            assert forall|a: int, c: int|
                0 <= a < c < prev.push(b.last()).len() implies prev.push(b.last())[a] < prev.push(
                b.last(),
            )[c] by {
                if c < prev.len() {
                } else {
                    assert(prev.push(b.last())[c] == b.last());
                    if a < prev.len() {
                        let e = prev[a];
                        b.drop_last().lemma_filter_contains_rev(|x: u64| x != s, e);
                        let n = choose|n: int|
                            0 <= n < b.drop_last().len() && b.drop_last()[n] == e;
                        assert(b[n] == e);
                        assert(b[n] < b[b.len() - 1]);
                    }
                }
            }
        }
    }
}

impl<Id> SimSearch<Id> where Id: Eq + Clone {
    /// Copies a bucket, leaving the slot `s` out.
    fn bucket_without(b: &Vec<u64>, s: u64) -> (r: Vec<u64>)
        ensures
            r@ == b@.filter(|x: u64| x != s),
    {
        broadcast use vstd::prelude::Seq::lemma_filter_push;

        let mut r: Vec<u64> = Vec::new();
        proof {
            reveal(Seq::filter);
            assert(b@.take(0).filter(|x: u64| x != s) =~= Seq::<u64>::empty());
        }
        let mut n: usize = 0;
        while n < b.len()
            invariant
                n <= b@.len(),
                r@ == b@.take(n as int).filter(|x: u64| x != s),
            decreases b@.len() - n,
        {
            proof {
                assert(b@.take(n + 1) =~= b@.take(n as int).push(b@[n as int]));
            }
            if b[n] != s {
                r.push(b[n]);
            }
            n += 1;
        }
        proof {
            assert(b@.take(b@.len() as int) =~= b@);
        }
        r
    }

    /// Deletes the entry registered under `id`; does nothing when there is
    /// none. Afterwards the identifier is no longer live, its entry is gone
    /// from the bijection and the forward mapping, and its slot is gone from
    /// every reverse bucket; the vocabulary keys themselves stay.
    pub fn delete(&mut self, id: &Id)
        requires
            old(self).wf(),
        ensures
            final(self).wf(),
            final(self).option == old(self).option,
            final(self).slot_counter == old(self).slot_counter,
            final(self).reverse@.len() == old(self).reverse@.len(),
            forall|j: int|
                0 <= j < old(self).reverse@.len() ==> (#[trigger] final(self).reverse@[j]).token@
                    == old(self).reverse@[j].token@,
            Id::obeys_eq_spec() ==> ({
                if old(self).has_id(*id) {
                    let i = old(self).id_index(*id);
                    let s = old(self).ids@[i].slot;
                    &&& final(self).ids@ == old(self).ids@.remove(i)
                    &&& final(self).forward@ == old(self).forward@.remove(i)
                    &&& forall|j: int|
                        0 <= j < old(self).reverse@.len() ==> (
                        #[trigger] final(self).reverse@[j]).slots@ == old(
                            self,
                        ).reverse@[j].slots@.filter(|x: u64| x != s)
                } else {
                    *final(self) == *old(self)
                }
            }),
            eq_faithful::<Id>() ==> !final(self).has_id(*id),
    {
        let idx = self.find_id(id);
        let i = match idx {
            None => {
                return ;
            },
            Some(i) => i,
        };
        let ghost o = *old(self);
        let fwd = self.forward.remove(i);
        let ide = self.ids.remove(i);
        let s = fwd.slot;
        let ghost pred = |x: u64| x != s;
        proof {
            assert(o.ids@[i as int].slot == o.forward@[i as int].slot);
        }
        // prune the slot from the bucket of each of the entry's tokens
        let mut k: usize = 0;
        while k < fwd.tokens.len()
            invariant
                k <= fwd.tokens@.len(),
                pred == (|x: u64| x != s),
                self.ids@ == o.ids@.remove(i as int),
                self.forward@ == o.forward@.remove(i as int),
                self.option == o.option,
                self.slot_counter == o.slot_counter,
                self.reverse@.len() == o.reverse@.len(),
                forall|j: int|
                    0 <= j < o.reverse@.len() ==> (#[trigger] self.reverse@[j]).token@
                        == o.reverse@[j].token@,
                forall|j: int|
                    0 <= j < o.reverse@.len() ==> (#[trigger] self.reverse@[j]).slots@
                        == o.reverse@[j].slots@ || self.reverse@[j].slots@
                        == o.reverse@[j].slots@.filter(pred),
                forall|j: int|
                    0 <= j < o.reverse@.len() && (exists|k2: int|
                        0 <= k2 < k && (#[trigger] fwd.tokens@[k2])@ == o.reverse@[j].token@) ==> (
                    #[trigger] self.reverse@[j]).slots@ == o.reverse@[j].slots@.filter(pred),
                0 <= i < o.forward@.len(),
                o.forward@[i as int] == fwd,
                o.wf(),
                s == fwd.slot,
            decreases fwd.tokens@.len() - k,
        {
            let jopt = self.find_reverse(&fwd.tokens[k]);
            match jopt {
                Some(j) => {
                    let pruned = Self::bucket_without(&self.reverse[j].slots, s);
                    let tok = self.reverse[j].token.clone();
                    let ghost before = self.reverse@;
                    proof {
                        // pruning twice is pruning once
                        if before[j as int].slots@ == o.reverse@[j as int].slots@.filter(pred) {
                            lemma_double_filter(o.reverse@[j as int].slots@, s);
                        }
                    }
                    vstd::pervasive::VecAdditionalExecFns::set(
                        &mut self.reverse,
                        j,
                        ReverseEntry { token: tok, slots: pruned },
                    );
                },
                None => {
                    proof {
                        // the engine's invariant keys every live token
                        assert(o.reverse_has(o.forward@[i as int].slot, fwd.tokens@[k as int]@));
                        let j = o.reverse_index_of(fwd.tokens@[k as int]@);
                        assert(self.reverse@[j].token@ == fwd.tokens@[k as int]@);
                        assert(false);
                    }
                },
            }
            k += 1;
        }
        proof {
            let se = *self;
            // every bucket is now the filtered old bucket
            assert forall|j: int| 0 <= j < o.reverse@.len() implies (
            #[trigger] se.reverse@[j]).slots@ == o.reverse@[j].slots@.filter(pred) by {
                if se.reverse@[j].slots@ == o.reverse@[j].slots@ {
                    if !o.reverse@[j].slots@.contains(s) {
                        lemma_filter_absent(o.reverse@[j].slots@, s);
                    } else {
                        let n = choose|n: int|
                            0 <= n < o.reverse@[j].slots@.len() && o.reverse@[j].slots@[n] == s;
                        assert(o.slot_has_token(s, o.reverse@[j].token@));
                        let i2 = choose|i2: int|
                            0 <= i2 < o.forward@.len() && (#[trigger] o.forward@[i2]).slot == s
                                && o.fwd_tokens(i2).contains(o.reverse@[j].token@);
                        // slots are unique, so the witness is the removed entry
                        if i2 != i {
                            assert(o.forward@[i2].slot == o.forward@[i as int].slot);
                            assert(false);
                        }
                        let k2 = choose|k2: int|
                            0 <= k2 < o.fwd_tokens(i as int).len() && o.fwd_tokens(i as int)[k2]
                                == o.reverse@[j].token@;
                        assert(fwd.tokens@[k2]@ == o.reverse@[j].token@);
                        assert(false);
                    }
                }
            }
            lemma_delete_wf(o, se, i as int, s);
            if eq_faithful::<Id>() {
                assert forall|w: int| 0 <= w < se.ids@.len() implies !(
                #[trigger] se.ids@[w]).id.eq_spec(id) by {
                    if w < i {
                        assert(se.ids@[w] == o.ids@[w]);
                    } else {
                        assert(se.ids@[w] == o.ids@[w + 1]);
                        // two entries matching the same identifier would
                        // violate pairwise uniqueness
                        if se.ids@[w].id.eq_spec(id) {
                            let e1 = o.ids@[i as int].id;
                            let e2 = o.ids@[w + 1].id;
                            assert(e1.eq_spec(id));
                            assert(e2.eq_spec(id));
                            assert((*id).eq_spec(&e2));
                            assert(e1.eq_spec(&e2));
                            assert(false);
                        }
                    }
                }
                lemma_id_match_at(se.ids@, *id, se.ids@.len() as int);
            }
        }
    }
}

/// No entry matches when `id_match` found none.
pub proof fn lemma_id_match_neg<Id: Eq + Clone>(s: Seq<IdEntry<Id>>, id: Id)
    requires
        id_match(s, id) < 0,
    ensures
        forall|k: int| 0 <= k < s.len() ==> !(#[trigger] s[k]).id.eq_spec(&id),
    decreases s.len(),
{
    if s.len() > 0 {
        lemma_id_match_neg(s.skip(1), id);
        assert forall|k: int| 0 <= k < s.len() implies !(#[trigger] s[k]).id.eq_spec(&id) by {
            if k > 0 {
                assert(s.skip(1)[k - 1] == s[k]);
            }
        }
    }
}

impl<Id> SimSearch<Id> where Id: Eq + Clone {
    /// Copies a bucket and appends the slot `s`.
    fn bucket_with(b: &Vec<u64>, s: u64) -> (r: Vec<u64>)
        ensures
            r@ == b@.push(s),
    {
        let mut r: Vec<u64> = Vec::new();
        let mut n: usize = 0;
        while n < b.len()
            invariant
                n <= b@.len(),
                r@ == b@.take(n as int),
            decreases b@.len() - n,
        {
            r.push(b[n]);
            proof {
                assert(b@.take(n + 1) =~= b@.take(n as int).push(b@[n as int]));
            }
            n += 1;
        }
        proof {
            assert(b@.take(b@.len() as int) =~= b@);
        }
        r.push(s);
        r
    }

    /// Registers a fresh entry: assigns the next slot, stores the
    /// identifier, the slot and the tokens, and records the slot in the
    /// bucket of each token, keying tokens not yet in the vocabulary.
    fn add_entry(&mut self, id: Id, tokens: Vec<String>)
        requires
            old(self).wf(),
            old(self).slot_counter < u64::MAX,
            distinct_nonempty(views_of(tokens@)),
            eq_faithful::<Id>() ==> !old(self).has_id(id),
        ensures
            final(self).wf(),
            final(self).option == old(self).option,
            final(self).slot_counter == old(self).slot_counter + 1,
            final(self).ids@ == old(self).ids@.push(
                IdEntry { id, slot: old(self).slot_counter },
            ),
            final(self).forward@.len() == old(self).forward@.len() + 1,
            forall|i: int|
                0 <= i < old(self).forward@.len() ==> final(self).forward@[i] == old(
                    self,
                ).forward@[i],
            final(self).forward@.last().slot == old(self).slot_counter,
            views_of(final(self).forward@.last().tokens@) == views_of(tokens@),
            forall|j: int|
                0 <= j < old(self).reverse@.len() ==> (#[trigger] final(self).reverse@[j]).token@
                    == old(self).reverse@[j].token@,
    {
        let ghost o = *old(self);
        let slot = self.slot_counter;
        let ghost tviews = views_of(tokens@);
        let mut k: usize = 0;
        while k < tokens.len()
            invariant
                k <= tokens@.len(),
                tviews == views_of(tokens@),
                distinct_nonempty(tviews),
                o.wf(),
                slot == o.slot_counter,
                self.ids == o.ids,
                self.forward == o.forward,
                self.option == o.option,
                self.slot_counter == o.slot_counter,
                self.reverse@.len() >= o.reverse@.len(),
                forall|j: int|
                    0 <= j < o.reverse@.len() ==> (#[trigger] self.reverse@[j]).token@
                        == o.reverse@[j].token@,
                forall|j: int|
                    0 <= j < o.reverse@.len() ==> (#[trigger] self.reverse@[j]).slots@ == (
                    if tviews.take(k as int).contains(o.reverse@[j].token@) {
                        o.reverse@[j].slots@.push(slot)
                    } else {
                        o.reverse@[j].slots@
                    }),
                forall|j: int|
                    o.reverse@.len() <= j < self.reverse@.len() ==> {
                        &&& !o.has_token_key((#[trigger] self.reverse@[j]).token@)
                        &&& tviews.take(k as int).contains(self.reverse@[j].token@)
                        &&& self.reverse@[j].slots@ == seq![slot]
                    },
                forall|j1: int, j2: int|
                    o.reverse@.len() <= j1 < j2 < self.reverse@.len() ==> (
                    #[trigger] self.reverse@[j1]).token@ != (#[trigger] self.reverse@[j2]).token@,
                forall|k2: int| 0 <= k2 < k ==> self.has_token_key(#[trigger] tviews[k2]),
            decreases tokens@.len() - k,
        {
            let ghost pre = self.reverse@;
            proof {
                assert(tviews.take(k + 1) =~= tviews.take(k as int).push(tviews[k as int]));
                assert(tviews[k as int] == tokens@[k as int]@);
            }
            let jopt = self.find_reverse(&tokens[k]);
            match jopt {
                Some(j) => {
                    let tok = self.reverse[j].token.clone();
                    let pruned = Self::bucket_with(&self.reverse[j].slots, slot);
                    proof {
                        // the key found is a pre-existing one: a fresh key would
                        // mean this token was already processed
                        if j >= o.reverse@.len() {
                            assert(tviews.take(k as int).contains(tviews[k as int]));
                            let k2 = choose|k2: int|
                                0 <= k2 < k && tviews.take(k as int)[k2] == tviews[k as int];
                            assert(tviews[k2] == tviews[k as int]);
                            assert(false);
                        }
                        // and its bucket is still untouched: the token was
                        // not processed before
                        assert(!tviews.take(k as int).contains(o.reverse@[j as int].token@)) by {
                            if tviews.take(k as int).contains(tviews[k as int]) {
                                let k2 = choose|k2: int|
                                    0 <= k2 < k && tviews.take(k as int)[k2] == tviews[k as int];
                                assert(tviews[k2] == tviews[k as int]);
                            }
                        }
                    }
                    vstd::pervasive::VecAdditionalExecFns::set(
                        &mut self.reverse,
                        j,
                        ReverseEntry { token: tok, slots: pruned },
                    );
                    proof {
                        assert forall|k2: int| 0 <= k2 < k + 1 implies self.has_token_key(
                            #[trigger] tviews[k2],
                        ) by {
                            if k2 < k {
                                let w = choose|w: int|
                                    0 <= w < pre.len() && (#[trigger] pre[w]).token@ == tviews[k2];
                                assert(self.reverse@[w].token@ == tviews[k2]);
                            } else {
                                assert(self.reverse@[j as int].token@ == tviews[k as int]);
                            }
                        }
                        assert(tviews.take(k + 1).contains(tviews[k as int])) by {
                            assert(tviews.take(k + 1)[k as int] == tviews[k as int]);
                        }
                        assert forall|j2: int| 0 <= j2 < o.reverse@.len() implies (
                        #[trigger] self.reverse@[j2]).slots@ == (if tviews.take(k + 1).contains(
                            o.reverse@[j2].token@,
                        ) {
                            o.reverse@[j2].slots@.push(slot)
                        } else {
                            o.reverse@[j2].slots@
                        }) by {
                            if j2 == j {
                                assert(o.reverse@[j2].token@ == tviews[k as int]);
                            } else {
                                assert(self.reverse@[j2] == pre[j2]);
                                assert(o.reverse@[j2].token@ != tviews[k as int]) by {
                                    assert(o.reverse@[j as int].token@ == tviews[k as int]);
                                }
                                if tviews.take(k + 1).contains(o.reverse@[j2].token@) {
                                    let w = choose|w: int|
                                        0 <= w < k + 1 && #[trigger] tviews.take(k + 1)[w]
                                            == o.reverse@[j2].token@;
                                    assert(w < k);
                                    assert(tviews.take(k as int)[w] == o.reverse@[j2].token@);
                                } else {
                                    if tviews.take(k as int).contains(o.reverse@[j2].token@) {
                                        let w = choose|w: int|
                                            0 <= w < k && tviews.take(k as int)[w]
                                                == o.reverse@[j2].token@;
                                        assert(tviews.take(k + 1)[w] == o.reverse@[j2].token@);
                                    }
                                }
                            }
                        }
                        assert forall|j2: int|
                            o.reverse@.len() <= j2 < self.reverse@.len() implies {
                            &&& !o.has_token_key((#[trigger] self.reverse@[j2]).token@)
                            &&& tviews.take(k + 1).contains(self.reverse@[j2].token@)
                            &&& self.reverse@[j2].slots@ == seq![slot]
                        } by {
                            assert(self.reverse@[j2] == pre[j2]);
                            let w = choose|w: int|
                                0 <= w < k && tviews.take(k as int)[w] == pre[j2].token@;
                            assert(tviews.take(k + 1)[w] == pre[j2].token@);
                        }
                    }
                },
                None => {
                    let tok = tokens[k].clone();
                    let mut single: Vec<u64> = Vec::new();
                    single.push(slot);
                    proof {
                        assert(single@ =~= seq![slot]);
                    }
                    self.reverse.push(ReverseEntry { token: tok, slots: single });
                    proof {
                        let newlen = self.reverse@.len() as int;
                        assert(self.reverse@[newlen - 1].token@ == tviews[k as int]);
                        assert forall|k2: int| 0 <= k2 < k + 1 implies self.has_token_key(
                            #[trigger] tviews[k2],
                        ) by {
                            if k2 < k {
                                let w = choose|w: int|
                                    0 <= w < pre.len() && (#[trigger] pre[w]).token@ == tviews[k2];
                                assert(self.reverse@[w].token@ == tviews[k2]);
                            }
                        }
                        // the new key differs from every processed token
                        assert(!tviews.take(k as int).contains(tviews[k as int])) by {
                            if tviews.take(k as int).contains(tviews[k as int]) {
                                let k2 = choose|k2: int|
                                    0 <= k2 < k && tviews.take(k as int)[k2] == tviews[k as int];
                                assert(tviews[k2] == tviews[k as int]);
                            }
                        }
                        assert(tviews.take(k + 1).contains(tviews[k as int])) by {
                            assert(tviews.take(k + 1)[k as int] == tviews[k as int]);
                        }
                        assert forall|j2: int| 0 <= j2 < o.reverse@.len() implies (
                        #[trigger] self.reverse@[j2]).slots@ == (if tviews.take(k + 1).contains(
                            o.reverse@[j2].token@,
                        ) {
                            o.reverse@[j2].slots@.push(slot)
                        } else {
                            o.reverse@[j2].slots@
                        }) by {
                            assert(self.reverse@[j2] == pre[j2]);
                            assert(o.reverse@[j2].token@ != tviews[k as int]) by {
                                assert(pre[j2].token@ == o.reverse@[j2].token@);
                            }
                            if tviews.take(k + 1).contains(o.reverse@[j2].token@) {
                                let w = choose|w: int|
                                    0 <= w < k + 1 && #[trigger] tviews.take(k + 1)[w]
                                        == o.reverse@[j2].token@;
                                assert(w < k);
                                assert(tviews.take(k as int)[w] == o.reverse@[j2].token@);
                            } else {
                                if tviews.take(k as int).contains(o.reverse@[j2].token@) {
                                    let w = choose|w: int|
                                        0 <= w < k && tviews.take(k as int)[w]
                                            == o.reverse@[j2].token@;
                                    assert(tviews.take(k + 1)[w] == o.reverse@[j2].token@);
                                }
                            }
                        }
                        assert forall|j2: int|
                            o.reverse@.len() <= j2 < self.reverse@.len() implies {
                            &&& !o.has_token_key((#[trigger] self.reverse@[j2]).token@)
                            &&& tviews.take(k + 1).contains(self.reverse@[j2].token@)
                            &&& self.reverse@[j2].slots@ == seq![slot]
                        } by {
                            if j2 < newlen - 1 {
                                assert(self.reverse@[j2] == pre[j2]);
                                let w = choose|w: int|
                                    0 <= w < k && tviews.take(k as int)[w] == pre[j2].token@;
                                assert(tviews.take(k + 1)[w] == pre[j2].token@);
                            } else {
                                // the fresh key: not in the old vocabulary
                                assert forall|w: int|
                                    0 <= w < o.reverse@.len() implies (
                                #[trigger] o.reverse@[w]).token@ != tviews[k as int] by {
                                    assert(pre[w].token@ == o.reverse@[w].token@);
                                }
                            }
                        }
                    }
                },
            }
            k += 1;
        }
        proof {
            assert(tviews.take(tviews.len() as int) =~= tviews);
        }
        let ghost endrev = self.reverse@;
        let ghost had_keys = forall|k2: int|
            0 <= k2 < tviews.len() ==> self.has_token_key(#[trigger] tviews[k2]);
        self.forward.push(ForwardEntry { slot, tokens });
        self.ids.push(IdEntry { id, slot });
        self.slot_counter = slot + 1;
        proof {
            let n = o.forward@.len() as int;
            assert(self.forward@.last().tokens@ == tokens@);
            assert(views_of(self.forward@.last().tokens@) == tviews);
            assert forall|k2: int|
                0 <= k2 < self.forward@.last().tokens@.len() implies self.has_token_key(
                (#[trigger] self.forward@.last().tokens@[k2])@,
            ) by {
                assert(tviews[k2] == tokens@[k2]@);
                let w = choose|w: int|
                    0 <= w < endrev.len() && (#[trigger] endrev[w]).token@ == tviews[k2];
                assert(self.reverse@[w].token@ == tviews[k2]);
            }
            if eq_faithful::<Id>() {
                assert(self.ids@.last().id == id);
            }
            lemma_add_wf(o, *self, slot);
        }
    }
}

impl<Id> SimSearch<Id> where Id: Eq + Clone {
    /// Inserts an entry into the search engine, replacing any entry already
    /// registered under `id`: the old entry, if any, is fully deleted first;
    /// the fragments are tokenized and deduplicated, and the entry is stored
    /// under a fresh slot.
    ///
    /// The identifier itself is not searchable. Each token must be an ASCII
    /// string when the Levenshtein metric is configured.
    pub fn insert_tokens(&mut self, id: Id, tokens: &[&str])
        requires
            old(self).wf(),
            old(self).slot_counter < u64::MAX,
        ensures
            final(self).wf(),
            final(self).option == old(self).option,
            final(self).slot_counter == old(self).slot_counter + 1,
            final(self).ids@.len() == final(self).forward@.len(),
            final(self).ids@.len() >= 1,
            final(self).ids@.last().id == id,
            final(self).ids@.last().slot == old(self).slot_counter,
            final(self).forward@.last().slot == old(self).slot_counter,
            views_of(final(self).forward@.last().tokens@) == dedup_spec(
                tokenize_spec(old(self).option, tokens@.map_values(|f: &str| f@)),
            ),
            Id::obeys_eq_spec() ==> ({
                let i = id_match(old(self).ids@, id);
                let mid_ids = if i >= 0 {
                    old(self).ids@.remove(i)
                } else {
                    old(self).ids@
                };
                let mid_fwd = if i >= 0 {
                    old(self).forward@.remove(i)
                } else {
                    old(self).forward@
                };
                &&& final(self).ids@ == mid_ids.push(
                    IdEntry { id, slot: old(self).slot_counter },
                )
                &&& final(self).forward@.len() == mid_fwd.len() + 1
                &&& forall|w: int|
                    0 <= w < mid_fwd.len() ==> #[trigger] final(self).forward@[w] == mid_fwd[w]
            }),
            eq_faithful::<Id>() ==> final(self).id_index(id) == final(self).ids@.len() - 1,
    {
        let ghost o = *old(self);
        self.delete(&id);
        let ghost mid = *self;
        let toks = tokenize(&self.option, tokens);
        let toks = dedup_tokens(toks);
        proof {
            let frag_views = tokens@.map_values(|f: &str| f@);
            let base = tokenize_spec(o.option, frag_views);
            let tv = views_of(toks@);
            assert(tv == dedup_spec(base));
            lemma_dedup_distinct(base);
            lemma_tokenize_nonempty(o.option, frag_views);
            assert forall|a: int| 0 <= a < tv.len() implies tv[a].len() > 0 by {
                assert(dedup_spec(base).contains(tv[a]));
                lemma_dedup_contains(base, tv[a]);
                let w = choose|w: int| 0 <= w < base.len() && base[w] == tv[a];
                assert(base[w].len() > 0);
            }
            assert(distinct_nonempty(tv));
        }
        self.add_entry(id, toks);
        proof {
            if eq_faithful::<Id>() {
                lemma_id_match_neg(mid.ids@, id);
                assert forall|k: int| 0 <= k < final(self).ids@.len() - 1 implies !(
                #[trigger] final(self).ids@[k]).id.eq_spec(&id) by {
                    assert(final(self).ids@[k] == mid.ids@[k]);
                }
                assert(final(self).ids@.last().id == id);
                assert((final(self).ids@.last().id).eq_spec(&id));
                lemma_id_match_at(final(self).ids@, id, final(self).ids@.len() - 1);
            }
        }
    }

    /// Inserts an entry, tokenizing `content` according to the search
    /// options. Inserting with an existing identifier replaces the entry.
    pub fn insert(&mut self, id: Id, content: &str)
        requires
            old(self).wf(),
            old(self).slot_counter < u64::MAX,
        ensures
            final(self).wf(),
            final(self).option == old(self).option,
            final(self).slot_counter == old(self).slot_counter + 1,
            final(self).ids@.len() == final(self).forward@.len(),
            final(self).ids@.len() >= 1,
            final(self).ids@.last().id == id,
            final(self).ids@.last().slot == old(self).slot_counter,
            final(self).forward@.last().slot == old(self).slot_counter,
            views_of(final(self).forward@.last().tokens@) == dedup_spec(
                tokenize_spec(old(self).option, seq![content@]),
            ),
            Id::obeys_eq_spec() ==> ({
                let i = id_match(old(self).ids@, id);
                let mid_ids = if i >= 0 {
                    old(self).ids@.remove(i)
                } else {
                    old(self).ids@
                };
                let mid_fwd = if i >= 0 {
                    old(self).forward@.remove(i)
                } else {
                    old(self).forward@
                };
                &&& final(self).ids@ == mid_ids.push(
                    IdEntry { id, slot: old(self).slot_counter },
                )
                &&& final(self).forward@.len() == mid_fwd.len() + 1
                &&& forall|w: int|
                    0 <= w < mid_fwd.len() ==> #[trigger] final(self).forward@[w] == mid_fwd[w]
            }),
            eq_faithful::<Id>() ==> final(self).id_index(id) == final(self).ids@.len() - 1,
    {
        let mut frags: Vec<&str> = Vec::new();
        frags.push(content);
        proof {
            assert(frags@.map_values(|f: &str| f@) =~= seq![content@]);
        }
        self.insert_tokens(id, frags.as_slice());
    }
}

/// After appending a fresh entry with slot `s` and recording `s` in the
/// bucket of each of its tokens, the engine invariant holds again.
proof fn lemma_add_wf<Id: Eq + Clone>(o: SimSearch<Id>, se: SimSearch<Id>, s: u64)
    requires
        o.wf(),
        s == o.slot_counter,
        o.slot_counter < u64::MAX,
        se.option == o.option,
        se.slot_counter == o.slot_counter + 1,
        se.ids@.len() == o.ids@.len() + 1,
        forall|i: int| 0 <= i < o.ids@.len() ==> #[trigger] se.ids@[i] == o.ids@[i],
        se.ids@.last().slot == s,
        se.forward@.len() == o.forward@.len() + 1,
        forall|i: int| 0 <= i < o.forward@.len() ==> #[trigger] se.forward@[i] == o.forward@[i],
        se.forward@.last().slot == s,
        distinct_nonempty(views_of(se.forward@.last().tokens@)),
        se.reverse@.len() >= o.reverse@.len(),
        forall|j: int|
            0 <= j < o.reverse@.len() ==> (#[trigger] se.reverse@[j]).token@
                == o.reverse@[j].token@,
        forall|j: int|
            0 <= j < o.reverse@.len() ==> (#[trigger] se.reverse@[j]).slots@ == (
            if views_of(se.forward@.last().tokens@).contains(o.reverse@[j].token@) {
                o.reverse@[j].slots@.push(s)
            } else {
                o.reverse@[j].slots@
            }),
        forall|j: int|
            o.reverse@.len() <= j < se.reverse@.len() ==> {
                &&& !o.has_token_key((#[trigger] se.reverse@[j]).token@)
                &&& views_of(se.forward@.last().tokens@).contains(se.reverse@[j].token@)
                &&& se.reverse@[j].slots@ == seq![s]
            },
        forall|j1: int, j2: int|
            o.reverse@.len() <= j1 < j2 < se.reverse@.len() ==> (
            #[trigger] se.reverse@[j1]).token@ != (#[trigger] se.reverse@[j2]).token@,
        forall|k2: int|
            0 <= k2 < se.forward@.last().tokens@.len() ==> se.has_token_key(
                (#[trigger] se.forward@.last().tokens@[k2])@,
            ),
        eq_faithful::<Id>() ==> id_match(o.ids@, se.ids@.last().id) < 0,
    ensures
        se.wf(),
{
    let n = o.forward@.len() as int;
    let tv = views_of(se.forward@.last().tokens@);
    assert(se.wf_bijection()) by {
        assert forall|i: int| 0 <= i < se.ids@.len() implies (#[trigger] se.ids@[i]).slot
            == se.forward@[i].slot by {
            if i < n {
                assert(se.ids@[i] == o.ids@[i]);
            }
        }
    }
    assert(se.wf_slots()) by {
        assert forall|i: int, j: int|
            0 <= i < j < se.forward@.len() implies (#[trigger] se.forward@[i]).slot < (
        #[trigger] se.forward@[j]).slot by {
            if j < n {
            } else {
                assert(se.forward@[j].slot == s);
                assert(o.forward@[i].slot < o.slot_counter);
            }
        }
    }
    assert(se.wf_tokens()) by {
        assert forall|i: int| 0 <= i < se.forward@.len() implies distinct_nonempty(
            #[trigger] se.fwd_tokens(i),
        ) by {
            if i < n {
                assert(se.forward@[i] == o.forward@[i]);
                assert(se.fwd_tokens(i) == o.fwd_tokens(i));
            } else {
                assert(se.fwd_tokens(i) == tv);
            }
        }
    }
    assert(se.wf_reverse_shape()) by {
        assert forall|j: int, j2: int|
            0 <= j < j2 < se.reverse@.len() implies (#[trigger] se.reverse@[j]).token@ != (
        #[trigger] se.reverse@[j2]).token@ by {
            if j < o.reverse@.len() && j2 >= o.reverse@.len() {
                assert(!o.has_token_key(se.reverse@[j2].token@));
                assert(o.reverse@[j].token@ == se.reverse@[j].token@);
            }
        }
        assert forall|j: int| 0 <= j < se.reverse@.len() implies strictly_increasing(
            (#[trigger] se.reverse@[j]).slots@,
        ) by {
            if j < o.reverse@.len() {
                if tv.contains(o.reverse@[j].token@) {
                    let b = o.reverse@[j].slots@;
                    assert forall|a: int, c: int|
                        0 <= a < c < b.push(s).len() implies b.push(s)[a] < b.push(s)[c] by {
                        if c < b.len() {
                        } else {
                            assert(b.push(s)[c] == s);
                            assert(o.slot_has_token(b[a], o.reverse@[j].token@));
                            let i2 = choose|i2: int|
                                0 <= i2 < o.forward@.len() && (#[trigger] o.forward@[i2]).slot
                                    == b[a] && o.fwd_tokens(i2).contains(o.reverse@[j].token@);
                            assert(b[a] < o.slot_counter);
                        }
                    }
                }
            }
        }
    }
    assert(se.wf_reverse_sound()) by {
        assert forall|j: int, m: int|
            0 <= j < se.reverse@.len() && 0 <= m
                < se.reverse@[j].slots@.len() implies se.slot_has_token(
            #[trigger] se.reverse@[j].slots@[m],
            se.reverse@[j].token@,
        ) by {
            let x = se.reverse@[j].slots@[m];
            let t = se.reverse@[j].token@;
            if j < o.reverse@.len() {
                let b = o.reverse@[j].slots@;
                if tv.contains(t) && m == b.len() {
                    assert(x == s);
                    assert(se.forward@[n].slot == s);
                    assert(se.fwd_tokens(n) == tv);
                    assert(se.slot_has_token(x, t));
                } else {
                    assert(x == b[m]);
                    assert(o.slot_has_token(x, t));
                    let i2 = choose|i2: int|
                        0 <= i2 < o.forward@.len() && (#[trigger] o.forward@[i2]).slot == x
                            && o.fwd_tokens(i2).contains(t);
                    assert(se.forward@[i2] == o.forward@[i2]);
                    assert(se.fwd_tokens(i2) == o.fwd_tokens(i2));
                }
            } else {
                assert(se.reverse@[j].slots@ == seq![s]);
                assert(x == s);
                assert(se.fwd_tokens(n) == tv);
                assert(tv.contains(t));
            }
        }
    }
    assert(se.wf_reverse_complete()) by {
        assert forall|i: int, k: int|
            0 <= i < se.forward@.len() && 0 <= k
                < se.forward@[i].tokens@.len() implies se.reverse_has(
            se.forward@[i].slot,
            (#[trigger] se.forward@[i].tokens@[k])@,
        ) by {
            if i < n {
                assert(se.forward@[i] == o.forward@[i]);
                let t = o.forward@[i].tokens@[k]@;
                let x = o.forward@[i].slot;
                assert(o.reverse_has(x, t));
                assert(o.has_token_key(t));
                let j = o.reverse_index_of(t);
                assert(se.reverse@[j].token@ == t);
                assert(se.has_token_key(t));
                let j2 = se.reverse_index_of(t);
                assert(se.reverse@[j2].token@ == t);
                lemma_key_unique(se, j, j2);
                if tv.contains(t) {
                    assert(o.reverse@[j].slots@.push(s).contains(x)) by {
                        let m = choose|m: int|
                            0 <= m < o.reverse@[j].slots@.len() && o.reverse@[j].slots@[m] == x;
                        assert(o.reverse@[j].slots@.push(s)[m] == x);
                    }
                }
            } else {
                assert(se.forward@.last() == se.forward@[i]);
                let t = se.forward@[i].tokens@[k]@;
                assert(t == (se.forward@.last().tokens@[k])@);
                assert(se.has_token_key(t));
                let j2 = se.reverse_index_of(t);
                assert(se.reverse@[j2].token@ == t);
                assert(tv[k] == t);
                assert(tv.contains(t));
                assert(se.forward@[i].slot == s);
                if j2 < o.reverse@.len() {
                    assert(o.reverse@[j2].token@ == t);
                    assert(se.reverse@[j2].slots@ == o.reverse@[j2].slots@.push(s));
                    assert(se.reverse@[j2].slots@[o.reverse@[j2].slots@.len() as int] == s);
                    assert(se.reverse@[j2].slots@.contains(s));
                } else {
                    assert(se.reverse@[j2].slots@ == seq![s]);
                    assert(se.reverse@[j2].slots@[0] == s);
                    assert(se.reverse@[j2].slots@.contains(s));
                }
                assert(se.bucket_of(t) == se.reverse@[j2].slots@);
            }
        }
    }
    assert(se.wf_ids_unique()) by {
        if eq_faithful::<Id>() {
            lemma_id_match_neg(o.ids@, se.ids@.last().id);
            assert forall|a: int, b: int| 0 <= a < b < se.ids@.len() implies !(
            #[trigger] se.ids@[a]).id.eq_spec(&(#[trigger] se.ids@[b]).id) by {
                if b < se.ids@.len() - 1 {
                    assert(se.ids@[a] == o.ids@[a]);
                    assert(se.ids@[b] == o.ids@[b]);
                } else {
                    assert(se.ids@[a] == o.ids@[a]);
                    assert(se.ids@[b] == se.ids@.last());
                }
            }
        }
    }
}

/// Distinct reverse keys make the keyed index unique.
proof fn lemma_key_unique<Id: Eq + Clone>(se: SimSearch<Id>, j: int, j2: int)
    requires
        se.wf_reverse_shape(),
        0 <= j < se.reverse@.len(),
        0 <= j2 < se.reverse@.len(),
        se.reverse@[j].token@ == se.reverse@[j2].token@,
    ensures
        j == j2,
{
}

/// Pruning a pruned bucket changes nothing more.
proof fn lemma_double_filter(b: Seq<u64>, s: u64)
    ensures
        b.filter(|x: u64| x != s).filter(|x: u64| x != s) == b.filter(|x: u64| x != s),
{
    let once = b.filter(|x: u64| x != s);
    assert forall|n: int| 0 <= n < once.len() implies !(once[n] == s) by {
        b.lemma_filter_pred(|x: u64| x != s, n);
    }
    assert(!once.contains(s));
    lemma_filter_absent(once, s);
}

/// After removing entry `i` and filtering its slot `s` from every bucket,
/// the engine invariant holds again.
proof fn lemma_delete_wf<Id: Eq + Clone>(o: SimSearch<Id>, se: SimSearch<Id>, i: int, s: u64)
    requires
        o.wf(),
        0 <= i < o.forward@.len(),
        s == o.forward@[i].slot,
        se.option == o.option,
        se.slot_counter == o.slot_counter,
        se.ids@ == o.ids@.remove(i),
        se.forward@ == o.forward@.remove(i),
        se.reverse@.len() == o.reverse@.len(),
        forall|j: int|
            0 <= j < o.reverse@.len() ==> (#[trigger] se.reverse@[j]).token@
                == o.reverse@[j].token@,
        forall|j: int|
            0 <= j < o.reverse@.len() ==> (#[trigger] se.reverse@[j]).slots@
                == o.reverse@[j].slots@.filter(|x: u64| x != s),
    ensures
        se.wf(),
{
    let pred = |x: u64| x != s;
    assert forall|j: int| 0 <= j < se.reverse@.len() implies strictly_increasing(
        (#[trigger] se.reverse@[j]).slots@,
    ) by {
        lemma_filter_sorted(o.reverse@[j].slots@, s);
    }
    // soundness: bucket members still name live entries with the token
    assert forall|j: int, n: int|
        0 <= j < se.reverse@.len() && 0 <= n < se.reverse@[j].slots@.len() implies se.slot_has_token(
        #[trigger] se.reverse@[j].slots@[n],
        se.reverse@[j].token@,
    ) by {
        let x = se.reverse@[j].slots@[n];
        o.reverse@[j].slots@.lemma_filter_pred(pred, n);
        o.reverse@[j].slots@.lemma_filter_contains_rev(pred, x);
        let n0 = choose|n0: int|
            0 <= n0 < o.reverse@[j].slots@.len() && o.reverse@[j].slots@[n0] == x;
        assert(o.slot_has_token(x, o.reverse@[j].token@));
        let i2 = choose|i2: int|
            0 <= i2 < o.forward@.len() && (#[trigger] o.forward@[i2]).slot == x && o.fwd_tokens(
                i2,
            ).contains(o.reverse@[j].token@);
        assert(i2 != i);
        let i3: int = if i2 < i {
            i2
        } else {
            i2 - 1
        };
        assert(se.forward@[i3] == o.forward@[i2]);
        assert(se.fwd_tokens(i3).contains(se.reverse@[j].token@));
    }
    // completeness: every kept entry's tokens are still keyed with its slot
    assert forall|i3: int, k: int|
        0 <= i3 < se.forward@.len() && 0 <= k < se.forward@[i3].tokens@.len() implies se.reverse_has(
        se.forward@[i3].slot,
        (#[trigger] se.forward@[i3].tokens@[k])@,
    ) by {
        let i2: int = if i3 < i {
            i3
        } else {
            i3 + 1
        };
        assert(se.forward@[i3] == o.forward@[i2]);
        let t = o.forward@[i2].tokens@[k]@;
        let x = o.forward@[i2].slot;
        assert(o.reverse_has(x, t));
        let j = o.reverse_index_of(t);
        assert(o.has_token_key(t));
        assert(0 <= j < o.reverse@.len() && o.reverse@[j].token@ == t);
        assert(se.reverse@[j].token@ == t);
        assert(se.has_token_key(t));
        let j2 = se.reverse_index_of(t);
        assert(0 <= j2 < se.reverse@.len() && se.reverse@[j2].token@ == t);
        // keys are distinct, so both indexes are the same
        assert(o.reverse@[j2].token@ == t);
        if j != j2 {
            assert(false);
        }
        assert(x != s);
        o.reverse@[j].slots@.lemma_filter_contains(pred, choose|n0: int|
            0 <= n0 < o.reverse@[j].slots@.len() && o.reverse@[j].slots@[n0] == x);
    }
    assert(se.wf_bijection()) by {
        assert forall|w: int| 0 <= w < se.ids@.len() implies (#[trigger] se.ids@[w]).slot
            == se.forward@[w].slot by {
            if w < i {
                assert(se.ids@[w] == o.ids@[w]);
                assert(se.forward@[w] == o.forward@[w]);
            } else {
                assert(se.ids@[w] == o.ids@[w + 1]);
                assert(se.forward@[w] == o.forward@[w + 1]);
            }
        }
    }
    if eq_faithful::<Id>() {
        assert forall|a: int, b: int| 0 <= a < b < se.ids@.len() implies !(
        #[trigger] se.ids@[a]).id.eq_spec(&(#[trigger] se.ids@[b]).id) by {
            let a0: int = if a < i {
                a
            } else {
                a + 1
            };
            let b0: int = if b < i {
                b
            } else {
                b + 1
            };
            assert(se.ids@[a] == o.ids@[a0]);
            assert(se.ids@[b] == o.ids@[b0]);
        }
    }
}

} // verus!
