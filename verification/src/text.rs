//! Tokenization: turning raw text fragments into normalized tokens.
//!
//! A fragment is case folded (unless the engine is case sensitive), split on
//! Unicode whitespace (unless disabled), then split on every configured
//! stop-word substring in configuration order; empty pieces are discarded.
//! The same pipeline runs over indexed content and over queries, so the two
//! are normalized identically.
//!
//! Every splitting stage here drops empty pieces as it goes. An empty piece
//! can only ever yield empty pieces in later stages, so this is the same as
//! discarding empty strings once at the end.

use vstd::prelude::*;

use crate::options::SearchOptions;

verus! {

broadcast use vstd::string::to_string_from_display_ensures_for_str;

/// The sequence of views of a sequence of strings.
pub open spec fn views_of(ts: Seq<String>) -> Seq<Seq<char>> {
    ts.map_values(|t: String| t@)
}

/// The Unicode `White_Space` character set, the set `str::split_whitespace`
/// splits on.
pub open spec fn is_unicode_ws(c: char) -> bool {
    let u = c as u32;
    ||| u == 0x20
    ||| (0x09 <= u && u <= 0x0D)
    ||| u == 0x85
    ||| u == 0xA0
    ||| u == 0x1680
    ||| (0x2000 <= u && u <= 0x200A)
    ||| u == 0x2028
    ||| u == 0x2029
    ||| u == 0x202F
    ||| u == 0x205F
    ||| u == 0x3000
}

/// Whether `c` is a Unicode whitespace character.
pub fn char_is_whitespace(c: char) -> (r: bool)
    ensures
        r == is_unicode_ws(c),
{
    let u = c as u32;
    u == 0x20 || (0x09 <= u && u <= 0x0D) || u == 0x85 || u == 0xA0 || u == 0x1680 || (0x2000 <= u
        && u <= 0x200A) || u == 0x2028 || u == 0x2029 || u == 0x202F || u == 0x205F || u == 0x3000
}

/// The case folding of a character sequence, as `str::to_lowercase` computes
/// it. The folding depends on the characters alone.
pub uninterp spec fn lower_of(s: Seq<char>) -> Seq<char>;

/// Relies on str::to_lowercase: the returned string is the Unicode lowercase
/// mapping of the input, a function of the input characters alone; the
/// mapping of a character is never empty, so a nonempty string stays
/// nonempty, and the empty string stays empty.
#[verifier::external_body]
fn to_lowercase(s: &str) -> (r: String)
    ensures
        r@ == lower_of(s@),
        r@.len() == 0 <==> s@.len() == 0,
{
    s.to_lowercase()
}

/// Length of the leading run of non-whitespace characters of `s`.
pub open spec fn run_len(s: Seq<char>) -> nat
    decreases s.len(),
{
    if s.len() == 0 {
        0
    } else if is_unicode_ws(s[0]) {
        0
    } else {
        1 + run_len(s.skip(1))
    }
}

proof fn lemma_run_len_le(s: Seq<char>)
    ensures
        run_len(s) <= s.len(),
    decreases s.len(),
{
    if s.len() > 0 && !is_unicode_ws(s[0]) {
        lemma_run_len_le(s.skip(1));
    }
}

/// If the first `j` characters are not whitespace and the run stops at `j`
/// (a whitespace character or the end), the leading run has length `j`.
proof fn lemma_run_len_is(s: Seq<char>, j: int)
    requires
        0 <= j <= s.len(),
        forall|k: int| 0 <= k < j ==> !is_unicode_ws(s[k]),
        j == s.len() || is_unicode_ws(s[j]),
    ensures
        run_len(s) == j,
    decreases j,
{
    if j == 0 {
    } else {
        assert(!is_unicode_ws(s[0]));
        assert forall|k: int| 0 <= k < j - 1 implies !is_unicode_ws(s.skip(1)[k]) by {
            assert(s.skip(1)[k] == s[k + 1]);
        }
        if j < s.len() {
            assert(s.skip(1)[j - 1] == s[j]);
        }
        lemma_run_len_is(s.skip(1), j - 1);
    }
}

/// The whitespace-separated pieces of `s`: the maximal nonempty runs of
/// non-whitespace characters, in order.
pub open spec fn split_ws_spec(s: Seq<char>) -> Seq<Seq<char>>
    decreases s.len(),
    via split_ws_spec_dec
{
    if s.len() == 0 {
        Seq::empty()
    } else if is_unicode_ws(s[0]) {
        split_ws_spec(s.skip(1))
    } else {
        seq![s.take(run_len(s) as int)] + split_ws_spec(s.skip(run_len(s) as int))
    }
}

#[via_fn]
proof fn split_ws_spec_dec(s: Seq<char>) {
    lemma_run_len_le(s);
}

/// Every whitespace-separated piece is nonempty.
pub proof fn lemma_split_ws_pieces_nonempty(s: Seq<char>)
    ensures
        forall|i: int| 0 <= i < split_ws_spec(s).len() ==> split_ws_spec(s)[i].len() > 0,
    decreases s.len(),
{
    if s.len() == 0 {
    } else if is_unicode_ws(s[0]) {
        lemma_split_ws_pieces_nonempty(s.skip(1));
        assert(split_ws_spec(s) == split_ws_spec(s.skip(1)));
        assert forall|i: int| 0 <= i < split_ws_spec(s).len() implies split_ws_spec(s)[i].len()
            > 0 by {
            assert(split_ws_spec(s)[i] == split_ws_spec(s.skip(1))[i]);
        }
    } else {
        lemma_run_len_le(s);
        lemma_split_ws_pieces_nonempty(s.skip(run_len(s) as int));
        assert(run_len(s) >= 1);
        assert forall|i: int| 0 <= i < split_ws_spec(s).len() implies split_ws_spec(s)[i].len()
            > 0 by {
            if i > 0 {
                assert(split_ws_spec(s)[i] == split_ws_spec(s.skip(run_len(s) as int))[i - 1]);
            }
        }
    }
}

/// Splits `s` on Unicode whitespace, dropping empty pieces.
pub(crate) fn split_ws(s: &str) -> (r: Vec<String>)
    ensures
        views_of(r@) == split_ws_spec(s@),
{
    let n = s.unicode_len();
    let mut out: Vec<String> = Vec::new();
    let mut st: usize = 0;
    let mut i: usize = 0;
    proof {
        assert(s@.skip(0) =~= s@);
        assert(views_of(out@) + split_ws_spec(s@) =~= split_ws_spec(s@));
    }
    while i < n
        invariant
            st <= i <= n,
            n == s@.len(),
            views_of(out@) + split_ws_spec(s@.skip(st as int)) == split_ws_spec(s@),
            forall|k: int| st <= k < i ==> !is_unicode_ws(s@[k]),
        decreases n - i,
    {
        let c = s.get_char(i);
        if char_is_whitespace(c) {
            let ghost u = s@.skip(st as int);
            proof {
                assert(s@.skip(i as int).skip(1) =~= s@.skip(i + 1));
                assert(s@.skip(i as int)[0] == s@[i as int]);
            }
            if st < i {
                let piece = s.substring_char(st, i).to_string();
                proof {
                    assert forall|k: int| 0 <= k < i - st implies !is_unicode_ws(u[k]) by {
                        assert(u[k] == s@[k + st]);
                    }
                    assert(u[i - st] == s@[i as int]);
                    lemma_run_len_is(u, i - st);
                    assert(u.take(i - st) =~= s@.subrange(st as int, i as int));
                    assert(u.skip(i - st) =~= s@.skip(i as int));
                    assert(u.len() > 0 && !is_unicode_ws(u[0]));
                    assert(split_ws_spec(u) == seq![u.take(run_len(u) as int)] + split_ws_spec(
                        u.skip(run_len(u) as int),
                    ));
                    assert(split_ws_spec(s@.skip(i as int)) == split_ws_spec(s@.skip(i + 1)));
                    assert(split_ws_spec(u) == seq![s@.subrange(st as int, i as int)]
                        + split_ws_spec(s@.skip(i + 1)));
                    assert(views_of(out@.push(piece)) =~= views_of(out@).push(piece@));
                    assert(views_of(out@.push(piece)) + split_ws_spec(s@.skip(i + 1)) =~= views_of(
                        out@,
                    ) + split_ws_spec(u));
                }
                out.push(piece);
            } else {
                proof {
                    assert(u == s@.skip(i as int));
                }
            }
            st = i + 1;
        }
        i += 1;
    }
    if st < n {
        let ghost u = s@.skip(st as int);
        let piece = s.substring_char(st, n).to_string();
        proof {
            assert forall|k: int| 0 <= k < n - st implies !is_unicode_ws(u[k]) by {
                assert(u[k] == s@[k + st]);
            }
            lemma_run_len_is(u, n - st);
            assert(u.take(n - st) =~= s@.subrange(st as int, n as int));
            assert(u.skip(n - st) =~= Seq::<char>::empty());
            assert(split_ws_spec(Seq::<char>::empty()) == Seq::<Seq<char>>::empty());
            assert(split_ws_spec(u) =~= seq![s@.subrange(st as int, n as int)]);
            assert(views_of(out@.push(piece)) =~= views_of(out@).push(piece@));
            assert(views_of(out@.push(piece)) =~= views_of(out@) + split_ws_spec(u));
        }
        out.push(piece);
    } else {
        proof {
            assert(s@.skip(st as int) =~= Seq::<char>::empty());
            assert(views_of(out@) + split_ws_spec(s@.skip(st as int)) =~= views_of(out@));
        }
    }
    out
}

/// Whether `sep` occurs in `s` at position `i`.
pub open spec fn is_match_at(s: Seq<char>, sep: Seq<char>, i: int) -> bool {
    0 <= i && i + sep.len() <= s.len() && s.subrange(i, i + sep.len()) == sep
}

/// Index of the leftmost occurrence of `sep` in `s`, or -1 when there is
/// none.
pub open spec fn first_match(s: Seq<char>, sep: Seq<char>) -> int
    decreases s.len(),
{
    if is_match_at(s, sep, 0) {
        0
    } else if s.len() == 0 {
        -1
    } else {
        let r = first_match(s.skip(1), sep);
        if r < 0 {
            -1
        } else {
            1 + r
        }
    }
}

/// An occurrence in a suffix of `s` is an occurrence in `s`, shifted.
proof fn lemma_match_skip(s: Seq<char>, sep: Seq<char>, d: int, k: int)
    requires
        0 <= d <= s.len(),
        0 <= k,
    ensures
        is_match_at(s.skip(d), sep, k) <==> is_match_at(s, sep, d + k),
{
    if k + sep.len() <= s.len() - d {
        assert(s.skip(d).subrange(k, k + sep.len()) =~= s.subrange(d + k, d + k + sep.len()));
    }
}

/// What `first_match` finds is the leftmost occurrence; -1 means none.
proof fn lemma_first_match_props(s: Seq<char>, sep: Seq<char>)
    requires
        sep.len() > 0,
    ensures
        first_match(s, sep) >= 0 ==> is_match_at(s, sep, first_match(s, sep)),
        first_match(s, sep) >= 0 ==> forall|k: int|
            0 <= k < first_match(s, sep) ==> !is_match_at(s, sep, k),
        first_match(s, sep) < 0 ==> forall|k: int| !is_match_at(s, sep, k),
    decreases s.len(),
{
    if !is_match_at(s, sep, 0) && s.len() > 0 {
        lemma_first_match_props(s.skip(1), sep);
        let r = first_match(s.skip(1), sep);
        if r >= 0 {
            lemma_match_skip(s, sep, 1, r);
            assert forall|k: int| 0 <= k < first_match(s, sep) implies !is_match_at(
                s,
                sep,
                k,
            ) by {
                if k >= 1 {
                    lemma_match_skip(s, sep, 1, k - 1);
                }
            }
        } else {
            assert forall|k: int| !is_match_at(s, sep, k) by {
                if k >= 1 {
                    lemma_match_skip(s, sep, 1, k - 1);
                }
            }
        }
    }
}

/// If `sep` occurs at `j` and nowhere earlier, `first_match` returns `j`.
proof fn lemma_first_match_is(s: Seq<char>, sep: Seq<char>, j: int)
    requires
        sep.len() > 0,
        is_match_at(s, sep, j),
        forall|k: int| 0 <= k < j ==> !is_match_at(s, sep, k),
    ensures
        first_match(s, sep) == j,
    decreases j,
{
    if j > 0 {
        assert(!is_match_at(s, sep, 0));
        lemma_match_skip(s, sep, 1, j - 1);
        assert forall|k: int| 0 <= k < j - 1 implies !is_match_at(s.skip(1), sep, k) by {
            lemma_match_skip(s, sep, 1, k);
        }
        lemma_first_match_is(s.skip(1), sep, j - 1);
    }
}

/// If `sep` occurs nowhere in `s`, `first_match` returns -1.
proof fn lemma_first_match_none(s: Seq<char>, sep: Seq<char>)
    requires
        sep.len() > 0,
        forall|k: int| !is_match_at(s, sep, k),
    ensures
        first_match(s, sep) < 0,
    decreases s.len(),
{
    if s.len() > 0 {
        assert forall|k: int| !is_match_at(s.skip(1), sep, k) by {
            if k >= 0 {
                lemma_match_skip(s, sep, 1, k);
            }
        }
        lemma_first_match_none(s.skip(1), sep);
    }
}

/// The pieces of `s` between leftmost, non-overlapping occurrences of `sep`,
/// empty pieces dropped. An empty `sep` occurs between any two characters,
/// so it cuts `s` into single-character pieces.
pub open spec fn split_sub_spec(s: Seq<char>, sep: Seq<char>) -> Seq<Seq<char>>
    decreases s.len(),
    via split_sub_spec_dec
{
    if sep.len() == 0 {
        Seq::new(s.len(), |i: int| seq![s[i]])
    } else {
        let m = first_match(s, sep);
        if m < 0 {
            if s.len() > 0 {
                seq![s]
            } else {
                Seq::empty()
            }
        } else {
            let rest = split_sub_spec(s.skip(m + sep.len() as int), sep);
            if m > 0 {
                seq![s.take(m)] + rest
            } else {
                rest
            }
        }
    }
}

#[via_fn]
proof fn split_sub_spec_dec(s: Seq<char>, sep: Seq<char>) {
    if sep.len() > 0 {
        lemma_first_match_props(s, sep);
    }
}

/// Every piece of a stop-word split is nonempty.
pub proof fn lemma_split_sub_pieces_nonempty(s: Seq<char>, sep: Seq<char>)
    ensures
        forall|i: int|
            0 <= i < split_sub_spec(s, sep).len() ==> split_sub_spec(s, sep)[i].len() > 0,
    decreases s.len(),
{
    if sep.len() == 0 {
    } else {
        let m = first_match(s, sep);
        lemma_first_match_props(s, sep);
        if m >= 0 {
            lemma_split_sub_pieces_nonempty(s.skip(m + sep.len() as int), sep);
            let rest = split_sub_spec(s.skip(m + sep.len() as int), sep);
            assert forall|i: int|
                0 <= i < split_sub_spec(s, sep).len() implies split_sub_spec(s, sep)[i].len()
                > 0 by {
                if m > 0 && i > 0 {
                    assert(split_sub_spec(s, sep)[i] == rest[i - 1]);
                } else if m == 0 {
                    assert(split_sub_spec(s, sep)[i] == rest[i]);
                }
            }
        }
    }
}

/// Whether `sep` occurs in `s` at character position `i`.
fn match_at(s: &str, n: usize, sep: &str, m: usize, i: usize) -> (r: bool)
    requires
        n == s@.len(),
        m == sep@.len(),
        i + m <= n,
    ensures
        r == is_match_at(s@, sep@, i as int),
{
    let mut j: usize = 0;
    while j < m
        invariant
            j <= m,
            i + m <= n,
            n == s@.len(),
            m == sep@.len(),
            forall|k: int| 0 <= k < j ==> s@[i + k] == sep@[k],
        decreases m - j,
    {
        if s.get_char(i + j) != sep.get_char(j) {
            proof {
                assert(s@.subrange(i as int, i + m as int)[j as int] == s@[i + j]);
            }
            return false;
        }
        j += 1;
    }
    proof {
        assert(s@.subrange(i as int, i + m as int) =~= sep@);
    }
    true
}

/// Splits `s` on every occurrence of the stop word `sep`, dropping the stop
/// word itself and empty pieces.
pub(crate) fn split_on_stop_word(s: &str, sep: &str) -> (r: Vec<String>)
    ensures
        views_of(r@) == split_sub_spec(s@, sep@),
{
    let n = s.unicode_len();
    let m = sep.unicode_len();
    let mut out: Vec<String> = Vec::new();
    if m == 0 {
        let mut i: usize = 0;
        while i < n
            invariant
                i <= n,
                n == s@.len(),
                views_of(out@) =~= Seq::new(i as nat, |k: int| seq![s@[k]]),
            decreases n - i,
        {
            let piece = s.substring_char(i, i + 1).to_string();
            proof {
                assert(s@.subrange(i as int, i + 1) =~= seq![s@[i as int]]);
                assert(views_of(out@.push(piece)) =~= views_of(out@).push(piece@));
            }
            out.push(piece);
            i += 1;
        }
        proof {
            assert(views_of(out@) =~= split_sub_spec(s@, sep@));
        }
        return out;
    }
    let mut st: usize = 0;
    let mut i: usize = 0;
    proof {
        assert(s@.skip(0) =~= s@);
        assert(views_of(out@) + split_sub_spec(s@, sep@) =~= split_sub_spec(s@, sep@));
    }
    while m <= n && i <= n - m
        invariant
            st <= i <= n,
            n == s@.len(),
            m == sep@.len(),
            m >= 1,
            views_of(out@) + split_sub_spec(s@.skip(st as int), sep@) == split_sub_spec(s@, sep@),
            forall|k: int| st <= k < i ==> !is_match_at(s@, sep@, k),
        decreases n - i,
    {
        if match_at(s, n, sep, m, i) {
            let ghost u = s@.skip(st as int);
            proof {
                lemma_match_skip(s@, sep@, st as int, i - st);
                assert forall|k: int| 0 <= k < i - st implies !is_match_at(u, sep@, k) by {
                    lemma_match_skip(s@, sep@, st as int, k);
                }
                lemma_first_match_is(u, sep@, i - st);
                assert(u.skip(i - st + m) =~= s@.skip(i + m));
                assert(u.take(i - st) =~= s@.subrange(st as int, i as int));
            }
            if st < i {
                let piece = s.substring_char(st, i).to_string();
                proof {
                    assert(views_of(out@.push(piece)) =~= views_of(out@).push(piece@));
                    assert(views_of(out@.push(piece)) + split_sub_spec(s@.skip(i + m), sep@)
                        =~= views_of(out@) + split_sub_spec(u, sep@));
                }
                out.push(piece);
            }
            st = i + m;
            i = st;
        } else {
            i += 1;
        }
    }
    let ghost u = s@.skip(st as int);
    proof {
        assert forall|k: int| !is_match_at(u, sep@, k) by {
            if 0 <= k {
                lemma_match_skip(s@, sep@, st as int, k);
                if st + k < i {
                } else {
                    assert(st + k + sep@.len() > n);
                }
            }
        }
        lemma_first_match_none(u, sep@);
        assert(u =~= s@.subrange(st as int, n as int));
    }
    if st < n {
        let piece = s.substring_char(st, n).to_string();
        proof {
            assert(split_sub_spec(u, sep@) == seq![u]);
            assert(views_of(out@.push(piece)) =~= views_of(out@).push(piece@));
            assert(views_of(out@.push(piece)) =~= views_of(out@) + split_sub_spec(u, sep@));
        }
        out.push(piece);
    } else {
        proof {
            assert(split_sub_spec(u, sep@) =~= Seq::<Seq<char>>::empty());
            assert(views_of(out@) + split_sub_spec(u, sep@) =~= views_of(out@));
        }
    }
    out
}

/// `ts` with every repeated view dropped: the first occurrence of each view
/// is kept, in order.
pub open spec fn dedup_spec(ts: Seq<Seq<char>>) -> Seq<Seq<char>>
    decreases ts.len(),
{
    if ts.len() == 0 {
        Seq::empty()
    } else {
        let prev = dedup_spec(ts.drop_last());
        if prev.contains(ts.last()) {
            prev
        } else {
            prev.push(ts.last())
        }
    }
}

/// Deduplication keeps exactly the views of the input.
pub proof fn lemma_dedup_contains(ts: Seq<Seq<char>>, x: Seq<char>)
    ensures
        dedup_spec(ts).contains(x) <==> ts.contains(x),
    decreases ts.len(),
{
    if ts.len() > 0 {
        lemma_dedup_contains(ts.drop_last(), x);
        let prev = dedup_spec(ts.drop_last());
        if ts.contains(x) {
            let i = choose|i: int| 0 <= i < ts.len() && ts[i] == x;
            if i < ts.len() - 1 {
                assert(ts.drop_last()[i] == x);
                let j = choose|j: int| 0 <= j < prev.len() && prev[j] == x;
                assert(dedup_spec(ts)[j] == x);
            } else {
                if prev.contains(ts.last()) {
                    assert(dedup_spec(ts) == prev);
                } else {
                    assert(dedup_spec(ts).last() == x);
                }
            }
        }
        if dedup_spec(ts).contains(x) {
            let j = choose|j: int| 0 <= j < dedup_spec(ts).len() && dedup_spec(ts)[j] == x;
            if prev.contains(ts.last()) || j < prev.len() {
                assert(prev[j] == x);
                let i = choose|i: int| 0 <= i < ts.drop_last().len() && ts.drop_last()[i] == x;
                assert(ts[i] == x);
            } else {
                assert(ts.last() == x);
            }
        }
    }
}

/// Deduplication leaves no view twice.
pub proof fn lemma_dedup_distinct(ts: Seq<Seq<char>>)
    ensures
        forall|i: int, j: int|
            0 <= i < j < dedup_spec(ts).len() ==> dedup_spec(ts)[i] != dedup_spec(ts)[j],
    decreases ts.len(),
{
    if ts.len() > 0 {
        lemma_dedup_distinct(ts.drop_last());
        let prev = dedup_spec(ts.drop_last());
        if !prev.contains(ts.last()) {
            assert forall|i: int, j: int|
                0 <= i < j < dedup_spec(ts).len() implies dedup_spec(ts)[i] != dedup_spec(
                ts,
            )[j] by {
                if j == dedup_spec(ts).len() - 1 {
                    assert(prev.contains(prev[i]));
                }
            }
        }
    }
}

/// Whether some string in `ts` has view `v`.
fn contains_view(ts: &Vec<String>, v: &String) -> (r: bool)
    ensures
        r == views_of(ts@).contains(v@),
{
    let mut i: usize = 0;
    while i < ts.len()
        invariant
            i <= ts@.len(),
            forall|k: int| 0 <= k < i ==> ts@[k]@ != v@,
        decreases ts@.len() - i,
    {
        if ts[i] == *v {
            assert(views_of(ts@)[i as int] == ts@[i as int]@);
            return true;
        }
        i += 1;
    }
    assert forall|k: int| 0 <= k < views_of(ts@).len() implies views_of(ts@)[k] != v@ by {
        assert(views_of(ts@)[k] == ts@[k]@);
    }
    false
}

/// Drops every token equal (as text) to an earlier one, keeping first
/// occurrences in order.
pub(crate) fn dedup_tokens(ts: Vec<String>) -> (r: Vec<String>)
    ensures
        views_of(r@) == dedup_spec(views_of(ts@)),
{
    let mut out: Vec<String> = Vec::new();
    let mut i: usize = 0;
    while i < ts.len()
        invariant
            i <= ts@.len(),
            views_of(out@) == dedup_spec(views_of(ts@).take(i as int)),
        decreases ts@.len() - i,
    {
        proof {
            assert(views_of(ts@).take(i + 1).drop_last() =~= views_of(ts@).take(i as int));
            assert(views_of(ts@).take(i + 1).last() == ts@[i as int]@);
        }
        if !contains_view(&out, &ts[i]) {
            let t = ts[i].clone();
            let ghost old_out = out@;
            out.push(t);
            proof {
                assert(views_of(out@) =~= views_of(old_out).push(ts@[i as int]@));
            }
        }
        i += 1;
    }
    proof {
        assert(views_of(ts@).take(ts@.len() as int) =~= views_of(ts@));
    }
    out
}

/// Fragment views after optional case folding.
pub open spec fn fold_stage(opt: SearchOptions, frags: Seq<Seq<char>>) -> Seq<Seq<char>> {
    if opt.case_sensitive {
        frags
    } else {
        frags.map_values(|f: Seq<char>| lower_of(f))
    }
}

/// Tokens after the whitespace stage: each fragment split on whitespace, or
/// merely stripped of empty fragments when whitespace splitting is off.
pub open spec fn ws_stage(opt: SearchOptions, ts: Seq<Seq<char>>) -> Seq<Seq<char>> {
    if opt.stop_whitespace {
        ts.flat_map(|t: Seq<char>| split_ws_spec(t))
    } else {
        ts.filter(|t: Seq<char>| t.len() > 0)
    }
}

/// Tokens after splitting on each stop word, in configuration order.
pub open spec fn stop_stage(ts: Seq<Seq<char>>, sws: Seq<Seq<char>>) -> Seq<Seq<char>>
    decreases sws.len(),
{
    if sws.len() == 0 {
        ts
    } else {
        stop_stage(ts, sws.drop_last()).flat_map(|t: Seq<char>| split_sub_spec(t, sws.last()))
    }
}

/// The whole tokenization pipeline, over fragment views: case folding, the
/// whitespace stage, then one stop-word stage per configured stop word.
pub open spec fn tokenize_spec(opt: SearchOptions, frags: Seq<Seq<char>>) -> Seq<Seq<char>> {
    stop_stage(ws_stage(opt, fold_stage(opt, frags)), views_of(opt.stop_words@))
}

/// Flat-mapping `f` over `ts` yields only pieces satisfying `pred` when `f`
/// does.
proof fn lemma_flat_map_all(
    ts: Seq<Seq<char>>,
    f: spec_fn(Seq<char>) -> Seq<Seq<char>>,
    pred: spec_fn(Seq<char>) -> bool,
)
    requires
        forall|k: int, i: int| #![trigger f(ts[k])[i]]
            0 <= k < ts.len() && 0 <= i < f(ts[k]).len() ==> pred(f(ts[k])[i]),
    ensures
        forall|i: int| 0 <= i < ts.flat_map(f).len() ==> pred(#[trigger] ts.flat_map(f)[i]),
    decreases ts.len(),
{
    if ts.len() > 0 {
        assert forall|k: int, i: int| #![trigger f(ts.drop_last()[k])[i]]
            0 <= k < ts.drop_last().len() && 0 <= i < f(ts.drop_last()[k]).len() implies pred(
            f(ts.drop_last()[k])[i],
        ) by {
            assert(ts.drop_last()[k] == ts[k]);
        }
        lemma_flat_map_all(ts.drop_last(), f, pred);
        ts.drop_last().lemma_flat_map_push(f, ts.last());
        assert(ts.drop_last().push(ts.last()) =~= ts);
        let prev = ts.drop_last().flat_map(f);
        assert forall|i: int| 0 <= i < ts.flat_map(f).len() implies pred(
            #[trigger] ts.flat_map(f)[i],
        ) by {
            if i < prev.len() {
                assert(ts.flat_map(f)[i] == prev[i]);
            } else {
                assert(ts.flat_map(f)[i] == f(ts.last())[i - prev.len()]);
                assert(ts[ts.len() - 1] == ts.last());
            }
        }
    }
}

/// Every token the stop-word stages produce is nonempty, provided every
/// incoming token is.
proof fn lemma_stop_stage_nonempty(ts: Seq<Seq<char>>, sws: Seq<Seq<char>>)
    requires
        forall|i: int| 0 <= i < ts.len() ==> ts[i].len() > 0,
    ensures
        forall|i: int| 0 <= i < stop_stage(ts, sws).len() ==> stop_stage(ts, sws)[i].len() > 0,
    decreases sws.len(),
{
    if sws.len() > 0 {
        lemma_stop_stage_nonempty(ts, sws.drop_last());
        let prev = stop_stage(ts, sws.drop_last());
        let f = |t: Seq<char>| split_sub_spec(t, sws.last());
        assert forall|k: int, i: int| #![trigger f(prev[k])[i]]
            0 <= k < prev.len() && 0 <= i < f(prev[k]).len() implies f(prev[k])[i].len() > 0 by {
            lemma_split_sub_pieces_nonempty(prev[k], sws.last());
        }
        lemma_flat_map_all(prev, f, |t: Seq<char>| t.len() > 0);
    }
}


/// Whether a token holds no whitespace character.
pub open spec fn whitespace_free(t: Seq<char>) -> bool {
    forall|k: int| 0 <= k < t.len() ==> !is_unicode_ws(#[trigger] t[k])
}

/// Whether a token holds no occurrence of `sep`.
pub open spec fn free_of(t: Seq<char>, sep: Seq<char>) -> bool {
    forall|p: int| !is_match_at(t, sep, p)
}

/// The leading non-whitespace run holds no whitespace.
proof fn lemma_run_prefix_nonws(s: Seq<char>)
    ensures
        forall|k: int| 0 <= k < run_len(s) ==> !is_unicode_ws(#[trigger] s[k]),
    decreases s.len(),
{
    if s.len() > 0 && !is_unicode_ws(s[0]) {
        lemma_run_len_le(s);
        lemma_run_len_le(s.skip(1));
        lemma_run_prefix_nonws(s.skip(1));
        assert forall|k: int| 0 <= k < run_len(s) implies !is_unicode_ws(#[trigger] s[k]) by {
            if k > 0 {
                assert(s.skip(1)[k - 1] == s[k]);
            }
        }
    }
}

/// Every whitespace-separated piece holds no whitespace.
proof fn lemma_split_ws_pieces_nonws(s: Seq<char>)
    ensures
        forall|i: int|
            0 <= i < split_ws_spec(s).len() ==> whitespace_free(#[trigger] split_ws_spec(s)[i]),
    decreases s.len(),
{
    if s.len() == 0 {
    } else if is_unicode_ws(s[0]) {
        lemma_split_ws_pieces_nonws(s.skip(1));
        assert(split_ws_spec(s) == split_ws_spec(s.skip(1)));
        assert forall|i: int| 0 <= i < split_ws_spec(s).len() implies whitespace_free(
            #[trigger] split_ws_spec(s)[i],
        ) by {
            assert(split_ws_spec(s)[i] == split_ws_spec(s.skip(1))[i]);
        }
    } else {
        lemma_run_len_le(s);
        lemma_run_prefix_nonws(s);
        lemma_split_ws_pieces_nonws(s.skip(run_len(s) as int));
        assert forall|i: int| 0 <= i < split_ws_spec(s).len() implies whitespace_free(
            #[trigger] split_ws_spec(s)[i],
        ) by {
            if i > 0 {
                assert(split_ws_spec(s)[i] == split_ws_spec(s.skip(run_len(s) as int))[i - 1]);
            } else {
                let piece = s.take(run_len(s) as int);
                assert forall|k: int| 0 <= k < piece.len() implies !is_unicode_ws(
                    #[trigger] piece[k],
                ) by {
                    assert(piece[k] == s[k]);
                }
            }
        }
    }
}

/// Every stop-word piece is a contiguous part of the input, so pieces
/// inherit any token property that contiguous parts inherit.
proof fn lemma_split_sub_pieces_pred(s: Seq<char>, sep: Seq<char>, pred: spec_fn(Seq<char>) -> bool)
    requires
        forall|t: Seq<char>, a: int, b: int|
            pred(t) && 0 <= a <= b <= t.len() ==> pred(#[trigger] t.subrange(a, b)),
        pred(s),
    ensures
        forall|i: int|
            0 <= i < split_sub_spec(s, sep).len() ==> pred(#[trigger] split_sub_spec(s, sep)[i]),
    decreases s.len(),
{
    if sep.len() == 0 {
        assert forall|i: int| 0 <= i < split_sub_spec(s, sep).len() implies pred(
            #[trigger] split_sub_spec(s, sep)[i],
        ) by {
            assert(split_sub_spec(s, sep)[i] =~= s.subrange(i, i + 1));
        }
    } else {
        let m = first_match(s, sep);
        lemma_first_match_props(s, sep);
        if m >= 0 {
            let tail = s.skip(m + sep.len() as int);
            assert(tail =~= s.subrange(m + sep.len(), s.len() as int));
            lemma_split_sub_pieces_pred(tail, sep, pred);
            let rest = split_sub_spec(tail, sep);
            let head: int = if m > 0 {
                1
            } else {
                0
            };
            assert forall|i: int| 0 <= i < split_sub_spec(s, sep).len() implies pred(
                #[trigger] split_sub_spec(s, sep)[i],
            ) by {
                if m > 0 && i == 0 {
                    assert(split_sub_spec(s, sep)[0] =~= s.subrange(0, m));
                } else {
                    assert(split_sub_spec(s, sep)[i] == rest[i - head]);
                }
            }
        }
    }
}

/// An occurrence inside a contiguous part is an occurrence in the whole.
proof fn lemma_subrange_match(s: Seq<char>, a: int, b: int, sep: Seq<char>, p: int)
    requires
        0 <= a <= b <= s.len(),
        is_match_at(s.subrange(a, b), sep, p),
    ensures
        is_match_at(s, sep, a + p),
{
    assert(s.subrange(a, b).subrange(p, p + sep.len()) =~= s.subrange(a + p, a + p + sep.len()));
}

/// No piece of a stop-word split holds the stop word itself.
proof fn lemma_split_sub_pieces_free(s: Seq<char>, sep: Seq<char>)
    requires
        sep.len() > 0,
    ensures
        forall|i: int|
            0 <= i < split_sub_spec(s, sep).len() ==> free_of(#[trigger] split_sub_spec(s, sep)[i], sep),
    decreases s.len(),
{
    let m = first_match(s, sep);
    lemma_first_match_props(s, sep);
    if m < 0 {
        if s.len() > 0 {
            assert(split_sub_spec(s, sep)[0] == s);
        }
    } else {
        let tail = s.skip(m + sep.len() as int);
        lemma_split_sub_pieces_free(tail, sep);
        let rest = split_sub_spec(tail, sep);
        let head: int = if m > 0 {
            1
        } else {
            0
        };
        assert forall|i: int| 0 <= i < split_sub_spec(s, sep).len() implies free_of(
            #[trigger] split_sub_spec(s, sep)[i],
            sep,
        ) by {
            if m > 0 && i == 0 {
                let piece = s.take(m);
                assert(split_sub_spec(s, sep)[0] == piece);
                assert forall|p: int| !is_match_at(piece, sep, p) by {
                    if is_match_at(piece, sep, p) {
                        // an occurrence inside the head piece would be an
                        // earlier occurrence in the whole string
                        assert(piece =~= s.subrange(0, m));
                        lemma_subrange_match(s, 0, m, sep, p);
                        assert(p + sep.len() <= m);
                    }
                }
            } else {
                assert(split_sub_spec(s, sep)[i] == rest[i - head]);
            }
        }
    }
}

/// The stop-word stages keep any token property that contiguous parts
/// inherit.
proof fn lemma_stop_stage_preserves(
    ts: Seq<Seq<char>>,
    sws: Seq<Seq<char>>,
    pred: spec_fn(Seq<char>) -> bool,
)
    requires
        forall|t: Seq<char>, a: int, b: int|
            pred(t) && 0 <= a <= b <= t.len() ==> pred(#[trigger] t.subrange(a, b)),
        forall|i: int| 0 <= i < ts.len() ==> pred(#[trigger] ts[i]),
    ensures
        forall|i: int| 0 <= i < stop_stage(ts, sws).len() ==> pred(#[trigger] stop_stage(ts, sws)[i]),
    decreases sws.len(),
{
    if sws.len() > 0 {
        lemma_stop_stage_preserves(ts, sws.drop_last(), pred);
        let prev = stop_stage(ts, sws.drop_last());
        let f = |t: Seq<char>| split_sub_spec(t, sws.last());
        assert forall|k: int, i: int| #![trigger f(prev[k])[i]]
            0 <= k < prev.len() && 0 <= i < f(prev[k]).len() implies pred(f(prev[k])[i]) by {
            lemma_split_sub_pieces_pred(prev[k], sws.last(), pred);
        }
        lemma_flat_map_all(prev, f, pred);
    }
}

/// After the stage for stop word `w` every token is free of it, and the
/// later stages, which only cut tokens into contiguous parts, keep it so.
proof fn lemma_stop_stage_free(ts: Seq<Seq<char>>, sws: Seq<Seq<char>>, w: int)
    requires
        0 <= w < sws.len(),
        sws[w].len() > 0,
    ensures
        forall|i: int|
            0 <= i < stop_stage(ts, sws).len() ==> free_of(#[trigger] stop_stage(ts, sws)[i], sws[w]),
    decreases sws.len(),
{
    let prev = stop_stage(ts, sws.drop_last());
    let f = |t: Seq<char>| split_sub_spec(t, sws.last());
    let pred = |t: Seq<char>| free_of(t, sws[w]);
    if w == sws.len() - 1 {
        assert(sws.last() == sws[w]);
        assert forall|k: int, i: int| #![trigger f(prev[k])[i]]
            0 <= k < prev.len() && 0 <= i < f(prev[k]).len() implies pred(f(prev[k])[i]) by {
            lemma_split_sub_pieces_free(prev[k], sws.last());
        }
        lemma_flat_map_all(prev, f, pred);
    } else {
        assert(sws.drop_last()[w] == sws[w]);
        lemma_stop_stage_free(ts, sws.drop_last(), w);
        // being free of a stop word is inherited by contiguous parts
        assert forall|t: Seq<char>, a: int, b: int|
            pred(t) && 0 <= a <= b <= t.len() implies pred(#[trigger] t.subrange(a, b)) by {
            assert forall|p: int| !(#[trigger] is_match_at(t.subrange(a, b), sws[w], p)) by {
                if is_match_at(t.subrange(a, b), sws[w], p) {
                    lemma_subrange_match(t, a, b, sws[w], p);
                }
            }
        }
        assert forall|k: int, i: int| #![trigger f(prev[k])[i]]
            0 <= k < prev.len() && 0 <= i < f(prev[k]).len() implies pred(f(prev[k])[i]) by {
            assert(free_of(prev[k], sws[w]));
            lemma_split_sub_pieces_pred(prev[k], sws.last(), pred);
        }
        lemma_flat_map_all(prev, f, pred);
    }
}

/// When whitespace splitting is on, no produced token holds a whitespace
/// character: whitespace only ever separates tokens.
pub proof fn lemma_tokenize_whitespace_free(opt: SearchOptions, frags: Seq<Seq<char>>)
    requires
        opt.stop_whitespace,
    ensures
        forall|i: int|
            0 <= i < tokenize_spec(opt, frags).len() ==> whitespace_free(
                #[trigger] tokenize_spec(opt, frags)[i],
            ),
{
    let folded = fold_stage(opt, frags);
    let ws = ws_stage(opt, folded);
    let f = |t: Seq<char>| split_ws_spec(t);
    let pred = |t: Seq<char>| whitespace_free(t);
    assert forall|k: int, i: int| #![trigger f(folded[k])[i]]
        0 <= k < folded.len() && 0 <= i < f(folded[k]).len() implies pred(f(folded[k])[i]) by {
        lemma_split_ws_pieces_nonws(folded[k]);
    }
    lemma_flat_map_all(folded, f, pred);
    assert forall|t: Seq<char>, a: int, b: int|
        pred(t) && 0 <= a <= b <= t.len() implies pred(#[trigger] t.subrange(a, b)) by {
        assert forall|k: int| 0 <= k < t.subrange(a, b).len() implies !is_unicode_ws(
            #[trigger] t.subrange(a, b)[k],
        ) by {
            assert(t.subrange(a, b)[k] == t[a + k]);
        }
    }
    lemma_stop_stage_preserves(ws, views_of(opt.stop_words@), pred);
}

/// No produced token holds a configured, nonempty stop word: the stop words
/// only ever separate tokens.
pub proof fn lemma_tokenize_stop_word_free(opt: SearchOptions, frags: Seq<Seq<char>>, w: int)
    requires
        0 <= w < opt.stop_words@.len(),
        opt.stop_words@[w]@.len() > 0,
    ensures
        forall|i: int|
            0 <= i < tokenize_spec(opt, frags).len() ==> free_of(
                #[trigger] tokenize_spec(opt, frags)[i],
                opt.stop_words@[w]@,
            ),
{
    let ws = ws_stage(opt, fold_stage(opt, frags));
    let sws = views_of(opt.stop_words@);
    assert(sws[w] == opt.stop_words@[w]@);
    lemma_stop_stage_free(ws, sws, w);
}

/// Every token of the pipeline is nonempty.
pub proof fn lemma_tokenize_nonempty(opt: SearchOptions, frags: Seq<Seq<char>>)
    ensures
        forall|i: int|
            0 <= i < tokenize_spec(opt, frags).len() ==> tokenize_spec(opt, frags)[i].len() > 0,
{
    broadcast use vstd::seq_lib::group_seq_properties;

    let folded = fold_stage(opt, frags);
    let ws = ws_stage(opt, folded);
    if opt.stop_whitespace {
        let f = |t: Seq<char>| split_ws_spec(t);
        assert forall|k: int, i: int| #![trigger f(folded[k])[i]]
            0 <= k < folded.len() && 0 <= i < f(folded[k]).len() implies f(folded[k])[i].len()
            > 0 by {
            lemma_split_ws_pieces_nonempty(folded[k]);
        }
        lemma_flat_map_all(folded, f, |t: Seq<char>| t.len() > 0);
    } else {
        assert forall|i: int| 0 <= i < ws.len() implies ws[i].len() > 0 by {
            folded.lemma_filter_pred(|t: Seq<char>| t.len() > 0, i);
        }
    }
    lemma_stop_stage_nonempty(ws, views_of(opt.stop_words@));
}

/// Runs the tokenization pipeline over the fragments.
pub(crate) fn tokenize(opt: &SearchOptions, fragments: &[&str]) -> (r: Vec<String>)
    ensures
        views_of(r@) == tokenize_spec(*opt, fragments@.map_values(|f: &str| f@)),
{
    broadcast use vstd::prelude::Seq::lemma_filter_push;

    let ghost fviews = fragments@.map_values(|f: &str| f@);
    // Case folding.
    let mut cur: Vec<String> = Vec::new();
    let mut i: usize = 0;
    while i < fragments.len()
        invariant
            i <= fragments@.len(),
            fviews == fragments@.map_values(|f: &str| f@),
            views_of(cur@) == fold_stage(*opt, fviews.take(i as int)),
        decreases fragments@.len() - i,
    {
        let t = if opt.case_sensitive {
            fragments[i].to_string()
        } else {
            to_lowercase(fragments[i])
        };
        proof {
            assert(fviews[i as int] == fragments@[i as int]@);
            assert(fviews.take(i + 1) =~= fviews.take(i as int).push(fviews[i as int]));
            assert(views_of(cur@.push(t)) =~= views_of(cur@).push(t@));
            if !opt.case_sensitive {
                assert(fviews.take(i + 1).map_values(|f: Seq<char>| lower_of(f)) =~= fviews.take(
                    i as int,
                ).map_values(|f: Seq<char>| lower_of(f)).push(lower_of(fviews[i as int])));
            }
        }
        cur.push(t);
        i += 1;
    }
    proof {
        assert(fviews.take(fviews.len() as int) =~= fviews);
    }
    let ghost folded = fold_stage(*opt, fviews);
    // The whitespace stage.
    let mut cur2: Vec<String> = Vec::new();
    if opt.stop_whitespace {
        let ghost f = |t: Seq<char>| split_ws_spec(t);
        proof {
            assert(views_of(cur@).take(0).flat_map(f) =~= Seq::<Seq<char>>::empty());
        }
        let mut j: usize = 0;
        while j < cur.len()
            invariant
                j <= cur@.len(),
                views_of(cur@) == folded,
                f == (|t: Seq<char>| split_ws_spec(t)),
                views_of(cur2@) == folded.take(j as int).flat_map(f),
            decreases cur@.len() - j,
        {
            let mut pieces = split_ws(cur[j].as_str());
            proof {
                folded.lemma_flat_map_take_append(f, j as int);
                assert(folded[j as int] == views_of(cur@)[j as int]);
                assert(views_of(cur2@ + pieces@) =~= views_of(cur2@) + views_of(pieces@));
            }
            cur2.append(&mut pieces);
            j += 1;
        }
        proof {
            assert(folded.take(folded.len() as int) =~= folded);
        }
    } else {
        let ghost p = |t: Seq<char>| t.len() > 0;
        proof {
            assert(views_of(cur@).take(0).filter(p) =~= Seq::<Seq<char>>::empty());
        }
        let mut j: usize = 0;
        while j < cur.len()
            invariant
                j <= cur@.len(),
                views_of(cur@) == folded,
                p == (|t: Seq<char>| t.len() > 0),
                views_of(cur2@) == folded.take(j as int).filter(p),
            decreases cur@.len() - j,
        {
            proof {
                assert(folded.take(j + 1) =~= folded.take(j as int).push(folded[j as int]));
                assert(folded[j as int] == views_of(cur@)[j as int]);
            }
            if cur[j].as_str().unicode_len() > 0 {
                let t = cur[j].clone();
                proof {
                    assert(views_of(cur2@.push(t)) =~= views_of(cur2@).push(t@));
                }
                cur2.push(t);
            }
            j += 1;
        }
        proof {
            assert(folded.take(folded.len() as int) =~= folded);
        }
    }
    let ghost ws = ws_stage(*opt, folded);
    // One stage per stop word, in configuration order.
    let ghost sws = views_of(opt.stop_words@);
    let mut w: usize = 0;
    while w < opt.stop_words.len()
        invariant
            w <= opt.stop_words@.len(),
            sws == views_of(opt.stop_words@),
            views_of(cur2@) == stop_stage(ws, sws.take(w as int)),
        decreases opt.stop_words@.len() - w,
    {
        let ghost sep = sws[w as int];
        let ghost f = |t: Seq<char>| split_sub_spec(t, sep);
        let ghost before = views_of(cur2@);
        let mut next: Vec<String> = Vec::new();
        proof {
            assert(before.take(0).flat_map(f) =~= Seq::<Seq<char>>::empty());
        }
        let mut j: usize = 0;
        while j < cur2.len()
            invariant
                j <= cur2@.len(),
                views_of(cur2@) == before,
                sep == sws[w as int],
                w < sws.len(),
                sws == views_of(opt.stop_words@),
                f == (|t: Seq<char>| split_sub_spec(t, sep)),
                views_of(next@) == before.take(j as int).flat_map(f),
            decreases cur2@.len() - j,
        {
            let mut pieces = split_on_stop_word(cur2[j].as_str(), opt.stop_words[w].as_str());
            proof {
                before.lemma_flat_map_take_append(f, j as int);
                assert(before[j as int] == views_of(cur2@)[j as int]);
                assert(sws[w as int] == opt.stop_words@[w as int]@);
                assert(views_of(next@ + pieces@) =~= views_of(next@) + views_of(pieces@));
            }
            next.append(&mut pieces);
            j += 1;
        }
        cur2 = next;
        proof {
            assert(before.take(before.len() as int) =~= before);
            assert(sws.take(w + 1).drop_last() =~= sws.take(w as int));
            assert(sws.take(w + 1).last() == sep);
            assert(stop_stage(ws, sws.take(w + 1)) == stop_stage(ws, sws.take(w as int)).flat_map(
                f,
            ));
        }
        w += 1;
    }
    proof {
        assert(sws.take(sws.len() as int) =~= sws);
    }
    cur2
}

} // verus!
