//! Bigram extraction from values and from wildcard queries.
//!
//! A bigram is a 2-character string. A value is padded with one space on each
//! side and every overlapping character pair is collected; the list is then
//! sorted and deduplicated. A wildcard query is first split into word spans
//! (maximal runs of literal characters, padded with a space on each side that
//! is not adjacent to a wildcard meta-character), and the bigrams of all
//! spans are pooled before deduplication.

use vstd::prelude::*;

use crate::text::{bigmtextcmp, lex_cmp, push_char};
use crate::text::{lemma_lex_cmp_antisym, lemma_lex_cmp_eq, lemma_lex_cmp_range,
    lemma_lex_cmp_trans};

verus! {

/// The overlapping character pairs of `s`, in order of occurrence.
pub open spec fn spec_pairs(s: Seq<char>) -> Seq<Seq<char>> {
    Seq::new(
        if s.len() <= 1 {
            0
        } else {
            (s.len() - 1) as nat
        },
        |i: int| seq![s[i], s[i + 1]],
    )
}

/// `s` with one boundary space on each side.
pub open spec fn spec_padded(s: Seq<char>) -> Seq<char> {
    seq![' '] + s + seq![' ']
}

/// The bigrams of a stored value, in order of occurrence: every overlapping
/// pair of the padded value. An empty value has none.
pub open spec fn value_bigrams(v: Seq<char>) -> Seq<Seq<char>> {
    if v.len() == 0 {
        Seq::empty()
    } else {
        spec_pairs(spec_padded(v))
    }
}

/// Strictly ascending in lexicographic order; implies freedom from
/// duplicates.
pub open spec fn bigrams_sorted(s: Seq<Seq<char>>) -> bool {
    forall|i: int, j: int| 0 <= i < j < s.len() ==> lex_cmp(s[i], s[j]) == -1
}

/// An ordered, duplicate-free list of bigrams extracted from one value or
/// one query, together with what deduplication and query shape revealed.
#[derive(Debug)]
pub struct BigramList {
    /// The bigrams, sorted ascending, each a 2-character string.
    pub bigrams: Vec<String>,
    /// Whether deduplication removed at least one repeated bigram.
    pub removed_dups: bool,
    /// Whether the query was too short (fewer than 2 characters) for its
    /// bigrams to characterize it, so the index can only partial-match.
    pub pmatch: bool,
}

/// A wildcard meta-character: `%` matches any run of characters, `_` any
/// single character.
pub open spec fn is_meta_char(c: char) -> bool {
    c == '%' || c == '_'
}

/// Skip phase of the span scanner: from `pos`, moves over meta-characters,
/// escape prefixes and boundary spaces up to the first literal character.
/// Yields the position of that character (`q.len()` when none is left),
/// whether the significant character just before it was a wildcard
/// meta-character, and whether it is escaped.
pub open spec fn span_skip(q: Seq<char>, pos: int, esc: bool, meta: bool) -> (int, bool, bool)
    decreases q.len() - pos
        when 0 <= pos <= q.len()
{
    if pos >= q.len() {
        (pos, meta, esc)
    } else {
        let c = q[pos];
        if esc {
            if c != ' ' {
                (pos, meta, true)
            } else {
                span_skip(q, pos + 1, false, false)
            }
        } else if c == '\\' {
            span_skip(q, pos + 1, true, meta)
        } else if is_meta_char(c) {
            span_skip(q, pos + 1, false, true)
        } else if c != ' ' {
            (pos, meta, false)
        } else {
            span_skip(q, pos + 1, false, false)
        }
    }
}

/// Copy phase of the span scanner: collects literal characters from `pos`,
/// stripping escape prefixes, until a meta-character, a boundary space, or
/// the end of the query. Yields the collected word, the position at which
/// the next scan resumes, and whether the span stopped at a meta-character.
/// An escaped boundary space ends the span without being consumed; the scan
/// resumes at its escape character.
pub open spec fn span_copy(q: Seq<char>, pos: int, esc: bool) -> (Seq<char>, int, bool)
    decreases q.len() - pos
        when 0 <= pos <= q.len()
{
    if pos >= q.len() {
        (Seq::empty(), pos, false)
    } else {
        let c = q[pos];
        if esc {
            if c != ' ' {
                let rest = span_copy(q, pos + 1, false);
                (seq![c] + rest.0, rest.1, rest.2)
            } else {
                (Seq::empty(), pos - 1, false)
            }
        } else if c == '\\' {
            span_copy(q, pos + 1, true)
        } else if is_meta_char(c) {
            (Seq::empty(), pos, true)
        } else if c != ' ' {
            let rest = span_copy(q, pos + 1, false);
            (seq![c] + rest.0, rest.1, rest.2)
        } else {
            (Seq::empty(), pos, false)
        }
    }
}

/// The next word span of the wildcard query at or after `pos`, padded with a
/// boundary space on each side that is not adjacent to a wildcard
/// meta-character, together with the position where scanning resumes.
/// `None` when no literal content is left.
pub open spec fn spec_wildcard_part(q: Seq<char>, pos: int) -> Option<(Seq<char>, int)> {
    let skip = span_skip(q, pos, false, false);
    if skip.0 >= q.len() {
        None
    } else {
        let copy = span_copy(q, skip.0, skip.2);
        let left = if skip.1 {
            Seq::<char>::empty()
        } else {
            seq![' ']
        };
        let right = if copy.2 {
            Seq::<char>::empty()
        } else {
            seq![' ']
        };
        Some((left + copy.0 + right, copy.1))
    }
}

/// The skip phase stays within the query and stops only at a literal
/// character.
pub proof fn lemma_span_skip_bounds(q: Seq<char>, pos: int, esc: bool, meta: bool)
    requires
        0 <= pos <= q.len(),
    ensures
        pos <= span_skip(q, pos, esc, meta).0 <= q.len(),
        span_skip(q, pos, esc, meta).0 < q.len() ==> {
            let r = span_skip(q, pos, esc, meta);
            &&& q[r.0] != ' '
            &&& (!r.2 ==> q[r.0] != '\\' && !is_meta_char(q[r.0]))
        },
    decreases q.len() - pos,
{
    if pos < q.len() {
        let c = q[pos];
        if esc {
            if c == ' ' {
                lemma_span_skip_bounds(q, pos + 1, false, false);
            }
        } else if c == '\\' {
            lemma_span_skip_bounds(q, pos + 1, true, meta);
        } else if is_meta_char(c) {
            lemma_span_skip_bounds(q, pos + 1, false, true);
        } else if c == ' ' {
            lemma_span_skip_bounds(q, pos + 1, false, false);
        }
    }
}

/// The copy phase resumes within the query, at worst one character before
/// where it started (the escape of an escaped boundary space).
pub proof fn lemma_span_copy_bounds(q: Seq<char>, pos: int, esc: bool)
    requires
        0 <= pos <= q.len(),
    ensures
        span_copy(q, pos, esc).1 <= q.len(),
        esc ==> span_copy(q, pos, esc).1 >= pos - 1,
        !esc ==> span_copy(q, pos, esc).1 >= pos,
    decreases q.len() - pos,
{
    if pos < q.len() {
        let c = q[pos];
        if esc {
            if c != ' ' {
                lemma_span_copy_bounds(q, pos + 1, false);
            }
        } else if c == '\\' {
            lemma_span_copy_bounds(q, pos + 1, true);
        } else if !is_meta_char(c) && c != ' ' {
            lemma_span_copy_bounds(q, pos + 1, false);
        }
    }
}

/// A produced span always moves the scan position strictly forward.
pub proof fn lemma_wildcard_part_progress(q: Seq<char>, pos: int)
    requires
        0 <= pos <= q.len(),
    ensures
        spec_wildcard_part(q, pos) matches Some(p) ==> pos < p.1 <= q.len(),
{
    let skip = span_skip(q, pos, false, false);
    lemma_span_skip_bounds(q, pos, false, false);
    if skip.0 < q.len() {
        // the first copied character is literal, so the copy phase consumes
        // at least one character before any backup
        assert(q[skip.0] != ' ');
        lemma_span_copy_bounds(q, skip.0 + 1, false);
        assert(span_copy(q, skip.0, skip.2).1 == span_copy(q, skip.0 + 1, false).1);
    }
}

/// The pooled bigrams of every word span of the query from `pos` on, in
/// span order.
pub open spec fn query_bigrams(q: Seq<char>, pos: int) -> Seq<Seq<char>>
    decreases q.len() - pos
        when 0 <= pos <= q.len()
        via query_bigrams_decreases
{
    match spec_wildcard_part(q, pos) {
        None => Seq::empty(),
        Some(p) => spec_pairs(p.0) + query_bigrams(q, p.1),
    }
}

#[via_fn]
proof fn query_bigrams_decreases(q: Seq<char>, pos: int) {
    lemma_wildcard_part_progress(q, pos);
}

/// Membership in the set of a sequence's elements is membership in the
/// sequence.
pub proof fn lemma_to_set_contains(s: Seq<Seq<char>>, x: Seq<char>)
    ensures
        s.to_set().contains(x) == s.contains(x),
{
}

/// A strictly sorted sequence has no duplicates.
pub proof fn lemma_sorted_no_duplicates(s: Seq<Seq<char>>)
    requires
        bigrams_sorted(s),
    ensures
        s.no_duplicates(),
{
    assert forall|i: int, j: int| 0 <= i < s.len() && 0 <= j < s.len() && i != j implies s[i]
        != s[j] by {
        if i < j {
            lemma_lex_cmp_eq(s[i], s[j]);
        } else {
            lemma_lex_cmp_eq(s[j], s[i]);
        }
    }
}

impl BigramList {
    /// The bigrams of a stored value: sorted, duplicate-free, covering
    /// exactly every overlapping pair of the space-padded value.
    pub fn from_value(value: &str) -> (r: BigramList)
        ensures
            bigrams_sorted(r.bigrams.deep_view()),
            r.bigrams.deep_view().no_duplicates(),
            r.bigrams.deep_view().to_set() == value_bigrams(value@).to_set(),
            r.bigrams.deep_view().len() == value_bigrams(value@).to_set().len(),
            r.removed_dups == !value_bigrams(value@).no_duplicates(),
            r.pmatch == false,
    {
        if value.unicode_len() == 0 {
            let r = BigramList { bigrams: Vec::new(), removed_dups: false, pmatch: false };
            proof {
                assert(r.bigrams.deep_view() =~= Seq::<Seq<char>>::empty());
                assert(value_bigrams(value@) =~= Seq::<Seq<char>>::empty());
                assert(r.bigrams.deep_view().to_set() =~= value_bigrams(value@).to_set());
                r.bigrams.deep_view().unique_seq_to_set();
            }
            return r;
        }
        let mut padded_value = String::new();
        push_char(&mut padded_value, ' ');
        padded_value.append(value);
        push_char(&mut padded_value, ' ');
        proof {
            assert(padded_value@ =~= spec_padded(value@));
        }
        let bigrams = Self::make_bigrams(padded_value.as_str());
        Self::remove_duplicate_bigms(bigrams, false)
    }

    /// Every overlapping pair of adjacent characters of an already padded
    /// word, in order.
    pub fn make_bigrams(padded_str: &str) -> (r: Vec<String>)
        ensures
            r.deep_view() == spec_pairs(padded_str@),
    {
        let n = padded_str.unicode_len();
        let mut bigrams: Vec<String> = Vec::new();
        if n < 2 {
            proof {
                assert(bigrams.deep_view() =~= spec_pairs(padded_str@));
            }
            return bigrams;
        }
        let mut i: usize = 0;
        while i < n - 1
            invariant
                2 <= n == padded_str@.len(),
                i <= n - 1,
                bigrams.deep_view() =~= spec_pairs(padded_str@).take(i as int),
            decreases n - 1 - i,
        {
            let c1 = padded_str.get_char(i);
            let c2 = padded_str.get_char(i + 1);
            let mut b = String::new();
            push_char(&mut b, c1);
            push_char(&mut b, c2);
            proof {
                assert(b@ =~= seq![c1, c2]);
            }
            let ghost prev = bigrams.deep_view();
            let ghost bv = b@;
            bigrams.push(b);
            proof {
                let dv = bigrams.deep_view();
                let sp = spec_pairs(padded_str@);
                assert(sp.len() == n - 1);
                assert(prev.len() == i as int);
                assert(bigrams@.len() == prev.len() + 1);
                assert(dv.len() == i + 1);
                assert forall|k2: int| 0 <= k2 < i + 1 implies dv[k2] == sp.take(i as int + 1)[k2] by {
                    if k2 < i {
                        assert(dv[k2] == prev[k2]);
                    } else {
                        assert(dv[k2] == bv);
                        assert(sp[k2] == seq![padded_str@[k2], padded_str@[k2 + 1]]);
                    }
                }
                assert(dv =~= sp.take(i as int + 1));
            }
            i += 1;
        }
        proof {
            assert(spec_pairs(padded_str@).take(n - 1) =~= spec_pairs(padded_str@));
        }
        bigrams
    }

    /// Sorts the pooled bigrams and removes repeats, recording whether any
    /// repeat was present. The result holds exactly the distinct bigrams of
    /// the input, in ascending order.
    pub fn remove_duplicate_bigms(bigrams: Vec<String>, pmatch: bool) -> (r: BigramList)
        ensures
            bigrams_sorted(r.bigrams.deep_view()),
            r.bigrams.deep_view().no_duplicates(),
            r.bigrams.deep_view().to_set() == bigrams.deep_view().to_set(),
            r.bigrams.deep_view().len() == bigrams.deep_view().to_set().len(),
            r.removed_dups == !bigrams.deep_view().no_duplicates(),
            r.pmatch == pmatch,
    {
        let ghost all = bigrams.deep_view();
        let mut out: Vec<String> = Vec::new();
        let mut removed_dups = false;
        let mut k: usize = 0;
        proof {
            assert(all.take(0) =~= Seq::<Seq<char>>::empty());
            assert(out.deep_view() =~= Seq::<Seq<char>>::empty());
            assert(out.deep_view().to_set() =~= all.take(0).to_set());
        }
        while k < bigrams.len()
            invariant
                k <= bigrams.len(),
                all == bigrams.deep_view(),
                bigrams_sorted(out.deep_view()),
                out.deep_view().to_set() == all.take(k as int).to_set(),
                removed_dups == !all.take(k as int).no_duplicates(),
            decreases bigrams.len() - k,
        {
            let ghost prev = out.deep_view();
            let ghost x = all[k as int];
            let j = Self::lower_bound(&out, &bigrams[k]);
            proof {
                lemma_sorted_no_duplicates(out.deep_view());
                assert(all.take(k as int + 1) =~= all.take(k as int).push(x));
                assert(all.take(k as int + 1).drop_last() =~= all.take(k as int));
                // membership of x in the distinct prefix decides both updates
                if j < prev.len() && lex_cmp(prev[j as int], x) == 0 {
                    lemma_lex_cmp_eq(prev[j as int], x);
                    assert(prev.contains(x));
                } else {
                    if prev.contains(x) {
                        let ix = choose|ix: int| 0 <= ix < prev.len() && prev[ix] == x;
                        lemma_lex_cmp_eq(prev[ix], x);
                        if ix < j {
                            assert(lex_cmp(prev[ix], x) == -1);
                        } else {
                            assert(j < prev.len());
                            lemma_lex_cmp_range(prev[j as int], x);
                            assert(lex_cmp(prev[j as int], x) == 1);
                            if j < ix {
                                assert(lex_cmp(prev[j as int], prev[ix]) == -1);
                                lemma_lex_cmp_antisym(prev[j as int], x);
                                lemma_lex_cmp_trans(x, prev[j as int], prev[ix]);
                                lemma_lex_cmp_eq(x, prev[ix]);
                            }
                        }
                        assert(false);
                    }
                }
                lemma_to_set_contains(prev, x);
                lemma_to_set_contains(all.take(k as int), x);
                assert(prev.contains(x) == all.take(k as int).to_set().contains(x));
            }
            if j < out.len() && bigmtextcmp(out[j].as_str(), bigrams[k].as_str()) == 0 {
                removed_dups = true;
                proof {
                    assert(all.take(k as int + 1).to_set() =~= all.take(k as int).to_set());
                    lemma_to_set_contains(all.take(k as int), x);
                    assert(all.take(k as int).contains(x));
                    let ix = choose|ix: int| 0 <= ix < k && all.take(k as int)[ix] == x;
                    assert(all.take(k as int + 1)[ix] == all.take(k as int + 1)[k as int]);
                    assert(!all.take(k as int + 1).no_duplicates());
                }
            } else {
                proof {
                    assert(!prev.contains(x));
                    // x is strictly between the elements before and after slot j
                    assert(forall|i: int| 0 <= i < j ==> lex_cmp(prev[i], x) == -1);
                    assert forall|i: int| j <= i < prev.len() implies lex_cmp(x, prev[i])
                        == -1 by {
                        lemma_lex_cmp_range(prev[j as int], x);
                        lemma_lex_cmp_eq(prev[j as int], x);
                        lemma_lex_cmp_antisym(prev[j as int], x);
                        if j < i {
                            lemma_lex_cmp_trans(x, prev[j as int], prev[i]);
                        }
                    }
                }
                out.insert(j, bigrams[k].clone());
                proof {
                    prev.insert_ensures(j as int, x);
                    assert(out.deep_view() =~= prev.insert(j as int, x));
                    let cur = out.deep_view();
                    assert forall|p: int, q: int| 0 <= p < q < cur.len() implies lex_cmp(
                        cur[p],
                        cur[q],
                    ) == -1 by {
                        if p < j && q > j {
                            assert(cur[p] == prev[p] && cur[q] == prev[q - 1]);
                        } else if p == j {
                            assert(cur[p] == x && cur[q] == prev[q - 1]);
                        } else if q == j {
                            assert(cur[p] == prev[p] && cur[q] == x);
                        }
                    }
                    assert(cur.to_set() =~= all.take(k as int + 1).to_set()) by {
                        assert forall|e: Seq<char>| cur.contains(e) implies all.take(
                            k as int + 1,
                        ).contains(e) by {
                            let ie = choose|ie: int| 0 <= ie < cur.len() && cur[ie] == e;
                            if ie < j {
                                assert(prev[ie] == e);
                            } else if ie == j {
                                assert(e == x);
                                assert(all.take(k as int + 1)[k as int] == x);
                            } else {
                                assert(prev[ie - 1] == e);
                            }
                            if e != x {
                                assert(prev.contains(e));
                                lemma_to_set_contains(prev, e);
                                lemma_to_set_contains(all.take(k as int), e);
                                assert(all.take(k as int).contains(e));
                                let pe = choose|pe: int|
                                    0 <= pe < k && all.take(k as int)[pe] == e;
                                assert(all.take(k as int + 1)[pe] == e);
                            }
                        }
                        assert forall|e: Seq<char>| all.take(k as int + 1).contains(e) implies cur
                            .contains(e) by {
                            let t = all.take(k as int + 1);
                            let ie = choose|ie: int| 0 <= ie < t.len() && t[ie] == e;
                            if ie == k {
                                assert(cur[j as int] == x);
                            } else {
                                assert(all.take(k as int)[ie] == e);
                                assert(all.take(k as int).contains(e));
                                lemma_to_set_contains(all.take(k as int), e);
                                lemma_to_set_contains(prev, e);
                                assert(prev.contains(e));
                                let pe = choose|pe: int| 0 <= pe < prev.len() && prev[pe] == e;
                                if pe < j {
                                    assert(cur[pe] == e);
                                } else {
                                    assert(cur[pe + 1] == e);
                                }
                            }
                        }
                    }
                    assert(all.take(k as int + 1).no_duplicates() == all.take(
                        k as int,
                    ).no_duplicates());
                }
            }
            k += 1;
        }
        proof {
            assert(all.take(k as int) =~= all);
            lemma_sorted_no_duplicates(out.deep_view());
            out.deep_view().unique_seq_to_set();
        }
        BigramList { bigrams: out, removed_dups, pmatch }
    }

    /// The bigrams of a wildcard query: sorted, duplicate-free, pooled over
    /// all its word spans, with the partial-match flag set for a query of
    /// fewer than 2 characters.
    pub fn from_query(query: &str) -> (r: BigramList)
        ensures
            bigrams_sorted(r.bigrams.deep_view()),
            r.bigrams.deep_view().no_duplicates(),
            r.bigrams.deep_view().to_set() == query_bigrams(query@, 0).to_set(),
            r.bigrams.deep_view().len() == query_bigrams(query@, 0).to_set().len(),
            r.removed_dups == !query_bigrams(query@, 0).no_duplicates(),
            r.pmatch == (query@.len() < 2),
    {
        let pmatch = query.unicode_len() < 2;
        let bigrams = Self::make_bigrams_of_query(query);
        Self::remove_duplicate_bigms(bigrams, pmatch)
    }

    /// The bigrams of every word span of the query, in span order, repeats
    /// included.
    pub fn make_bigrams_of_query(query: &str) -> (r: Vec<String>)
        ensures
            r.deep_view() == query_bigrams(query@, 0),
    {
        let mut bigrams: Vec<String> = Vec::new();
        let mut pos: usize = 0;
        proof {
            assert(bigrams.deep_view() =~= Seq::<Seq<char>>::empty());
        }
        loop
            invariant
                pos <= query@.len(),
                bigrams.deep_view() + query_bigrams(query@, pos as int) == query_bigrams(
                    query@,
                    0,
                ),
            decreases query@.len() - pos,
        {
            let ghost prev = bigrams.deep_view();
            match Self::get_wildcard_part(query, pos) {
                None => {
                    proof {
                        assert(query_bigrams(query@, pos as int) =~= Seq::<Seq<char>>::empty());
                        assert(prev + Seq::<Seq<char>>::empty() =~= prev);
                    }
                    return bigrams;
                },
                Some((s, end)) => {
                    let mut bs = Self::make_bigrams(s.as_str());
                    let ghost bsv = bs.deep_view();
                    bigrams.append(&mut bs);
                    proof {
                        lemma_wildcard_part_progress(query@, pos as int);
                        assert(query_bigrams(query@, pos as int) == spec_pairs(s@)
                            + query_bigrams(query@, end as int));
                        let dv = bigrams.deep_view();
                        assert(dv.len() == prev.len() + bsv.len());
                        assert forall|k2: int| 0 <= k2 < dv.len() implies dv[k2] == (prev
                            + bsv)[k2] by {
                            if k2 < prev.len() {
                                assert(bigrams@[k2]@ == prev[k2]);
                            }
                        }
                        assert(dv =~= prev + bsv);
                        assert((prev + bsv) + query_bigrams(query@, end as int) =~= prev + (bsv
                            + query_bigrams(query@, end as int)));
                    }
                    pos = end;
                },
            }
        }
    }

    /// The next word span of the wildcard query at or after position `pos`,
    /// padded with a boundary space on each side that is not adjacent to a
    /// wildcard meta-character, and the position where the next scan starts.
    /// `None` when no literal content remains.
    pub fn get_wildcard_part(query: &str, pos: usize) -> (r: Option<(String, usize)>)
        requires
            pos <= query@.len(),
        ensures
            (r is Some) == (spec_wildcard_part(query@, pos as int) is Some),
            r matches Some(p) ==> spec_wildcard_part(query@, pos as int) == Some((
                p.0@,
                p.1 as int,
            )),
    {
        let n = query.unicode_len();
        let mut i: usize = pos;
        let mut esc: bool = false;
        let mut meta: bool = false;
        let mut found_word: bool = false;

        // Find the first literal character, remembering whether the
        // significant character before it was a wildcard meta-character.
        // The escape state carries over into the copy phase, since the
        // literal character that stops this phase may itself be escaped.
        while !found_word && i < n
            invariant
                pos <= i <= n,
                n == query@.len(),
                esc ==> i >= 1,
                !found_word ==> span_skip(query@, pos as int, false, false) == span_skip(
                    query@,
                    i as int,
                    esc,
                    meta,
                ),
                found_word ==> i < n && span_skip(query@, pos as int, false, false) == (
                    i as int,
                    meta,
                    esc,
                ),
            decreases (if found_word {
                0int
            } else {
                n - i + 1
            }),
        {
            let c = query.get_char(i);
            if esc {
                if c != ' ' {
                    found_word = true;
                } else {
                    esc = false;
                    meta = false;
                    i += 1;
                }
            } else if c == '\\' {
                esc = true;
                i += 1;
            } else if c == '%' || c == '_' {
                meta = true;
                i += 1;
            } else if c != ' ' {
                found_word = true;
            } else {
                meta = false;
                i += 1;
            }
        }
        if !found_word {
            return None;
        }

        let ghost start = i as int;
        let ghost esc_entry = esc;
        let ghost sc = span_copy(query@, start, esc_entry);

        // Pad left unless a wildcard meta-character directly precedes the
        // word.
        let mut res = String::new();
        if !meta {
            push_char(&mut res, ' ');
        }
        let ghost left = res@;
        let ghost mut copied = Seq::<char>::empty();
        proof {
            assert(res@ =~= left + copied);
        }

        // Copy literal characters, stripping escape prefixes, until a
        // meta-character, a boundary space, or the end of the query.
        let mut tmeta: bool = false;
        let mut span_done: bool = false;
        while !span_done && i < n
            invariant
                i <= n,
                n == query@.len(),
                res@ == left + copied,
                !span_done ==> (esc ==> i >= 1),
                !span_done ==> tmeta == false,
                !span_done ==> sc == (
                    copied + span_copy(query@, i as int, esc).0,
                    span_copy(query@, i as int, esc).1,
                    span_copy(query@, i as int, esc).2,
                ),
                span_done ==> sc == (copied, i as int, tmeta),
            decreases (if span_done {
                0int
            } else {
                n - i + 1
            }),
        {
            let c = query.get_char(i);
            if esc {
                if c != ' ' {
                    push_char(&mut res, c);
                    proof {
                        let rest = span_copy(query@, i as int + 1, false);
                        assert(copied + (seq![c] + rest.0) =~= copied.push(c) + rest.0);
                        copied = copied.push(c);
                    }
                    esc = false;
                    i += 1;
                } else {
                    // An escaped boundary ends the span; the next scan
                    // restarts from the escape character.
                    i -= 1;
                    span_done = true;
                }
            } else if c == '\\' {
                esc = true;
                i += 1;
            } else if c == '%' || c == '_' {
                tmeta = true;
                span_done = true;
            } else if c != ' ' {
                push_char(&mut res, c);
                proof {
                    let rest = span_copy(query@, i as int + 1, false);
                    assert(copied + (seq![c] + rest.0) =~= copied.push(c) + rest.0);
                    copied = copied.push(c);
                }
                i += 1;
            } else {
                span_done = true;
            }
        }
        proof {
            if !span_done {
                assert(copied + Seq::<char>::empty() =~= copied);
            }
            assert(sc == (copied, i as int, tmeta));
        }

        // Pad right unless the span stopped at a wildcard meta-character.
        if !tmeta {
            push_char(&mut res, ' ');
        }
        proof {
            let right = if sc.2 {
                Seq::<char>::empty()
            } else {
                seq![' ']
            };
            assert(res@ =~= left + sc.0 + right);
        }
        Some((res, i))
    }

    /// The first slot of the sorted list `v` whose element is not below `x`;
    /// `v.len()` when every element is below `x`.
    fn lower_bound(v: &Vec<String>, x: &String) -> (j: usize)
        ensures
            j <= v.len(),
            forall|i: int| 0 <= i < j ==> lex_cmp(v.deep_view()[i], x@) == -1,
            j < v.len() ==> lex_cmp(v.deep_view()[j as int], x@) != -1,
    {
        let mut j: usize = 0;
        while j < v.len()
            invariant
                j <= v.len(),
                forall|i: int| 0 <= i < j ==> lex_cmp(v.deep_view()[i], x@) == -1,
            decreases v.len() - j,
        {
            let c = bigmtextcmp(v[j].as_str(), x.as_str());
            if c != -1 {
                return j;
            }
            j += 1;
        }
        j
    }
}

/// The sorted, duplicate-free bigrams of a raw value: exactly the
/// overlapping character pairs of the value padded with one boundary space
/// on each side; empty for an empty value.
pub fn show_bigm(input: &str) -> (r: Vec<String>)
    ensures
        bigrams_sorted(r.deep_view()),
        r.deep_view().no_duplicates(),
        r.deep_view().to_set() == value_bigrams(input@).to_set(),
        r.deep_view().len() == value_bigrams(input@).to_set().len(),
{
    let bigram_list = BigramList::from_value(input);
    bigram_list.bigrams
}

} // verus!
