//! The similarity score between two strings: the number of bigrams they
//! share, out of the larger of their two bigram counts.
//!
//! The score is kept as an exact fraction `shared / max_len`; the host
//! divides when it needs a floating-point value, and threshold tests can be
//! made exactly with integer arithmetic.

use vstd::prelude::*;

use crate::bigram::{bigrams_sorted, lemma_to_set_contains, value_bigrams, BigramList};
use crate::text::{bigmtextcmp, lex_cmp};
use crate::text::{lemma_lex_cmp_antisym, lemma_lex_cmp_eq, lemma_lex_cmp_range,
    lemma_lex_cmp_trans};

verus! {

/// The distinct bigrams of a value.
pub open spec fn value_bigram_set(v: Seq<char>) -> Set<Seq<char>> {
    value_bigrams(v).to_set()
}

/// How many distinct bigrams `a` and `b` share.
pub open spec fn spec_similarity_shared(a: Seq<char>, b: Seq<char>) -> nat {
    value_bigram_set(a).intersect(value_bigram_set(b)).len()
}

/// The larger of the two distinct-bigram counts: the denominator of the
/// similarity score.
pub open spec fn spec_similarity_max(a: Seq<char>, b: Seq<char>) -> nat {
    let la = value_bigram_set(a).len();
    let lb = value_bigram_set(b).len();
    if la >= lb {
        la
    } else {
        lb
    }
}

/// An exact similarity score: `shared` common bigrams out of `max_len`; the
/// similarity value is the quotient `shared / max_len`, always in [0, 1].
#[derive(Debug, Clone, Copy)]
pub struct SimilarityScore {
    /// How many distinct bigrams the two strings share.
    pub shared: usize,
    /// The larger of the two distinct-bigram counts; positive.
    pub max_len: usize,
}

/// The similarity between two strings: the share of common bigrams, as an
/// exact fraction. A pair with an empty side scores zero.
pub fn bigm_similarity(input1: &str, input2: &str) -> (r: SimilarityScore)
    ensures
        0 < r.max_len,
        r.shared <= r.max_len,
        (input1@.len() == 0 || input2@.len() == 0) ==> r.shared == 0 && r.max_len == 1,
        (input1@.len() > 0 && input2@.len() > 0) ==> r.shared == spec_similarity_shared(
            input1@,
            input2@,
        ) && r.max_len == spec_similarity_max(input1@, input2@),
{
    // an explicit test, so that an empty side can never make the
    // denominator zero
    if input1.unicode_len() == 0 || input2.unicode_len() == 0 {
        return SimilarityScore { shared: 0, max_len: 1 };
    }

    let bigm1 = BigramList::from_value(input1);
    let bigm2 = BigramList::from_value(input2);
    let count = count_shared(&bigm1.bigrams, &bigm2.bigrams);

    let len1 = bigm1.bigrams.len();
    let len2 = bigm2.bigrams.len();
    let max_len = if len1 > len2 {
        len1
    } else {
        len2
    };
    proof {
        broadcast use vstd::seq_lib::seq_to_set_is_finite;

        vstd::set_lib::lemma_len_intersect(value_bigram_set(input1@), value_bigram_set(input2@));
        assert(value_bigrams(input1@).len() > 0);
        assert(value_bigrams(input1@)[0] == seq![' ', input1@[0]]);
        lemma_to_set_contains(value_bigrams(input1@), value_bigrams(input1@)[0]);
        assert(value_bigram_set(input1@).contains(value_bigrams(input1@)[0]));
        if value_bigram_set(input1@).len() == 0 {
            vstd::set_lib::lemma_set_empty_equivalency_len(value_bigram_set(input1@));
        }
    }
    SimilarityScore { shared: count, max_len }
}

/// Counts the bigrams two sorted, duplicate-free lists share, by one linear
/// merge pass.
fn count_shared(a: &Vec<String>, b: &Vec<String>) -> (count: usize)
    requires
        bigrams_sorted(a.deep_view()),
        bigrams_sorted(b.deep_view()),
    ensures
        count == a.deep_view().to_set().intersect(b.deep_view().to_set()).len(),
{
    let ghost av = a.deep_view();
    let ghost bv = b.deep_view();
    let mut count: usize = 0;
    let mut i: usize = 0;
    let mut j: usize = 0;
    proof {
        assert(av.take(0) =~= Seq::<Seq<char>>::empty());
        assert(bv.take(0) =~= Seq::<Seq<char>>::empty());
        assert(av.take(0).to_set().intersect(bv.take(0).to_set()) =~= Set::<Seq<char>>::empty());
        assert(av.take(0).to_set().intersect(bv.skip(0).to_set()) =~= Set::<Seq<char>>::empty());
        assert(av.skip(0).to_set().intersect(bv.take(0).to_set()) =~= Set::<Seq<char>>::empty());
    }
    while i < a.len() && j < b.len()
        invariant
            i <= a.len(),
            j <= b.len(),
            av == a.deep_view(),
            bv == b.deep_view(),
            bigrams_sorted(av),
            bigrams_sorted(bv),
            count == av.take(i as int).to_set().intersect(bv.take(j as int).to_set()).len(),
            count <= i,
            av.take(i as int).to_set().intersect(bv.skip(j as int).to_set()) == Set::<
                Seq<char>,
            >::empty(),
            av.skip(i as int).to_set().intersect(bv.take(j as int).to_set()) == Set::<
                Seq<char>,
            >::empty(),
        decreases a.len() - i + b.len() - j,
    {
        let ghost ai = av[i as int];
        let ghost bj = bv[j as int];
        proof {
            lemma_merge_not_in_rest(av, bv, i as int, j as int);
            lemma_intersect_comm(av.take(i as int).to_set(), bv.skip(j as int).to_set());
            lemma_merge_not_in_rest(bv, av, j as int, i as int);
            assert(av.take(i as int + 1) =~= av.take(i as int).push(ai));
            assert(bv.take(j as int + 1) =~= bv.take(j as int).push(bj));
            lemma_take_push_to_set(av, i as int);
            lemma_take_push_to_set(bv, j as int);
            lemma_lex_cmp_range(ai, bj);
            lemma_lex_cmp_eq(ai, bj);
            lemma_lex_cmp_antisym(ai, bj);
        }
        let c = bigmtextcmp(a[i].as_str(), b[j].as_str());
        if c == -1 {
            proof {
                lemma_merge_advance_left(av, bv, i as int, j as int);
            }
            i += 1;
        } else if c == 1 {
            proof {
                lemma_intersect_comm(av.take(i as int).to_set(), bv.skip(j as int).to_set());
                lemma_intersect_comm(av.skip(i as int).to_set(), bv.take(j as int).to_set());
                lemma_merge_advance_left(bv, av, j as int, i as int);
                lemma_intersect_comm(bv.take(j as int + 1).to_set(), av.take(i as int).to_set());
                lemma_intersect_comm(bv.take(j as int).to_set(), av.take(i as int).to_set());
                lemma_intersect_comm(bv.skip(j as int + 1).to_set(), av.take(i as int).to_set());
                lemma_intersect_comm(bv.take(j as int + 1).to_set(), av.skip(i as int).to_set());
            }
            j += 1;
        } else {
            proof {
                broadcast use vstd::seq_lib::seq_to_set_is_finite;

                lemma_merge_match(av, bv, i as int, j as int);
            }
            count += 1;
            i += 1;
            j += 1;
        }
    }
    proof {
        if i == a.len() {
            assert(av.take(i as int) =~= av);
            lemma_intersect_skip_split(bv, av, j as int);
        } else {
            assert(bv.take(j as int) =~= bv);
            lemma_intersect_comm(av.skip(i as int).to_set(), bv.to_set());
            lemma_intersect_skip_split(av, bv, i as int);
            lemma_intersect_comm(bv.to_set(), av.take(i as int).to_set());
            lemma_intersect_comm(bv.to_set(), av.to_set());
        }
    }
    count
}

/// A non-empty string is fully similar to itself: shared count and
/// denominator coincide and are positive, so the score is exactly 1.
pub proof fn lemma_similarity_self(s: Seq<char>)
    requires
        s.len() > 0,
    ensures
        spec_similarity_shared(s, s) == spec_similarity_max(s, s),
        spec_similarity_max(s, s) > 0,
{
    broadcast use vstd::seq_lib::seq_to_set_is_finite;

    assert(value_bigram_set(s).intersect(value_bigram_set(s)) =~= value_bigram_set(s));
    assert(value_bigrams(s).len() > 0);
    assert(value_bigrams(s)[0] == seq![' ', s[0]]);
    lemma_to_set_contains(value_bigrams(s), value_bigrams(s)[0]);
    if value_bigram_set(s).len() == 0 {
        vstd::set_lib::lemma_set_empty_equivalency_len(value_bigram_set(s));
    }
}

/// A pair with an empty side shares no bigram, so its score is 0.
pub proof fn lemma_similarity_empty(a: Seq<char>, b: Seq<char>)
    requires
        a.len() == 0 || b.len() == 0,
    ensures
        spec_similarity_shared(a, b) == 0,
{
    if a.len() == 0 {
        assert(value_bigram_set(a).intersect(value_bigram_set(b)) =~= Set::<Seq<char>>::empty());
    } else {
        assert(value_bigram_set(a).intersect(value_bigram_set(b)) =~= Set::<Seq<char>>::empty());
    }
}

/// The similarity score does not depend on the order of its two strings.
pub proof fn lemma_similarity_symmetric(a: Seq<char>, b: Seq<char>)
    ensures
        spec_similarity_shared(a, b) == spec_similarity_shared(b, a),
        spec_similarity_max(a, b) == spec_similarity_max(b, a),
{
    lemma_intersect_comm(value_bigram_set(a), value_bigram_set(b));
}

/// Set intersection is symmetric.
pub proof fn lemma_intersect_comm(s1: Set<Seq<char>>, s2: Set<Seq<char>>)
    ensures
        s1.intersect(s2) == s2.intersect(s1),
{
    assert(s1.intersect(s2) =~= s2.intersect(s1));
}

/// During the merge, the current left element is in neither scanned prefix.
proof fn lemma_merge_not_in_rest(xs: Seq<Seq<char>>, ys: Seq<Seq<char>>, i: int, j: int)
    requires
        bigrams_sorted(xs),
        0 <= i < xs.len(),
        0 <= j <= ys.len(),
        xs.skip(i).to_set().intersect(ys.take(j).to_set()) == Set::<Seq<char>>::empty(),
    ensures
        !xs.take(i).to_set().contains(xs[i]),
        !ys.take(j).to_set().contains(xs[i]),
{
    let x = xs[i];
    lemma_to_set_contains(xs.take(i), x);
    if xs.take(i).contains(x) {
        let ix = choose|ix: int| 0 <= ix < i && xs.take(i)[ix] == x;
        assert(lex_cmp(xs[ix], xs[i]) == -1);
        lemma_lex_cmp_eq(xs[ix], x);
    }
    lemma_to_set_contains(xs.skip(i), x);
    assert(xs.skip(i)[0] == x);
    assert(xs.skip(i).to_set().contains(x));
    if ys.take(j).to_set().contains(x) {
        assert(xs.skip(i).to_set().intersect(ys.take(j).to_set()).contains(x));
    }
}

/// Extending a scanned prefix by one element adds exactly that element to
/// its set.
proof fn lemma_take_push_to_set(xs: Seq<Seq<char>>, i: int)
    requires
        0 <= i < xs.len(),
    ensures
        xs.take(i + 1).to_set() == xs.take(i).to_set().insert(xs[i]),
{
    assert(xs.take(i + 1) =~= xs.take(i).push(xs[i]));
    assert forall|e: Seq<char>| #[trigger] xs.take(i + 1).to_set().contains(e) == xs.take(
        i,
    ).to_set().insert(xs[i]).contains(e) by {
        lemma_to_set_contains(xs.take(i + 1), e);
        lemma_to_set_contains(xs.take(i), e);
        if xs.take(i + 1).to_set().contains(e) {
            let t = xs.take(i + 1);
            let ie = choose|ie: int| 0 <= ie < t.len() && t[ie] == e;
            if ie < i {
                assert(xs.take(i)[ie] == e);
            }
        }
        if e == xs[i] {
            assert(xs.take(i + 1)[i] == e);
        } else if xs.take(i).to_set().contains(e) {
            let t = xs.take(i);
            let ie = choose|ie: int| 0 <= ie < t.len() && t[ie] == e;
            assert(xs.take(i + 1)[ie] == e);
        }
    }
    assert(xs.take(i + 1).to_set() =~= xs.take(i).to_set().insert(xs[i]));
}

/// Merge step: when the current left element sorts below the current right
/// one, it is in neither list's remainder of interest, so every invariant
/// survives moving it into the scanned prefix.
proof fn lemma_merge_advance_left(xs: Seq<Seq<char>>, ys: Seq<Seq<char>>, i: int, j: int)
    requires
        bigrams_sorted(xs),
        bigrams_sorted(ys),
        0 <= i < xs.len(),
        0 <= j < ys.len(),
        lex_cmp(xs[i], ys[j]) == -1,
        xs.skip(i).to_set().intersect(ys.take(j).to_set()) == Set::<Seq<char>>::empty(),
        xs.take(i).to_set().intersect(ys.skip(j).to_set()) == Set::<Seq<char>>::empty(),
    ensures
        xs.take(i + 1).to_set().intersect(ys.take(j).to_set()) == xs.take(i).to_set().intersect(
            ys.take(j).to_set(),
        ),
        xs.take(i + 1).to_set().intersect(ys.skip(j).to_set()) == Set::<Seq<char>>::empty(),
        xs.skip(i + 1).to_set().intersect(ys.take(j).to_set()) == Set::<Seq<char>>::empty(),
{
    let x = xs[i];
    lemma_take_push_to_set(xs, i);
    lemma_merge_not_in_rest(xs, ys, i, j);

    // x is below ys[j], hence below everything remaining in ys
    assert(!ys.skip(j).to_set().contains(x)) by {
        lemma_to_set_contains(ys.skip(j), x);
        if ys.skip(j).contains(x) {
            let t = ys.skip(j);
            let iy = choose|iy: int| 0 <= iy < t.len() && t[iy] == x;
            assert(ys[j + iy] == x);
            if iy > 0 {
                assert(lex_cmp(ys[j], ys[j + iy]) == -1);
                lemma_lex_cmp_antisym(ys[j], x);
                lemma_lex_cmp_trans(ys[j], x, x);
                lemma_lex_cmp_eq(x, x);
            } else {
                lemma_lex_cmp_eq(x, ys[j]);
            }
        }
    }
    assert(xs.take(i + 1).to_set().intersect(ys.take(j).to_set()) =~= xs.take(
        i,
    ).to_set().intersect(ys.take(j).to_set()));
    assert(xs.take(i + 1).to_set().intersect(ys.skip(j).to_set()) =~= Set::<Seq<char>>::empty());
    assert(xs.skip(i + 1).to_set().intersect(ys.take(j).to_set()) =~= Set::<Seq<char>>::empty()) by {
        assert forall|e: Seq<char>| xs.skip(i + 1).to_set().contains(e) implies xs.skip(
            i,
        ).to_set().contains(e) by {
            lemma_to_set_contains(xs.skip(i + 1), e);
            lemma_to_set_contains(xs.skip(i), e);
            let t = xs.skip(i + 1);
            let ie = choose|ie: int| 0 <= ie < t.len() && t[ie] == e;
            assert(xs.skip(i)[ie + 1] == e);
        }
    }
}

/// Merge step: on a match, the shared element joins both scanned prefixes
/// and the intersection grows by exactly one.
proof fn lemma_merge_match(xs: Seq<Seq<char>>, ys: Seq<Seq<char>>, i: int, j: int)
    requires
        bigrams_sorted(xs),
        bigrams_sorted(ys),
        0 <= i < xs.len(),
        0 <= j < ys.len(),
        xs[i] == ys[j],
        xs.skip(i).to_set().intersect(ys.take(j).to_set()) == Set::<Seq<char>>::empty(),
        xs.take(i).to_set().intersect(ys.skip(j).to_set()) == Set::<Seq<char>>::empty(),
    ensures
        xs.take(i + 1).to_set().intersect(ys.take(j + 1).to_set()) == xs.take(
            i,
        ).to_set().intersect(ys.take(j).to_set()).insert(xs[i]),
        !xs.take(i).to_set().intersect(ys.take(j).to_set()).contains(xs[i]),
        xs.take(i + 1).to_set().intersect(ys.skip(j + 1).to_set()) == Set::<Seq<char>>::empty(),
        xs.skip(i + 1).to_set().intersect(ys.take(j + 1).to_set()) == Set::<Seq<char>>::empty(),
{
    let x = xs[i];
    lemma_take_push_to_set(xs, i);
    lemma_take_push_to_set(ys, j);
    lemma_merge_not_in_rest(xs, ys, i, j);
    lemma_intersect_comm(xs.take(i).to_set(), ys.skip(j).to_set());
    lemma_merge_not_in_rest(ys, xs, j, i);

    assert(xs.take(i + 1).to_set().intersect(ys.take(j + 1).to_set()) =~= xs.take(
        i,
    ).to_set().intersect(ys.take(j).to_set()).insert(x));

    // nothing past the match can equal anything at or before it
    assert forall|e: Seq<char>| #[trigger] xs.skip(i + 1).to_set().contains(e) implies !ys.take(
        j + 1,
    ).to_set().contains(e) by {
        lemma_to_set_contains(xs.skip(i + 1), e);
        let t = xs.skip(i + 1);
        let ie = choose|ie: int| 0 <= ie < t.len() && t[ie] == e;
        assert(xs[i + 1 + ie] == e);
        assert(lex_cmp(x, e) == -1);
        lemma_to_set_contains(ys.take(j + 1), e);
        if ys.take(j + 1).to_set().contains(e) {
            let t2 = ys.take(j + 1);
            let iy = choose|iy: int| 0 <= iy < t2.len() && t2[iy] == e;
            if iy == j {
                lemma_lex_cmp_eq(x, e);
            } else {
                assert(lex_cmp(ys[iy], ys[j]) == -1);
                lemma_lex_cmp_antisym(ys[iy], ys[j]);
                lemma_lex_cmp_trans(x, e, ys[j]);
                lemma_lex_cmp_eq(x, ys[j]);
            }
        }
    }
    assert(xs.skip(i + 1).to_set().intersect(ys.take(j + 1).to_set()) =~= Set::<
        Seq<char>,
    >::empty());
    assert forall|e: Seq<char>| #[trigger] ys.skip(j + 1).to_set().contains(e) implies !xs.take(
        i + 1,
    ).to_set().contains(e) by {
        lemma_to_set_contains(ys.skip(j + 1), e);
        let t = ys.skip(j + 1);
        let ie = choose|ie: int| 0 <= ie < t.len() && t[ie] == e;
        assert(ys[j + 1 + ie] == e);
        assert(lex_cmp(ys[j], e) == -1);
        lemma_to_set_contains(xs.take(i + 1), e);
        if xs.take(i + 1).to_set().contains(e) {
            let t2 = xs.take(i + 1);
            let ix = choose|ix: int| 0 <= ix < t2.len() && t2[ix] == e;
            if ix == i {
                lemma_lex_cmp_eq(ys[j], e);
            } else {
                assert(lex_cmp(xs[ix], xs[i]) == -1);
                lemma_lex_cmp_antisym(xs[ix], xs[i]);
                lemma_lex_cmp_trans(ys[j], e, xs[i]);
                lemma_lex_cmp_eq(ys[j], xs[i]);
            }
        }
    }
    assert(xs.take(i + 1).to_set().intersect(ys.skip(j + 1).to_set()) =~= Set::<
        Seq<char>,
    >::empty());
}

/// When one side is fully scanned, the scanned intersection is the whole
/// intersection.
proof fn lemma_intersect_skip_split(xs: Seq<Seq<char>>, ys: Seq<Seq<char>>, j: int)
    requires
        0 <= j <= xs.len(),
        ys.to_set().intersect(xs.skip(j).to_set()) == Set::<Seq<char>>::empty(),
    ensures
        ys.to_set().intersect(xs.take(j).to_set()) == ys.to_set().intersect(xs.to_set()),
{
    assert(ys.to_set().intersect(xs.take(j).to_set()) =~= ys.to_set().intersect(xs.to_set())) by {
        assert forall|e: Seq<char>|
            xs.take(j).to_set().contains(e) implies xs.to_set().contains(e) by {
            lemma_to_set_contains(xs.take(j), e);
            lemma_to_set_contains(xs, e);
            let t = xs.take(j);
            let ie = choose|ie: int| 0 <= ie < t.len() && t[ie] == e;
        }
        assert forall|e: Seq<char>|
            xs.to_set().contains(e) && ys.to_set().contains(e) implies xs.take(
            j,
        ).to_set().contains(e) by {
            lemma_to_set_contains(xs, e);
            let ie = choose|ie: int| 0 <= ie < xs.len() && xs[ie] == e;
            if ie >= j {
                lemma_to_set_contains(xs.skip(j), e);
                assert(xs.skip(j)[ie - j] == e);
                assert(ys.to_set().intersect(xs.skip(j).to_set()).contains(e));
            } else {
                lemma_to_set_contains(xs.take(j), e);
                assert(xs.take(j)[ie] == e);
            }
        }
    }
}

} // verus!
