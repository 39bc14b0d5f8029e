//! Search-key extraction: what an index scan is given for one query.
//!
//! A wildcard query contributes the bigrams of its word spans; a similarity
//! query contributes the bigrams of its whole text. The sorted key list may
//! be capped by configuration, keeping the smallest keys; with no keys at
//! all the scan must fall back to reading the whole index.

use vstd::prelude::*;

use crate::bigram::{bigrams_sorted, lemma_sorted_no_duplicates, lemma_to_set_contains,
    query_bigrams, value_bigrams, BigramList};
use crate::config::Config;
use crate::similarity::value_bigram_set;
use crate::text::{lemma_lex_cmp_eq, lemma_lex_cmp_trans, lex_cmp};
use crate::{BigmError, LIKE_STRATEGY_NUMBER, SIMILARITY_STRATEGY_NUMBER};

verus! {

/// What one query hands to the index scan.
#[derive(Debug)]
pub struct QueryKeys {
    /// The search keys: sorted, duplicate-free bigrams, capped by the
    /// configured key limit.
    pub keys: Vec<String>,
    /// Whether a matching candidate must still be rechecked against the
    /// stored value.
    pub needs_recheck: bool,
    /// Whether the keys can only be matched partially (wildcard query of
    /// fewer than 2 characters).
    pub pmatch: bool,
    /// Whether the scan must read the whole index because no key was
    /// extracted.
    pub scan_all: bool,
}

/// The distinct bigrams a query contributes under the given strategy.
pub open spec fn spec_query_key_set(q: Seq<char>, strategy_number: i16) -> Set<Seq<char>> {
    if strategy_number == LIKE_STRATEGY_NUMBER {
        query_bigrams(q, 0).to_set()
    } else {
        value_bigram_set(q)
    }
}

/// How many keys remain once the configured cap is applied; zero means no
/// cap.
pub open spec fn spec_effective_nkeys(total: nat, limit: int) -> nat {
    if limit == 0 || total <= limit {
        total
    } else {
        limit as nat
    }
}

/// Whether a wildcard match still needs rechecking: it does not only when
/// the query reduces to exactly one bigram, had no repeated bigram, and
/// holds no space, the one case where key presence proves containment. A
/// similarity match always needs the threshold test on the real value.
pub open spec fn spec_needs_recheck(q: Seq<char>, strategy_number: i16) -> bool {
    if strategy_number == LIKE_STRATEGY_NUMBER {
        !(query_bigrams(q, 0).to_set().len() == 1 && query_bigrams(q, 0).no_duplicates()
            && !q.contains(' '))
    } else {
        true
    }
}

/// Extracts the search keys for one query under one strategy: the capped,
/// sorted key list, the recheck and partial-match flags, and the scan-all
/// signal. An unknown strategy number is an error, never a silent default.
pub fn gin_extract_query_bigm(query: &str, strategy_number: i16, config: &Config) -> (r: Result<
    QueryKeys,
    BigmError,
>)
    requires
        config.wf(),
    ensures
        (r is Ok) == (strategy_number == LIKE_STRATEGY_NUMBER || strategy_number
            == SIMILARITY_STRATEGY_NUMBER),
        r is Err ==> r == Err::<QueryKeys, BigmError>(
            BigmError::UnrecognizedStrategy(strategy_number),
        ),
        r matches Ok(k) ==> {
            let qset = spec_query_key_set(query@, strategy_number);
            let kset = k.keys.deep_view().to_set();
            &&& bigrams_sorted(k.keys.deep_view())
            &&& k.keys.deep_view().no_duplicates()
            &&& kset.subset_of(qset)
            &&& k.keys.deep_view().len() == spec_effective_nkeys(
                qset.len(),
                config.gin_key_limit as int,
            )
            &&& (config.gin_key_limit == 0 || qset.len() <= config.gin_key_limit) ==> kset == qset
            &&& (forall|x: Seq<char>, y: Seq<char>|
                #[trigger] qset.contains(x) && !kset.contains(x) && #[trigger] kset.contains(y)
                    ==> lex_cmp(y, x) == -1)
            &&& k.needs_recheck == spec_needs_recheck(query@, strategy_number)
            &&& k.pmatch == (strategy_number == LIKE_STRATEGY_NUMBER && query@.len() < 2)
            &&& k.scan_all == (k.keys.deep_view().len() == 0)
        },
{
    let bigram_list: BigramList;
    let needs_recheck: bool;
    if strategy_number == LIKE_STRATEGY_NUMBER {
        // every potentially matching string must hold all these bigrams
        bigram_list = BigramList::from_query(query);

        // the index test is exact when the query reduces to one bigram
        // without repeats or spaces; only then can the recheck be skipped
        needs_recheck = !(bigram_list.bigrams.len() == 1 && !bigram_list.removed_dups
            && !contains_space(query));
    } else if strategy_number == SIMILARITY_STRATEGY_NUMBER {
        bigram_list = BigramList::from_value(query);
        // key presence is necessary, never sufficient, for the threshold
        needs_recheck = true;
    } else {
        return Err(BigmError::UnrecognizedStrategy(strategy_number));
    }
    let pmatch = bigram_list.pmatch;
    let mut keys = bigram_list.bigrams;
    let ghost full = keys.deep_view();
    let ghost qset = spec_query_key_set(query@, strategy_number);

    let total = keys.len();
    let nkeys: usize;
    if config.gin_key_limit == 0 {
        nkeys = total;
    } else {
        let limit = config.gin_key_limit as usize;
        nkeys = if limit < total {
            limit
        } else {
            total
        };
    }
    keys.truncate(nkeys);
    let scan_all = nkeys == 0;

    proof {
        let kdv = keys.deep_view();
        assert(kdv =~= full.take(nkeys as int));
        let kset = kdv.to_set();
        lemma_sorted_no_duplicates(kdv);
        assert forall|x: Seq<char>| kset.contains(x) implies qset.contains(x) by {
            lemma_to_set_contains(kdv, x);
            let ix = choose|ix: int| 0 <= ix < kdv.len() && kdv[ix] == x;
            assert(full[ix] == x);
            lemma_to_set_contains(full, x);
        }
        if nkeys == total {
            assert(kdv =~= full);
        }
        assert forall|x: Seq<char>, y: Seq<char>|
            #[trigger] qset.contains(x) && !kset.contains(x) && #[trigger] kset.contains(
                y,
            ) implies lex_cmp(y, x) == -1 by {
            lemma_to_set_contains(full, x);
            let ix = choose|ix: int| 0 <= ix < full.len() && full[ix] == x;
            lemma_to_set_contains(kdv, y);
            let iy = choose|iy: int| 0 <= iy < kdv.len() && kdv[iy] == y;
            assert(full[iy] == y);
            if ix < nkeys {
                assert(kdv[ix] == x);
                lemma_to_set_contains(kdv, x);
                assert(false);
            }
            assert(lex_cmp(full[iy], full[ix]) == -1);
        }
    }
    Ok(QueryKeys { keys, needs_recheck, pmatch, scan_all })
}

/// Whether the string holds a space character.
fn contains_space(s: &str) -> (r: bool)
    ensures
        r == s@.contains(' '),
{
    let n = s.unicode_len();
    let mut i: usize = 0;
    while i < n
        invariant
            i <= n,
            n == s@.len(),
            forall|k: int| 0 <= k < i ==> s@[k] != ' ',
        decreases n - i,
    {
        if s.get_char(i) == ' ' {
            proof {
                assert(s@[i as int] == ' ');
            }
            return true;
        }
        i += 1;
    }
    false
}

/// Two strictly sorted key lists over the same key set are the same list.
pub proof fn lemma_sorted_set_unique(a: Seq<Seq<char>>, b: Seq<Seq<char>>)
    requires
        bigrams_sorted(a),
        bigrams_sorted(b),
        a.to_set() == b.to_set(),
    ensures
        a == b,
    decreases a.len(),
{
    if a.len() == 0 {
        if b.len() > 0 {
            lemma_to_set_contains(b, b[0]);
            lemma_to_set_contains(a, b[0]);
            assert(b.to_set().contains(b[0]));
        }
        assert(a =~= b);
    } else {
        if b.len() == 0 {
            lemma_to_set_contains(a, a[0]);
            lemma_to_set_contains(b, a[0]);
            assert(a.to_set().contains(a[0]));
            assert(false);
        }
        // equal minimum: each head is a member of the other list, and
        // anything but the other head would sit strictly above it
        lemma_to_set_contains(a, a[0]);
        lemma_to_set_contains(b, a[0]);
        lemma_to_set_contains(b, b[0]);
        lemma_to_set_contains(a, b[0]);
        assert(b.contains(a[0]));
        assert(a.contains(b[0]));
        let ix = choose|ix: int| 0 <= ix < b.len() && b[ix] == a[0];
        let iy = choose|iy: int| 0 <= iy < a.len() && a[iy] == b[0];
        if a[0] != b[0] {
            assert(ix > 0);
            assert(iy > 0);
            assert(lex_cmp(b[0], b[ix]) == -1);
            assert(lex_cmp(a[0], a[iy]) == -1);
            lemma_lex_cmp_trans(a[0], b[0], a[0]);
            lemma_lex_cmp_eq(a[0], a[0]);
            assert(false);
        }
        let at = a.drop_first();
        let bt = b.drop_first();
        assert(bigrams_sorted(at)) by {
            assert forall|i: int, j: int| 0 <= i < j < at.len() implies lex_cmp(at[i], at[j])
                == -1 by {
                assert(at[i] == a[i + 1] && at[j] == a[j + 1]);
            }
        }
        assert(bigrams_sorted(bt)) by {
            assert forall|i: int, j: int| 0 <= i < j < bt.len() implies lex_cmp(bt[i], bt[j])
                == -1 by {
                assert(bt[i] == b[i + 1] && bt[j] == b[j + 1]);
            }
        }
        assert(at.to_set() =~= bt.to_set()) by {
            assert forall|e: Seq<char>| at.to_set().contains(e) implies bt.to_set().contains(e) by {
                lemma_head_removed_membership(a, b, e);
            }
            assert forall|e: Seq<char>| bt.to_set().contains(e) implies at.to_set().contains(e) by {
                lemma_head_removed_membership(b, a, e);
            }
        }
        lemma_sorted_set_unique(at, bt);
        assert(a =~= b) by {
            assert(forall|i: int| 1 <= i < a.len() ==> a[i] == at[i - 1] && b[i] == bt[i - 1]);
        }
    }
}

/// Helper for the uniqueness lemma: a tail element of one list is a tail
/// element of the other.
proof fn lemma_head_removed_membership(a: Seq<Seq<char>>, b: Seq<Seq<char>>, e: Seq<char>)
    requires
        bigrams_sorted(a),
        bigrams_sorted(b),
        a.len() > 0,
        b.len() > 0,
        a[0] == b[0],
        a.to_set() == b.to_set(),
        a.drop_first().to_set().contains(e),
    ensures
        b.drop_first().to_set().contains(e),
{
    let at = a.drop_first();
    let bt = b.drop_first();
    lemma_to_set_contains(at, e);
    let ie = choose|ie: int| 0 <= ie < at.len() && at[ie] == e;
    assert(a[ie + 1] == e);
    assert(lex_cmp(a[0], e) == -1);
    lemma_to_set_contains(a, e);
    assert(a.to_set().contains(e));
    lemma_to_set_contains(b, e);
    let je = choose|je: int| 0 <= je < b.len() && b[je] == e;
    if je == 0 {
        lemma_lex_cmp_eq(a[0], e);
        assert(false);
    }
    assert(bt[je - 1] == e);
    lemma_to_set_contains(bt, e);
}

/// Round trip of value and query keys: under the similarity strategy, key
/// extraction runs the value extractor itself, so for a value whose padded
/// text repeats no bigram, any uncapped key list it yields is exactly the
/// value's own sorted bigram list.
pub proof fn lemma_query_keys_similarity_round_trip(
    v: Seq<char>,
    query_keys: Seq<Seq<char>>,
    index_keys: Seq<Seq<char>>,
)
    requires
        value_bigrams(v).no_duplicates(),
        bigrams_sorted(query_keys),
        query_keys.to_set() == value_bigram_set(v),
        bigrams_sorted(index_keys),
        index_keys.to_set() == value_bigram_set(v),
    ensures
        query_keys == index_keys,
{
    lemma_sorted_set_unique(query_keys, index_keys);
}

} // verus!
