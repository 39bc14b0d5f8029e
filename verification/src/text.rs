//! Character-level string utilities: lexicographic comparison and escaping
//! of wildcard patterns.
//!
//! Strings are compared character by character, by Unicode scalar value. For
//! UTF-8 encoded text this order coincides with byte order, so it matches the
//! order the host index uses for its keys.

use vstd::prelude::*;

use crate::BigmError;

verus! {

/// Three-way lexicographic comparison of two character sequences:
/// -1, 0 or 1 as `a` sorts before, equal to, or after `b`.
pub open spec fn lex_cmp(a: Seq<char>, b: Seq<char>) -> int
    decreases a.len(),
{
    if a.len() == 0 && b.len() == 0 {
        0
    } else if a.len() == 0 {
        -1
    } else if b.len() == 0 {
        1
    } else if a[0] != b[0] {
        if a[0] < b[0] {
            -1
        } else {
            1
        }
    } else {
        lex_cmp(a.drop_first(), b.drop_first())
    }
}

pub proof fn lemma_lex_cmp_range(a: Seq<char>, b: Seq<char>)
    ensures
        -1 <= lex_cmp(a, b) <= 1,
    decreases a.len(),
{
    if a.len() > 0 && b.len() > 0 && a[0] == b[0] {
        lemma_lex_cmp_range(a.drop_first(), b.drop_first());
    }
}

/// The comparison is an equality test exactly at zero.
pub proof fn lemma_lex_cmp_eq(a: Seq<char>, b: Seq<char>)
    ensures
        lex_cmp(a, b) == 0 <==> a == b,
    decreases a.len(),
{
    if a.len() == 0 && b.len() == 0 {
        assert(a =~= b);
    } else if a.len() > 0 && b.len() > 0 && a[0] == b[0] {
        lemma_lex_cmp_eq(a.drop_first(), b.drop_first());
        if lex_cmp(a, b) == 0 {
            assert(a =~= seq![a[0]] + a.drop_first());
            assert(b =~= seq![b[0]] + b.drop_first());
        }
        if a == b {
            assert(a.drop_first() =~= b.drop_first());
        }
    } else {
        if a == b {
            assert(a.len() == b.len());
        }
    }
}

/// Swapping the arguments flips the sign.
pub proof fn lemma_lex_cmp_antisym(a: Seq<char>, b: Seq<char>)
    ensures
        lex_cmp(a, b) == -lex_cmp(b, a),
    decreases a.len(),
{
    if a.len() > 0 && b.len() > 0 && a[0] == b[0] {
        lemma_lex_cmp_antisym(a.drop_first(), b.drop_first());
    }
}

/// Strict order is transitive.
pub proof fn lemma_lex_cmp_trans(a: Seq<char>, b: Seq<char>, c: Seq<char>)
    requires
        lex_cmp(a, b) == -1,
        lex_cmp(b, c) == -1,
    ensures
        lex_cmp(a, c) == -1,
    decreases a.len(),
{
    lemma_lex_cmp_range(a, b);
    lemma_lex_cmp_range(b, c);
    if a.len() == 0 {
        // b is non-empty, hence c is non-empty, hence lex_cmp(a, c) == -1
        assert(b.len() > 0);
        assert(c.len() > 0);
    } else {
        assert(b.len() > 0);
        assert(c.len() > 0);
        if a[0] == b[0] && b[0] == c[0] {
            lemma_lex_cmp_trans(a.drop_first(), b.drop_first(), c.drop_first());
        }
    }
}

/// Dropping an equal prefix of both sequences keeps the comparison.
pub proof fn lemma_lex_cmp_skip(a: Seq<char>, b: Seq<char>, i: int)
    requires
        0 <= i <= a.len(),
        i <= b.len(),
        forall|k: int| 0 <= k < i ==> a[k] == b[k],
    ensures
        lex_cmp(a, b) == lex_cmp(a.skip(i), b.skip(i)),
    decreases i,
{
    if i > 0 {
        assert(a[0] == b[0]);
        lemma_lex_cmp_skip(a.drop_first(), b.drop_first(), i - 1);
        assert(a.drop_first().skip(i - 1) =~= a.skip(i));
        assert(b.drop_first().skip(i - 1) =~= b.skip(i));
    } else {
        assert(a.skip(0) =~= a);
        assert(b.skip(0) =~= b);
    }
}

/// Three-way comparison of two strings, character by character.
pub fn bigmtextcmp(input1: &str, input2: &str) -> (r: i32)
    ensures
        r == lex_cmp(input1@, input2@),
{
    let n1 = input1.unicode_len();
    let n2 = input2.unicode_len();
    let mut i: usize = 0;
    while i < n1 && i < n2
        invariant
            i <= n1,
            i <= n2,
            n1 == input1@.len(),
            n2 == input2@.len(),
            forall|k: int| 0 <= k < i ==> input1@[k] == input2@[k],
        decreases n1 - i,
    {
        let c1 = input1.get_char(i);
        let c2 = input2.get_char(i);
        if c1 < c2 {
            proof {
                lemma_lex_cmp_skip(input1@, input2@, i as int);
                assert(input1@.skip(i as int)[0] == c1);
                assert(input2@.skip(i as int)[0] == c2);
            }
            return -1;
        } else if c2 < c1 {
            proof {
                lemma_lex_cmp_skip(input1@, input2@, i as int);
                assert(input1@.skip(i as int)[0] == c1);
                assert(input2@.skip(i as int)[0] == c2);
            }
            return 1;
        }
        proof {
            assert(input1@[i as int] == c1 && input2@[i as int] == c2);
        }
        i += 1;
    }
    proof {
        lemma_lex_cmp_skip(input1@, input2@, i as int);
        assert(input1@.skip(i as int).len() == n1 - i);
        assert(input2@.skip(i as int).len() == n2 - i);
    }
    if n1 == n2 {
        0
    } else if n1 < n2 {
        -1
    } else {
        1
    }
}

/// Equality test used for partial-match comparison during an index scan:
/// 0 when the candidate key equals the query key, 1 otherwise.
pub fn gin_bigm_compare_partial(input1: &str, input2: &str) -> (r: i32)
    ensures
        r == if input1@ == input2@ {
            0int
        } else {
            1int
        },
{
    let c = bigmtextcmp(input1, input2);
    proof {
        lemma_lex_cmp_eq(input1@, input2@);
    }
    if c == 0 {
        0
    } else {
        1
    }
}

/// Appends one character to a string.
///
/// Relies on `String::push`: pushes the given character onto the end of the
/// string.
#[verifier::external_body]
pub(crate) fn push_char(s: &mut String, c: char)
    ensures
        final(s)@ == old(s)@.push(c),
{
    s.push(c);
}

/// How one pattern character is written in a `LIKE` pattern: wildcard
/// meta-characters and the escape character get an escape prefix.
pub open spec fn escape_char(c: char) -> Seq<char> {
    if c == '\\' || c == '%' || c == '_' {
        seq!['\\', c]
    } else {
        seq![c]
    }
}

/// `s` with every wildcard meta-character and escape character escaped.
pub open spec fn spec_escaped(s: Seq<char>) -> Seq<char>
    decreases s.len(),
{
    if s.len() == 0 {
        Seq::empty()
    } else {
        escape_char(s[0]) + spec_escaped(s.drop_first())
    }
}

/// The `LIKE` pattern that matches strings containing `s` literally.
pub open spec fn spec_likequery(s: Seq<char>) -> Seq<char> {
    seq!['%'] + spec_escaped(s) + seq!['%']
}

/// Escaping distributes over concatenation.
pub proof fn lemma_escaped_concat(a: Seq<char>, b: Seq<char>)
    ensures
        spec_escaped(a + b) == spec_escaped(a) + spec_escaped(b),
    decreases a.len(),
{
    if a.len() == 0 {
        assert(a + b =~= b);
        assert(spec_escaped(a) + spec_escaped(b) =~= spec_escaped(b));
    } else {
        lemma_escaped_concat(a.drop_first(), b);
        assert((a + b).drop_first() =~= a.drop_first() + b);
        assert(escape_char(a[0]) + (spec_escaped(a.drop_first()) + spec_escaped(b)) =~= (
        escape_char(a[0]) + spec_escaped(a.drop_first())) + spec_escaped(b));
    }
}

/// Turns a search word into a `LIKE` pattern that matches any string
/// containing it: meta-characters are escaped and the result is wrapped in
/// `%` wildcards. An empty word is rejected.
pub fn likequery(query: &str) -> (r: Result<String, BigmError>)
    ensures
        r is Ok <==> query@.len() > 0,
        r matches Ok(s) ==> s@ == spec_likequery(query@),
        r is Err ==> r == Err::<String, BigmError>(BigmError::EmptyQuery),
{
    let n = query.unicode_len();
    if n == 0 {
        return Err(BigmError::EmptyQuery);
    }
    let mut out = String::new();
    push_char(&mut out, '%');
    let mut i: usize = 0;
    while i < n
        invariant
            i <= n,
            n == query@.len(),
            out@ == seq!['%'] + spec_escaped(query@.take(i as int)),
        decreases n - i,
    {
        let c = query.get_char(i);
        if c == '\\' || c == '%' || c == '_' {
            push_char(&mut out, '\\');
        }
        push_char(&mut out, c);
        proof {
            lemma_escaped_concat(query@.take(i as int), seq![query@[i as int]]);
            assert(query@.take(i as int + 1) =~= query@.take(i as int) + seq![query@[i as int]]);
            assert(seq![query@[i as int]].drop_first() =~= Seq::<char>::empty());
            assert(spec_escaped(Seq::<char>::empty()) == Seq::<char>::empty());
            assert(spec_escaped(seq![query@[i as int]]) =~= escape_char(query@[i as int]));
            assert(out@ =~= seq!['%'] + spec_escaped(query@.take(i as int + 1)));
        }
        i += 1;
    }
    push_char(&mut out, '%');
    proof {
        assert(query@.take(n as int) =~= query@);
        assert(out@ =~= spec_likequery(query@));
    }
    Ok(out)
}

} // verus!
