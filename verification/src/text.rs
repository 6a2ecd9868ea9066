//! Case-folded text matching: the fold wrapper, whitespace tokenization,
//! non-overlapping substring occurrence counting, and per-message scoring.

use vstd::prelude::*;
use vstd::std_specs::iter::IteratorSpec;

verus! {

broadcast use vstd::string::group_string_axioms;

/// The characters of a string slice, in order.
pub fn chars_of(s: &str) -> (r: Vec<char>)
    ensures
        r@ == s@,
{
    let mut it = s.chars();
    let mut out: Vec<char> = Vec::new();
    proof {
        assert(out@ + it.remaining() =~= s@);
    }
    loop
        invariant_except_break
            it.obeys_prophetic_iter_laws(),
            it.decrease() is Some,
            out@ + it.remaining() == s@,
        ensures
            out@ == s@,
        decreases it.decrease()->0,
    {
        let nxt = it.next();
        match nxt {
            Some(c) => {
                out.push(c);
                proof {
                    assert(out@ + it.remaining() =~= s@);
                }
            },
            None => {
                proof {
                    assert(out@ =~= s@);
                }
                break ;
            },
        }
    }
    out
}

/// What `str::to_lowercase` returns for a piece of text, as UTF-8 bytes.
/// The result is a function of the characters alone.
pub uninterp spec fn lower_of(s: Seq<char>) -> Seq<u8>;

/// Relies on `str::to_lowercase` (and `String::into_bytes`): case-folds the
/// text; the result depends on the characters alone.
#[verifier::external_body]
pub fn fold_chars(s: &Vec<char>) -> (r: Vec<u8>)
    ensures
        r@ == lower_of(s@),
{
    let text: String = s.iter().collect();
    text.to_lowercase().into_bytes()
}

/// ASCII whitespace recognized by the query tokenizer.
pub open spec fn is_ws(b: u8) -> bool {
    b == 32u8 || b == 9u8 || b == 10u8 || b == 11u8 || b == 12u8 || b == 13u8
}

fn is_ws_byte(b: u8) -> (r: bool)
    ensures
        r == is_ws(b),
{
    b == 32u8 || b == 9u8 || b == 10u8 || b == 11u8 || b == 12u8 || b == 13u8
}

/// The tokens remaining when scanning `s` from position `i`, with `cur` the
/// partial token read so far and `acc` the tokens already finished.
pub open spec fn split_ws_from(s: Seq<u8>, i: int, cur: Seq<u8>, acc: Seq<Seq<u8>>) -> Seq<
    Seq<u8>,
>
    decreases s.len() - i,
{
    if i < 0 || i >= s.len() {
        if cur.len() > 0 {
            acc.push(cur)
        } else {
            acc
        }
    } else if is_ws(s[i]) {
        if cur.len() > 0 {
            split_ws_from(s, i + 1, Seq::empty(), acc.push(cur))
        } else {
            split_ws_from(s, i + 1, cur, acc)
        }
    } else {
        split_ws_from(s, i + 1, cur.push(s[i]), acc)
    }
}

/// The whitespace-separated tokens of `s`, in order, each nonempty.
pub open spec fn tokens_of(s: Seq<u8>) -> Seq<Seq<u8>> {
    split_ws_from(s, 0, Seq::empty(), Seq::empty())
}

/// Splits `s` on ASCII whitespace; returns exactly the tokens of `s`.
pub fn tokenize(s: &Vec<u8>) -> (r: Vec<Vec<u8>>)
    ensures
        r.deep_view() == tokens_of(s@),
{
    let mut acc: Vec<Vec<u8>> = Vec::new();
    let mut cur: Vec<u8> = Vec::new();
    let mut i: usize = 0;
    proof {
        assert(acc.deep_view() =~= Seq::<Seq<u8>>::empty());
    }
    while i < s.len()
        invariant
            i <= s@.len(),
            tokens_of(s@) == split_ws_from(s@, i as int, cur@, acc.deep_view()),
        decreases s@.len() - i,
    {
        let ghost acc0 = acc.deep_view();
        let ghost accv0 = acc@;
        let ghost cur0 = cur@;
        let b = s[i];
        if is_ws_byte(b) {
            if cur.len() > 0 {
                acc.push(cur);
                cur = Vec::new();
                proof {
                    assert forall|x: int| 0 <= x < acc.deep_view().len() implies acc.deep_view()[x]
                        == acc0.push(cur0)[x] by {
                        if x < acc0.len() {
                            assert(acc@[x] == accv0[x]);
                        }
                    }
                    assert(acc.deep_view() =~= acc0.push(cur0));
                }
            }
        } else {
            cur.push(b);
        }
        i = i + 1;
    }
    if cur.len() > 0 {
        let ghost acc0 = acc.deep_view();
        let ghost accv0 = acc@;
        let ghost cur0 = cur@;
        acc.push(cur);
        proof {
            assert forall|x: int| 0 <= x < acc.deep_view().len() implies acc.deep_view()[x]
                == acc0.push(cur0)[x] by {
                if x < acc0.len() {
                    assert(acc@[x] == accv0[x]);
                }
            }
            assert(acc.deep_view() =~= acc0.push(cur0));
        }
    }
    acc
}

/// The number of non-overlapping, leftmost-first occurrences of `n` in `h`;
/// zero when `n` is empty.
pub open spec fn occ_count(h: Seq<u8>, n: Seq<u8>) -> nat
    decreases h.len(),
{
    if n.len() == 0 || h.len() < n.len() {
        0
    } else if h.subrange(0, n.len() as int) == n {
        1 + occ_count(h.skip(n.len() as int), n)
    } else {
        occ_count(h.skip(1), n)
    }
}

/// An occurrence consumes at least one byte, so the count is bounded by the
/// haystack's length.
pub proof fn lemma_occ_le_len(h: Seq<u8>, n: Seq<u8>)
    ensures
        occ_count(h, n) <= h.len(),
    decreases h.len(),
{
    if n.len() == 0 || h.len() < n.len() {
    } else if h.subrange(0, n.len() as int) == n {
        lemma_occ_le_len(h.skip(n.len() as int), n);
    } else {
        lemma_occ_le_len(h.skip(1), n);
    }
}

/// Whether `n` occurs in `h` starting at byte `i`.
fn matches_at(h: &Vec<u8>, n: &Vec<u8>, i: usize) -> (r: bool)
    requires
        i + n.len() <= h.len(),
    ensures
        r == (h@.subrange(i as int, i as int + n@.len() as int) == n@),
{
    let ghost sub = h@.subrange(i as int, i as int + n@.len() as int);
    let mut k: usize = 0;
    while k < n.len()
        invariant
            i + n.len() <= h.len(),
            k <= n@.len(),
            sub == h@.subrange(i as int, i as int + n@.len() as int),
            forall|j: int| 0 <= j < k ==> sub[j] == n@[j],
        decreases n@.len() - k,
    {
        if h[i + k] != n[k] {
            proof {
                assert(sub[k as int] == h@[i + k]);
                assert(sub != n@) by {
                    if sub == n@ {
                        assert(sub[k as int] == n@[k as int]);
                    }
                }
            }
            return false;
        }
        k = k + 1;
    }
    proof {
        assert(sub =~= n@);
    }
    true
}

/// Counts the non-overlapping occurrences of `n` in `h`, scanning left to
/// right, exactly as [`occ_count`] states.
pub fn count_occurrences(h: &Vec<u8>, n: &Vec<u8>) -> (r: usize)
    ensures
        r == occ_count(h@, n@),
        r <= h@.len(),
{
    proof {
        lemma_occ_le_len(h@, n@);
    }
    if n.len() == 0 || h.len() < n.len() {
        return 0;
    }
    let mut i: usize = 0;
    let mut count: usize = 0;
    proof {
        assert(h@.skip(0) =~= h@);
    }
    while n.len() <= h.len() - i
        invariant
            1 <= n@.len(),
            i <= h@.len(),
            count <= i,
            occ_count(h@, n@) == count + occ_count(h@.skip(i as int), n@),
        decreases h@.len() - i,
    {
        let ghost rest = h@.skip(i as int);
        proof {
            assert(rest.subrange(0, n@.len() as int) =~= h@.subrange(
                i as int,
                i as int + n@.len() as int,
            ));
        }
        if matches_at(h, n, i) {
            proof {
                assert(rest.skip(n@.len() as int) =~= h@.skip(i as int + n@.len() as int));
                lemma_occ_le_len(h@.skip(i as int + n@.len() as int), n@);
            }
            count = count + 1;
            i = i + n.len();
        } else {
            proof {
                assert(rest.skip(1) =~= h@.skip(i as int + 1));
            }
            i = i + 1;
        }
    }
    proof {
        assert(h@.skip(i as int).len() < n@.len());
        assert(occ_count(h@.skip(i as int), n@) == 0);
    }
    count
}

/// Total relevance of a message's folded content against the query's folded
/// tokens: the sum over the tokens of their occurrence counts.
pub open spec fn score_of(c: Seq<u8>, terms: Seq<Seq<u8>>) -> nat
    decreases terms.len(),
{
    if terms.len() == 0 {
        0
    } else {
        score_of(c, terms.drop_last()) + occ_count(c, terms.last())
    }
}

/// The score of any content against any terms fits comfortably in `u128`.
pub proof fn lemma_score_bound(c: Seq<u8>, terms: Seq<Seq<u8>>)
    ensures
        score_of(c, terms) <= terms.len() * c.len(),
    decreases terms.len(),
{
    if terms.len() == 0 {
    } else {
        lemma_score_bound(c, terms.drop_last());
        lemma_occ_le_len(c, terms.last());
        assert(terms.len() * c.len() == (terms.len() - 1) * c.len() + c.len())
            by (nonlinear_arith);
    }
}

/// Computes [`score_of`] exactly; never overflows.
pub fn score_bytes(c: &Vec<u8>, terms: &Vec<Vec<u8>>) -> (r: u128)
    ensures
        r == score_of(c@, terms.deep_view()),
{
    let ghost tv = terms.deep_view();
    let mut acc: u128 = 0;
    let mut j: usize = 0;
    while j < terms.len()
        invariant
            tv == terms.deep_view(),
            tv.len() == terms@.len(),
            j <= terms@.len(),
            acc == score_of(c@, tv.take(j as int)),
        decreases terms@.len() - j,
    {
        let cnt = count_occurrences(c, &terms[j]);
        proof {
            lemma_score_bound(c@, tv.take(j as int));
            assert(terms.len() == tv.len());
            assert(c.len() == c@.len());
            let jl = j as int;
            let cl = c@.len() as int;
            assert(acc + cnt <= (jl + 1) * cl) by (nonlinear_arith)
                requires
                    acc <= jl * cl,
                    cnt <= cl,
                    0 <= jl,
                    0 <= cl,
            ;
            assert((jl + 1) * cl < 0x100000000000000000000000000000000) by (nonlinear_arith)
                requires
                    0 <= jl + 1 <= 0x10000000000000000,
                    0 <= cl <= 0xffffffffffffffff,
            ;
        }
        acc = acc + cnt as u128;
        proof {
            assert(tv.take(j + 1).drop_last() =~= tv.take(j as int));
            assert(tv.take(j + 1).last() == tv[j as int]);
            assert(terms@[j as int]@ == tv[j as int]);
        }
        j = j + 1;
    }
    proof {
        assert(tv.take(terms@.len() as int) =~= tv);
    }
    acc
}

/// Whether any query token occurs in the folded content.
pub open spec fn spec_has_match(c: Seq<u8>, terms: Seq<Seq<u8>>) -> bool {
    exists|k: int| 0 <= k < terms.len() && occ_count(c, terms[k]) > 0
}

/// Decides [`spec_has_match`] exactly.
pub fn has_match(c: &Vec<u8>, terms: &Vec<Vec<u8>>) -> (r: bool)
    ensures
        r == spec_has_match(c@, terms.deep_view()),
{
    let ghost tv = terms.deep_view();
    let mut j: usize = 0;
    while j < terms.len()
        invariant
            tv == terms.deep_view(),
            tv.len() == terms@.len(),
            j <= terms@.len(),
            forall|k: int| 0 <= k < j ==> occ_count(c@, #[trigger] tv[k]) == 0,
        decreases terms@.len() - j,
    {
        let cnt = count_occurrences(c, &terms[j]);
        proof {
            assert(terms@[j as int]@ == tv[j as int]);
        }
        if cnt > 0 {
            return true;
        }
        j = j + 1;
    }
    false
}

} // verus!
