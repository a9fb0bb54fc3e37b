//! Lexicographic ordering of item identifiers, and a verified sort used when
//! a playlist is built from a directory scan.

use vstd::multiset::Multiset;
use vstd::prelude::*;

verus! {

/// Lexicographic "less than or equal" on character sequences, comparing by
/// Unicode code point. On UTF-8 strings this coincides with byte order, so it
/// sorts exactly as the standard library's `str` ordering does.
pub open spec fn lex_le(a: Seq<char>, b: Seq<char>) -> bool
    decreases a.len(),
{
    if a.len() == 0 {
        true
    } else if b.len() == 0 {
        false
    } else if a[0] != b[0] {
        (a[0] as int) < (b[0] as int)
    } else {
        lex_le(a.drop_first(), b.drop_first())
    }
}

/// `lex_le` is total: any two character sequences are comparable.
pub proof fn lemma_lex_le_total(a: Seq<char>, b: Seq<char>)
    ensures
        lex_le(a, b) || lex_le(b, a),
    decreases a.len(),
{
    if a.len() == 0 {
    } else if b.len() == 0 {
    } else if a[0] != b[0] {
    } else {
        lemma_lex_le_total(a.drop_first(), b.drop_first());
    }
}

/// `lex_le` is reflexive.
pub proof fn lemma_lex_le_refl(a: Seq<char>)
    ensures
        lex_le(a, a),
    decreases a.len(),
{
    if a.len() > 0 {
        lemma_lex_le_refl(a.drop_first());
    }
}

/// `lex_le` is transitive.
pub proof fn lemma_lex_le_trans(a: Seq<char>, b: Seq<char>, c: Seq<char>)
    requires
        lex_le(a, b),
        lex_le(b, c),
    ensures
        lex_le(a, c),
    decreases a.len(),
{
    if a.len() == 0 {
    } else if b.len() == 0 {
    } else if c.len() == 0 {
    } else if a[0] == b[0] && b[0] == c[0] {
        lemma_lex_le_trans(a.drop_first(), b.drop_first(), c.drop_first());
    }
}

/// A sequence of character sequences arranged in lexicographic order.
pub open spec fn sorted_lex(s: Seq<Seq<char>>) -> bool {
    forall|i: int, j: int| 0 <= i < j < s.len() ==> lex_le(#[trigger] s[i], #[trigger] s[j])
}

/// Decides `lex_le` on two strings by scanning their characters.
pub fn str_le(a: &str, b: &str) -> (r: bool)
    ensures
        r == lex_le(a@, b@),
{
    let alen = a.unicode_len();
    let blen = b.unicode_len();
    let mut i: usize = 0;
    proof {
        assert(a@.skip(0) =~= a@);
        assert(b@.skip(0) =~= b@);
    }
    loop
        invariant
            i <= alen,
            i <= blen,
            alen == a@.len(),
            blen == b@.len(),
            lex_le(a@, b@) == lex_le(a@.skip(i as int), b@.skip(i as int)),
        decreases alen - i,
    {
        if i == alen {
            return true;
        }
        if i == blen {
            return false;
        }
        let ca = a.get_char(i);
        let cb = b.get_char(i);
        if ca != cb {
            proof {
                assert(a@.skip(i as int)[0] == ca);
                assert(b@.skip(i as int)[0] == cb);
                assert(ca as u32 == ca as int);
                assert(cb as u32 == cb as int);
            }
            return (ca as u32) < (cb as u32);
        }
        proof {
            assert(a@.skip(i as int).drop_first() =~= a@.skip(i + 1));
            assert(b@.skip(i as int).drop_first() =~= b@.skip(i + 1));
        }
        i = i + 1;
    }
}

/// Sorts a vector of strings into lexicographic order by repeatedly moving
/// the least remaining string to the output; the result holds exactly the
/// strings that were put in.
pub fn sort_strings(input: Vec<String>) -> (r: Vec<String>)
    ensures
        r@.len() == input@.len(),
        r.deep_view().to_multiset() == input.deep_view().to_multiset(),
        sorted_lex(r.deep_view()),
{
    broadcast use vstd::seq_lib::group_to_multiset_ensures;
    broadcast use vstd::multiset::group_multiset_axioms;
    broadcast use vstd::multiset::lemma_multiset_empty_len;

    let ghost orig = input.deep_view();
    let mut inp = input;
    let mut out: Vec<String> = Vec::new();
    proof {
        assert(out.deep_view() =~= Seq::<Seq<char>>::empty());
        assert(out.deep_view().to_multiset().len() == 0);
        assert(out.deep_view().to_multiset() =~= Multiset::<Seq<char>>::empty());
        assert(out.deep_view().to_multiset().add(inp.deep_view().to_multiset())
            =~= inp.deep_view().to_multiset());
    }
    while inp.len() > 0
        invariant
            out@.len() + inp@.len() == orig.len(),
            out.deep_view().to_multiset().add(inp.deep_view().to_multiset()) == orig.to_multiset(),
            sorted_lex(out.deep_view()),
            forall|oi: int, ii: int|
                0 <= oi < out@.len() && 0 <= ii < inp@.len() ==> lex_le(
                    #[trigger] out.deep_view()[oi],
                    #[trigger] inp.deep_view()[ii],
                ),
        decreases inp@.len(),
    {
        let ghost iviews = inp.deep_view();
        proof {
            assert(forall|t: int| 0 <= t < inp@.len() ==> #[trigger] iviews[t] == inp@[t]@);
        }
        // find the least remaining string
        let mut m: usize = 0;
        let mut j: usize = 1;
        proof {
            lemma_lex_le_refl(iviews[0]);
        }
        while j < inp.len()
            invariant
                m < j <= inp@.len(),
                iviews == inp.deep_view(),
                forall|t: int| 0 <= t < inp@.len() ==> #[trigger] iviews[t] == inp@[t]@,
                forall|t: int| 0 <= t < j ==> lex_le(iviews[m as int], #[trigger] iviews[t]),
            decreases inp@.len() - j,
        {
            if str_le(inp[j].as_str(), inp[m].as_str()) {
                proof {
                    lemma_lex_le_refl(iviews[j as int]);
                    assert forall|t: int| 0 <= t < j implies lex_le(
                        iviews[j as int],
                        #[trigger] iviews[t],
                    ) by {
                        lemma_lex_le_trans(iviews[j as int], iviews[m as int], iviews[t]);
                    }
                }
                m = j;
            } else {
                proof {
                    lemma_lex_le_total(iviews[j as int], iviews[m as int]);
                }
            }
            j = j + 1;
        }
        let ghost prev = inp@;
        let ghost outv_pre = out.deep_view();
        let x = inp.remove(m);
        out.push(x);
        proof {
            prev.remove_ensures(m as int);
            iviews.remove_ensures(m as int);
            assert(x@ == iviews[m as int]);
            // string views distribute over the removal and the push
            assert(inp.deep_view() =~= iviews.remove(m as int)) by {
                assert forall|t: int| 0 <= t < inp@.len() implies #[trigger] inp.deep_view()[t]
                    == iviews.remove(m as int)[t] by {
                    assert(inp.deep_view()[t] == inp@[t]@);
                }
            }
            assert(out.deep_view() =~= outv_pre.push(x@)) by {
                assert(forall|t: int| 0 <= t < out@.len() ==> #[trigger] out.deep_view()[t]
                    == out@[t]@);
            }
        }
        proof {
            broadcast use vstd::seq_lib::group_to_multiset_ensures;
            broadcast use vstd::multiset::group_multiset_axioms;

            // the multiset balance is kept: x moved from one side to the other
            assert(iviews.contains(iviews[m as int]));
            assert(iviews.remove(m as int).to_multiset()
                == iviews.to_multiset().remove(iviews[m as int]));
            assert(outv_pre.push(x@).to_multiset() == outv_pre.to_multiset().insert(x@));
            assert(out.deep_view().to_multiset().add(inp.deep_view().to_multiset())
                =~= outv_pre.to_multiset().add(iviews.to_multiset()));
            // the output stays sorted: x is at least every string already out
            assert forall|j1: int, j2: int| 0 <= j1 < j2 < out@.len() implies lex_le(
                #[trigger] out.deep_view()[j1],
                #[trigger] out.deep_view()[j2],
            ) by {
                if j2 == out@.len() - 1 {
                    assert(out.deep_view()[j1] == outv_pre[j1]);
                    assert(out.deep_view()[j2] == x@);
                } else {
                    assert(out.deep_view()[j1] == outv_pre[j1]);
                    assert(out.deep_view()[j2] == outv_pre[j2]);
                }
            }
            // and x is at most every string still in
            assert forall|oi: int, ii: int|
                0 <= oi < out@.len() && 0 <= ii < inp@.len() implies lex_le(
                #[trigger] out.deep_view()[oi],
                #[trigger] inp.deep_view()[ii],
            ) by {
                assert(inp.deep_view()[ii] == iviews.remove(m as int)[ii]);
                if oi == out@.len() - 1 {
                    assert(out.deep_view()[oi] == x@);
                } else {
                    assert(out.deep_view()[oi] == outv_pre[oi]);
                }
            }
        }
    }
    proof {
        assert(inp.deep_view() =~= Seq::<Seq<char>>::empty());
        assert(inp.deep_view().to_multiset().len() == 0);
        assert(inp.deep_view().to_multiset() =~= Multiset::<Seq<char>>::empty());
        assert(out.deep_view().to_multiset() =~= orig.to_multiset());
        assert(orig.len() == input@.len());
    }
    out
}

} // verus!
