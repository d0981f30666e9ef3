//! Laws of the classifier, stated and proved once for every corpus and
//! every query.

use vstd::prelude::*;

use crate::corpus::{spec_labels, spec_vocab, split_lines, Model};
use crate::ngram::{views, GramKind};
use crate::scorer::{
    insert_ranked, label_count, query_grams, ranked, ranked_upto, ranks_before, score_den,
    score_ge, score_num, score_valid, spec_classify,
};

verus! {

/// A ranking is sorted when no later entry strictly precedes an earlier one.
pub open spec fn ranking_sorted(m: Model, qg: Seq<Seq<u8>>, s: Seq<int>) -> bool {
    forall|i: int, j: int| 0 <= i < j < s.len() ==> !ranks_before(m, qg, s[j], s[i])
}

/// No two labels strictly precede each other.
proof fn lemma_ranks_before_asymmetric(m: Model, qg: Seq<Seq<u8>>, a: int, b: int)
    ensures
        !(ranks_before(m, qg, a, b) && ranks_before(m, qg, b, a)),
{
}

/// Rational comparison chains across a positive middle denominator.
proof fn lemma_rat_trans(na: int, da: int, nb: int, db: int, nc: int, dc: int)
    requires
        da > 0,
        db > 0,
        dc > 0,
        na * db >= nb * da,
        nb * dc >= nc * db,
    ensures
        na * dc >= nc * da,
        na * db > nb * da || nb * dc > nc * db ==> na * dc > nc * da,
{
    assert(na * dc >= nc * da) by (nonlinear_arith)
        requires
            da > 0,
            db > 0,
            dc > 0,
            na * db >= nb * da,
            nb * dc >= nc * db,
    ;
    if na * db > nb * da || nb * dc > nc * db {
        assert(na * dc > nc * da) by (nonlinear_arith)
            requires
                da > 0,
                db > 0,
                dc > 0,
                na * db >= nb * da,
                nb * dc >= nc * db,
                na * db > nb * da || nb * dc > nc * db,
        ;
    }
}

/// The ranking order is transitive among labels with positive score
/// denominators.
proof fn lemma_ranks_before_trans(m: Model, qg: Seq<Seq<u8>>, a: int, b: int, c: int)
    requires
        score_den(m, qg, a) > 0,
        score_den(m, qg, b) > 0,
        score_den(m, qg, c) > 0,
        ranks_before(m, qg, a, b),
        ranks_before(m, qg, b, c),
    ensures
        ranks_before(m, qg, a, c),
{
    let na = score_num(m, qg, a);
    let da = score_den(m, qg, a);
    let nb = score_num(m, qg, b);
    let db = score_den(m, qg, b);
    let nc = score_num(m, qg, c);
    let dc = score_den(m, qg, c);
    lemma_rat_trans(na, da, nb, db, nc, dc);
    if na * db == nb * da && nb * dc == nc * db {
        lemma_rat_trans(nc, dc, nb, db, na, da);
        assert(a < b && b < c);
    }
}

/// A valid score has a positive denominator.
proof fn lemma_valid_den_pos(m: Model, qg: Seq<Seq<u8>>, l: int)
    requires
        score_valid(m, qg, l),
    ensures
        score_den(m, qg, l) > 0,
{
}

/// What inserting a label into a sorted ranking of valid labels yields: one
/// entry more, the same entries plus the new one, still sorted, and still
/// free of duplicates when the label is new.
proof fn lemma_insert_ranked_props(m: Model, qg: Seq<Seq<u8>>, s: Seq<int>, x: int)
    requires
        ranking_sorted(m, qg, s),
        forall|k: int| 0 <= k < s.len() ==> score_valid(m, qg, #[trigger] s[k]),
        score_valid(m, qg, x),
    ensures
        insert_ranked(m, qg, s, x).len() == s.len() + 1,
        forall|y: int| #[trigger]
            insert_ranked(m, qg, s, x).contains(y) <==> (s.contains(y) || y == x),
        ranking_sorted(m, qg, insert_ranked(m, qg, s, x)),
        forall|k: int|
            0 <= k < insert_ranked(m, qg, s, x).len() ==> score_valid(
                m,
                qg,
                #[trigger] insert_ranked(m, qg, s, x)[k],
            ),
        s.no_duplicates() && !s.contains(x) ==> insert_ranked(m, qg, s, x).no_duplicates(),
    decreases s.len(),
{
    let r = insert_ranked(m, qg, s, x);
    if s.len() == 0 {
        assert(r =~= seq![x]);
        assert(forall|y: int| r.contains(y) ==> y == x);
        assert(r.contains(x)) by {
            assert(r[0] == x);
        }
    } else if ranks_before(m, qg, x, s[0]) {
        assert(r =~= seq![x] + s);
        assert(forall|y: int| #[trigger] s.contains(y) ==> r.contains(y)) by {
            assert(forall|k: int| 0 <= k < s.len() ==> r[k + 1] == s[k]);
        }
        assert(r.contains(x)) by {
            assert(r[0] == x);
        }
        assert(forall|y: int| #[trigger] r.contains(y) ==> (s.contains(y) || y == x)) by {
            assert(forall|k: int| 1 <= k < r.len() ==> r[k] == s[k - 1]);
        }
        // sorted: nothing in `s` precedes `x`
        assert(forall|j: int| 1 <= j < r.len() ==> !ranks_before(m, qg, #[trigger] r[j], x)) by {
            assert forall|j: int| 1 <= j < r.len() implies !ranks_before(m, qg, #[trigger] r[j], x) by {
                if ranks_before(m, qg, r[j], x) {
                    lemma_valid_den_pos(m, qg, x);
                    lemma_valid_den_pos(m, qg, s[0]);
                    lemma_valid_den_pos(m, qg, s[j - 1]);
                    lemma_ranks_before_trans(m, qg, s[j - 1], x, s[0]);
                    if j == 1 {
                        lemma_ranks_before_asymmetric(m, qg, x, s[0]);
                    }
                }
            }
        }
        assert(ranking_sorted(m, qg, r)) by {
            assert(forall|i: int, j: int|
                1 <= i < j < r.len() ==> !ranks_before(m, qg, #[trigger] r[j], #[trigger] r[i]));
        }
        if s.no_duplicates() && !s.contains(x) {
            assert(r.no_duplicates()) by {
                assert(forall|k: int| 1 <= k < r.len() ==> r[k] == s[k - 1]);
                assert forall|i: int, j: int| 0 <= i < j < r.len() implies r[i] != r[j] by {
                    if i == 0 {
                        assert(s.contains(s[j - 1]));
                    }
                }
            }
        }
    } else {
        let t = s.drop_first();
        assert(forall|k: int| 0 <= k < t.len() ==> t[k] == s[k + 1]);
        let ri = insert_ranked(m, qg, t, x);
        assert(ranking_sorted(m, qg, t));
        lemma_insert_ranked_props(m, qg, t, x);
        assert(r =~= seq![s[0]] + ri);
        assert(forall|k: int| 0 <= k < ri.len() ==> r[k + 1] == ri[k]);
        assert(r[0] == s[0]);
        // membership
        assert(forall|y: int| #[trigger] r.contains(y) ==> (s.contains(y) || y == x)) by {
            assert forall|y: int| #[trigger] r.contains(y) implies (s.contains(y) || y == x) by {
                let k = choose|k: int| 0 <= k < r.len() && r[k] == y;
                if k == 0 {
                    assert(s.contains(s[0]));
                } else {
                    assert(ri.contains(r[k])) by {
                        assert(ri[k - 1] == r[k]);
                    }
                    if t.contains(y) {
                        let k2 = choose|k2: int| 0 <= k2 < t.len() && t[k2] == y;
                        assert(s.contains(s[k2 + 1]));
                    }
                }
            }
        }
        assert(forall|y: int| (s.contains(y) || y == x) ==> #[trigger] r.contains(y)) by {
            assert forall|y: int| (s.contains(y) || y == x) implies #[trigger] r.contains(y) by {
                if y == x {
                    assert(ri.contains(x));
                    let k = choose|k: int| 0 <= k < ri.len() && ri[k] == x;
                    assert(r[k + 1] == x);
                } else {
                    let k = choose|k: int| 0 <= k < s.len() && s[k] == y;
                    if k == 0 {
                        assert(r[0] == y);
                    } else {
                        assert(t.contains(t[k - 1]));
                        assert(ri.contains(y));
                        let k2 = choose|k2: int| 0 <= k2 < ri.len() && ri[k2] == y;
                        assert(r[k2 + 1] == y);
                    }
                }
            }
        }
        // sorted: the head precedes nothing that follows it
        assert(ranking_sorted(m, qg, r)) by {
            assert forall|i: int, j: int|
                0 <= i < j < r.len() implies !ranks_before(m, qg, r[j], r[i]) by {
                if i == 0 {
                    assert(ri.contains(r[j])) by {
                        assert(ri[j - 1] == r[j]);
                    }
                    if r[j] == x {
                        assert(!ranks_before(m, qg, x, s[0]));
                    } else {
                        assert(t.contains(r[j]));
                        let k2 = choose|k2: int| 0 <= k2 < t.len() && t[k2] == r[j];
                        assert(s[k2 + 1] == r[j]);
                        assert(!ranks_before(m, qg, s[k2 + 1], s[0]));
                    }
                } else {
                    assert(!ranks_before(m, qg, ri[j - 1], ri[i - 1]));
                }
            }
        }
        // validity of every entry
        assert(forall|k: int|
            0 <= k < r.len() ==> score_valid(m, qg, #[trigger] r[k])) by {
            assert(forall|k: int| 1 <= k < r.len() ==> r[k] == ri[k - 1]);
        }
        if s.no_duplicates() && !s.contains(x) {
            assert(t.no_duplicates());
            assert(!t.contains(x)) by {
                if t.contains(x) {
                    let k = choose|k: int| 0 <= k < t.len() && t[k] == x;
                    assert(s.contains(s[k + 1]));
                }
            }
            assert(ri.no_duplicates());
            assert(r.no_duplicates()) by {
                assert forall|i: int, j: int| 0 <= i < j < r.len() implies r[i] != r[j] by {
                    if i == 0 {
                        assert(ri.contains(r[j])) by {
                            assert(ri[j - 1] == r[j]);
                        }
                        if r[j] == s[0] {
                            assert(s[0] != x);
                            assert(t.contains(s[0]));
                            let k = choose|k: int| 0 <= k < t.len() && t[k] == s[0];
                            assert(s.contains(s[k + 1]));
                            assert(s[k + 1] == s[0]);
                        }
                    } else {
                        assert(ri[i - 1] != ri[j - 1]);
                    }
                }
            }
        }
    }
}

/// What the ranking of the first `n` labels holds: at most `n` entries, each
/// a distinct valid label index below `n`, sorted by the ranking order, and
/// holding every valid label below `n`.
pub proof fn lemma_ranked_upto_props(m: Model, qg: Seq<Seq<u8>>, n: int)
    requires
        0 <= n,
    ensures
        ranked_upto(m, qg, n).len() <= n,
        ranking_sorted(m, qg, ranked_upto(m, qg, n)),
        forall|k: int|
            0 <= k < ranked_upto(m, qg, n).len() ==> {
                let l = #[trigger] ranked_upto(m, qg, n)[k];
                0 <= l < n && score_valid(m, qg, l)
            },
        ranked_upto(m, qg, n).no_duplicates(),
        forall|l: int|
            0 <= l < n ==> (#[trigger] ranked_upto(m, qg, n).contains(l) <==> score_valid(
                m,
                qg,
                l,
            )),
    decreases n,
{
    if n > 0 {
        lemma_ranked_upto_props(m, qg, n - 1);
        let r0 = ranked_upto(m, qg, n - 1);
        let r = ranked_upto(m, qg, n);
        if score_valid(m, qg, n - 1) {
            assert(!r0.contains(n - 1)) by {
                if r0.contains(n - 1) {
                    let k = choose|k: int| 0 <= k < r0.len() && r0[k] == n - 1;
                }
            }
            lemma_insert_ranked_props(m, qg, r0, n - 1);
            assert(forall|l: int|
                0 <= l < n ==> (#[trigger] r.contains(l) <==> score_valid(m, qg, l))) by {
                assert(r.contains(n - 1));
                assert(forall|l: int| 0 <= l < n - 1 ==> (r.contains(l) <==> r0.contains(l)));
            }
            assert(forall|k: int|
                0 <= k < r.len() ==> {
                    let l = #[trigger] r[k];
                    0 <= l < n && score_valid(m, qg, l)
                }) by {
                assert forall|k: int| 0 <= k < r.len() implies 0 <= r[k] < n && score_valid(
                    m,
                    qg,
                    r[k],
                ) by {
                    assert(r.contains(r[k]));
                }
            }
        } else {
            assert(r == r0);
            assert(forall|l: int|
                0 <= l < n ==> (#[trigger] r.contains(l) <==> score_valid(m, qg, l))) by {
                if r.contains(n - 1) {
                    let k = choose|k: int| 0 <= k < r.len() && r[k] == n - 1;
                }
            }
        }
    }
}

/// A classification returns at most ten labels, and never more labels than
/// the label set holds.
pub proof fn lemma_classify_cardinality(m: Model, q: Seq<u8>)
    ensures
        spec_classify(m, q).len() <= 10,
        spec_classify(m, q).len() <= m.labels@.len(),
{
    let qg = query_grams(m, q);
    lemma_ranked_upto_props(m, qg, m.labels@.len() as int);
}

/// Every returned label is a member of the label set.
pub proof fn lemma_classify_subset(m: Model, q: Seq<u8>)
    ensures
        forall|k: int|
            0 <= k < spec_classify(m, q).len() ==> views(m.labels@).contains(
                #[trigger] spec_classify(m, q)[k],
            ),
{
    let qg = query_grams(m, q);
    lemma_ranked_upto_props(m, qg, m.labels@.len() as int);
    let r = ranked(m, qg);
    let res = spec_classify(m, q);
    assert forall|k: int| 0 <= k < res.len() implies views(m.labels@).contains(res[k]) by {
        assert(res[k] == views(m.labels@)[r[k]]);
    }
}

/// Returned labels come in weakly descending score order: the result is the
/// ranking's prefix read off label by label, and every earlier ranked label
/// scores at least as high as every later one.
pub proof fn lemma_classify_descending(m: Model, q: Seq<u8>)
    ensures
        forall|i: int, j: int|
            0 <= i < j < ranked(m, query_grams(m, q)).len() ==> score_ge(
                m,
                query_grams(m, q),
                ranked(m, query_grams(m, q))[i],
                ranked(m, query_grams(m, q))[j],
            ),
        forall|k: int|
            0 <= k < spec_classify(m, q).len() ==> #[trigger] spec_classify(m, q)[k] == views(
                m.labels@,
            )[ranked(m, query_grams(m, q))[k]],
{
    let qg = query_grams(m, q);
    lemma_ranked_upto_props(m, qg, m.labels@.len() as int);
    let r = ranked(m, qg);
    assert forall|i: int, j: int| 0 <= i < j < r.len() implies score_ge(m, qg, r[i], r[j]) by {
        assert(!ranks_before(m, qg, r[j], r[i]));
    }
}

/// Only labels whose score is a valid value are ranked: a score of exactly
/// zero, an infinite score and an undefined score never appear, however
/// high they would rank.
pub proof fn lemma_classify_valid_scores(m: Model, q: Seq<u8>)
    ensures
        forall|k: int|
            0 <= k < ranked(m, query_grams(m, q)).len() ==> score_valid(
                m,
                query_grams(m, q),
                #[trigger] ranked(m, query_grams(m, q))[k],
            ),
{
    let qg = query_grams(m, q);
    lemma_ranked_upto_props(m, qg, m.labels@.len() as int);
}

/// An empty corpus has no lines and compiles to an empty label set and an
/// empty vocabulary.
pub proof fn lemma_empty_corpus_artifacts(kind: GramKind)
    ensures
        split_lines(Seq::<u8>::empty()) == Seq::<Seq<u8>>::empty(),
        spec_labels(Seq::<Seq<u8>>::empty()) == Seq::<Seq<u8>>::empty(),
        spec_vocab(kind, Seq::<Seq<u8>>::empty()) == Seq::<Seq<u8>>::empty(),
{
    let nothing = Seq::<Seq<u8>>::empty();
    assert(nothing.map_values(|l: Seq<u8>| crate::corpus::line_label(l)) =~= nothing);
}

/// Artifacts with an empty label set classify every query to the empty
/// result.
pub proof fn lemma_empty_corpus_classify(m: Model, q: Seq<u8>)
    requires
        m.labels@.len() == 0,
    ensures
        spec_classify(m, q) == Seq::<Seq<u8>>::empty(),
{
    let qg = query_grams(m, q);
    assert(ranked(m, qg) =~= Seq::<int>::empty());
    assert(spec_classify(m, q) =~= Seq::<Seq<u8>>::empty());
}

/// A query without n-grams reduces every score to the label's prior alone:
/// exactly the labels whose prior lies strictly between zero and one are
/// ranked, and earlier ranked labels have at least the example count of
/// later ones.
pub proof fn lemma_no_grams_prior_ranking(m: Model, q: Seq<u8>)
    requires
        query_grams(m, q).len() == 0,
    ensures
        forall|l: int|
            0 <= l < m.labels@.len() ==> (#[trigger] ranked(m, query_grams(m, q)).contains(l)
                <==> 0 < label_count(m.examples@, l) < m.examples@.len()),
        forall|i: int, j: int|
            0 <= i < j < ranked(m, query_grams(m, q)).len() ==> label_count(
                m.examples@,
                ranked(m, query_grams(m, q))[i],
            ) >= label_count(m.examples@, ranked(m, query_grams(m, q))[j]),
{
    let qg = query_grams(m, q);
    lemma_ranked_upto_props(m, qg, m.labels@.len() as int);
    let r = ranked(m, qg);
    assert forall|l: int| 0 <= l < m.labels@.len() implies (#[trigger] r.contains(l) <==> 0
        < label_count(m.examples@, l) < m.examples@.len()) by {
        lemma_prior_only_score(m, qg, l);
    }
    assert forall|i: int, j: int| 0 <= i < j < r.len() implies label_count(m.examples@, r[i])
        >= label_count(m.examples@, r[j]) by {
        let a = r[i];
        let b = r[j];
        assert(!ranks_before(m, qg, r[j], r[i]));
        assert(score_ge(m, qg, a, b));
        lemma_prior_only_score(m, qg, a);
        lemma_prior_only_score(m, qg, b);
        let n = m.examples@.len() as int;
        assert(score_valid(m, qg, a) && score_valid(m, qg, b)) by {
            assert(r.contains(r[i]));
            assert(r.contains(r[j]));
            assert(0 <= a < m.labels@.len());
            assert(0 <= b < m.labels@.len());
        }
        assert(label_count(m.examples@, a) * n >= label_count(m.examples@, b) * n);
        assert(label_count(m.examples@, a) >= label_count(m.examples@, b)) by (nonlinear_arith)
            requires
                n > 0,
                label_count(m.examples@, a) * n >= label_count(m.examples@, b) * n,
        ;
    }
}

/// With no query n-grams, a label's score ratio is its example count over
/// the example total.
proof fn lemma_prior_only_score(m: Model, qg: Seq<Seq<u8>>, l: int)
    requires
        qg.len() == 0,
    ensures
        score_num(m, qg, l) == label_count(m.examples@, l),
        score_den(m, qg, l) == m.examples@.len(),
        score_valid(m, qg, l) <==> 0 < label_count(m.examples@, l) < m.examples@.len(),
{
    let lc = label_count(m.examples@, l);
    assert(crate::scorer::gram_counts_prod(m, qg, l, 0) == 1);
    assert(crate::scorer::pow_int(lc, 0) == 1);
    assert(score_num(m, qg, l) == lc * 1);
    assert(score_den(m, qg, l) == m.examples@.len() * 1);
    assert(lc * 1 == lc) by {
        vstd::arithmetic::mul::lemma_mul_basics(lc);
    }
    assert(m.examples@.len() * 1 == m.examples@.len()) by {
        vstd::arithmetic::mul::lemma_mul_basics(m.examples@.len() as int);
    }
}

} // verus!
