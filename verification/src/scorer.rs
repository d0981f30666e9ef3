//! The classifier.
//!
//! For a query, every label of the compiled artifacts gets a score
//! `log2(prior) + sum over query n-grams of log2(likelihood)`, where the
//! prior of a label is `count(label) / count(examples)` and the likelihood of
//! an n-gram is `count(label with n-gram) / count(label)`. The score is
//! therefore `log2(N/D)` for the integer products
//! `N = count(label) * product of per-n-gram counts` and
//! `D = count(examples) * count(label) ^ |query n-grams|`.
//! A label is kept only when its score is a valid, nonzero, finite value,
//! which holds exactly when `0 < N < D`; kept labels are ranked by score
//! descending, with ties broken by label index, and the first ten are
//! returned. `log2` is strictly monotonic, so both the filter and the
//! ranking are decided exactly on the integer products, without floating
//! point.

use vstd::prelude::*;

use crate::corpus::{first_index, lemma_first_index, Example, Model};
use crate::ngram::{bytes_eq, extract_gram_set, gram_set, vec_range, views};
use crate::product::{
    cmp_products, lemma_prod_append, lemma_prod_positive, prod, prod_upto, Rel,
};
use vstd::arithmetic::mul::lemma_mul_is_associative;

verus! {

/// How many labels a classification returns at most.
pub open spec fn result_cap() -> int {
    10
}

/// The number of the first `n` examples whose label index is `l`.
pub open spec fn label_count_upto(exs: Seq<Example>, l: int, n: int) -> int
    decreases n,
{
    if n <= 0 {
        0
    } else {
        label_count_upto(exs, l, n - 1) + if exs[n - 1].label == l {
            1int
        } else {
            0int
        }
    }
}

/// The number of examples whose label index is `l`.
pub open spec fn label_count(exs: Seq<Example>, l: int) -> int {
    label_count_upto(exs, l, exs.len() as int)
}

/// The number of the first `n` examples with label index `l` and feature `j`
/// set.
pub open spec fn feature_count_upto(exs: Seq<Example>, l: int, j: int, n: int) -> int
    decreases n,
{
    if n <= 0 {
        0
    } else {
        feature_count_upto(exs, l, j, n - 1) + if exs[n - 1].label == l
            && exs[n - 1].features@[j] {
            1int
        } else {
            0int
        }
    }
}

/// The number of examples with label index `l` and feature `j` set.
pub open spec fn feature_count(exs: Seq<Example>, l: int, j: int) -> int {
    feature_count_upto(exs, l, j, exs.len() as int)
}

/// The number of examples with label index `l` in whose name the n-gram `g`
/// occurs: the count of the vocabulary column of `g`, or zero when `g` is
/// not in the vocabulary.
pub open spec fn gram_count(m: Model, l: int, g: Seq<u8>) -> int {
    let j = first_index(views(m.vocab@), g);
    if j >= 0 {
        feature_count(m.examples@, l, j)
    } else {
        0
    }
}

/// The product of the counts of the first `n` query n-grams for label `l`.
pub open spec fn gram_counts_prod(m: Model, qg: Seq<Seq<u8>>, l: int, n: int) -> int
    decreases n,
{
    if n <= 0 {
        1
    } else {
        gram_counts_prod(m, qg, l, n - 1) * gram_count(m, l, qg[n - 1])
    }
}

/// `c` to the power `n`.
pub open spec fn pow_int(c: int, n: int) -> int
    decreases n,
{
    if n <= 0 {
        1
    } else {
        pow_int(c, n - 1) * c
    }
}

/// The numerator of the score ratio of label `l`: the label's example count
/// times the product of the per-n-gram counts.
pub open spec fn score_num(m: Model, qg: Seq<Seq<u8>>, l: int) -> int {
    label_count(m.examples@, l) * gram_counts_prod(m, qg, l, qg.len() as int)
}

/// The denominator of the score ratio of label `l`: the number of examples
/// times the label's example count to the power of the query n-gram count.
pub open spec fn score_den(m: Model, qg: Seq<Seq<u8>>, l: int) -> int {
    m.examples@.len() * pow_int(label_count(m.examples@, l), qg.len() as int)
}

/// Whether the score of label `l` is a valid ranked value. The score is
/// `log2` of the ratio of the two products, so it is finite, nonzero and
/// well defined exactly when the ratio lies strictly between zero and one.
pub open spec fn score_valid(m: Model, qg: Seq<Seq<u8>>, l: int) -> bool {
    0 < score_num(m, qg, l) && score_num(m, qg, l) < score_den(m, qg, l)
}

/// `score(a) >= score(b)`: the ratios compare exactly by cross-multiplied
/// products.
pub open spec fn score_ge(m: Model, qg: Seq<Seq<u8>>, a: int, b: int) -> bool {
    score_num(m, qg, a) * score_den(m, qg, b) >= score_num(m, qg, b) * score_den(m, qg, a)
}

/// Whether label `a` strictly precedes label `b` in the ranking: a strictly
/// higher score, or an equal score and a smaller label index.
pub open spec fn ranks_before(m: Model, qg: Seq<Seq<u8>>, a: int, b: int) -> bool {
    let x = score_num(m, qg, a) * score_den(m, qg, b);
    let y = score_num(m, qg, b) * score_den(m, qg, a);
    x > y || (x == y && a < b)
}

/// The ranking `s` with label `x` inserted before the first entry that `x`
/// precedes.
pub open spec fn insert_ranked(m: Model, qg: Seq<Seq<u8>>, s: Seq<int>, x: int) -> Seq<int>
    decreases s.len(),
{
    if s.len() == 0 {
        seq![x]
    } else if ranks_before(m, qg, x, s[0]) {
        seq![x] + s
    } else {
        seq![s[0]] + insert_ranked(m, qg, s.drop_first(), x)
    }
}

/// The ranking of the valid labels among the first `n`.
pub open spec fn ranked_upto(m: Model, qg: Seq<Seq<u8>>, n: int) -> Seq<int>
    decreases n,
{
    if n <= 0 {
        Seq::empty()
    } else if score_valid(m, qg, n - 1) {
        insert_ranked(m, qg, ranked_upto(m, qg, n - 1), n - 1)
    } else {
        ranked_upto(m, qg, n - 1)
    }
}

/// The full ranking of the valid labels: score descending, ties by label
/// index ascending.
pub open spec fn ranked(m: Model, qg: Seq<Seq<u8>>) -> Seq<int> {
    ranked_upto(m, qg, m.labels@.len() as int)
}

/// The n-gram set of a query under the model's deployed variant.
pub open spec fn query_grams(m: Model, q: Seq<u8>) -> Seq<Seq<u8>> {
    gram_set(m.kind, q)
}

/// What a classification returns: the first ten (or fewer) labels of the
/// ranking of the query.
pub open spec fn spec_classify(m: Model, q: Seq<u8>) -> Seq<Seq<u8>> {
    let r = ranked(m, query_grams(m, q));
    let top = if r.len() <= result_cap() {
        r
    } else {
        r.take(result_cap())
    };
    top.map_values(|l: int| views(m.labels@)[l])
}

/// Counts the examples whose label index is `l`.
fn count_label(exs: &Vec<Example>, l: usize) -> (c: u64)
    ensures
        c == label_count(exs@, l as int),
{
    let mut c: u64 = 0;
    let mut i: usize = 0;
    while i < exs.len()
        invariant
            i <= exs@.len(),
            c <= i,
            c == label_count_upto(exs@, l as int, i as int),
        decreases exs@.len() - i,
    {
        if exs[i].label == l {
            c = c + 1;
        }
        i = i + 1;
    }
    c
}

/// Counts the examples whose label index is `l` and whose feature `j` is set.
fn count_feature(exs: &Vec<Example>, l: usize, j: usize) -> (c: u64)
    requires
        forall|i: int| 0 <= i < exs@.len() ==> j < (#[trigger] exs@[i]).features@.len(),
    ensures
        c == feature_count(exs@, l as int, j as int),
{
    let mut c: u64 = 0;
    let mut i: usize = 0;
    while i < exs.len()
        invariant
            i <= exs@.len(),
            c <= i,
            forall|k: int| 0 <= k < exs@.len() ==> j < (#[trigger] exs@[k]).features@.len(),
            c == feature_count_upto(exs@, l as int, j as int, i as int),
        decreases exs@.len() - i,
    {
        if exs[i].label == l && exs[i].features[j] {
            c = c + 1;
        }
        i = i + 1;
    }
    c
}

/// The first index of the n-gram `g` in the vocabulary, if any.
fn find_gram(vocab: &Vec<Vec<u8>>, g: &Vec<u8>) -> (r: Option<usize>)
    ensures
        match r {
            Some(j) => j == first_index(views(vocab@), g@),
            None => first_index(views(vocab@), g@) == -1,
        },
{
    let ghost vs = views(vocab@);
    proof {
        lemma_first_index(vs, g@);
    }
    let mut i: usize = 0;
    while i < vocab.len()
        invariant
            i <= vs.len(),
            vs == views(vocab@),
            forall|k: int| 0 <= k < i ==> vs[k] != g@,
        decreases vs.len() - i,
    {
        if bytes_eq(&vocab[i], g) {
            proof {
                lemma_first_index(vs, g@);
                let r = first_index(vs, g@);
                if r < 0 {
                    assert(vs.contains(vs[i as int]));
                }
                if 0 <= r < i {
                    assert(vs[r] != g@);
                }
                if r > i {
                    assert(vs[i as int] != g@);
                }
            }
            return Some(i);
        }
        i = i + 1;
    }
    proof {
        if first_index(vs, g@) >= 0 {
            assert(vs[first_index(vs, g@)] == g@);
        }
    }
    None
}

/// A label still in the running, with the factor vectors whose products are
/// the numerator and denominator of its score ratio.
struct Cand {
    idx: usize,
    num_factors: Vec<u64>,
    den_factors: Vec<u64>,
}

/// The factor vectors of a candidate multiply out to the label's score
/// ratio.
spec fn cand_ok(c: Cand, m: Model, qg: Seq<Seq<u8>>) -> bool {
    &&& c.idx < m.labels@.len()
    &&& prod(c.num_factors@) == score_num(m, qg, c.idx as int)
    &&& prod(c.den_factors@) == score_den(m, qg, c.idx as int)
}

/// The label indices of a candidate list.
spec fn idxs(s: Seq<Cand>) -> Seq<int> {
    s.map_values(|c: Cand| c.idx as int)
}

/// Builds the candidate for label `l`: counts examples and lays out the
/// score ratio's factors.
fn build_cand(m: &Model, qg: &Vec<Vec<u8>>, l: usize) -> (c: Cand)
    requires
        m.wf(),
        l < m.labels@.len(),
    ensures
        cand_ok(c, *m, views(qg@)),
        c.idx == l,
{
    let ghost qs = views(qg@);
    let cl = count_label(&m.examples, l);
    let n = m.examples.len();
    let mut num_factors: Vec<u64> = Vec::new();
    let mut den_factors: Vec<u64> = Vec::new();
    num_factors.push(cl);
    den_factors.push(n as u64);
    proof {
        assert(prod_upto(num_factors@, 0) == 1);
        assert(prod(num_factors@) == 1 * cl);
        assert(prod(num_factors@) == label_count(m.examples@, l as int) * 1);
        assert(prod_upto(den_factors@, 0) == 1);
        assert(prod(den_factors@) == 1 * (n as u64));
        assert(prod(den_factors@) == m.examples@.len() * 1);
    }
    let mut k: usize = 0;
    while k < qg.len()
        invariant
            k <= qs.len(),
            qs == views(qg@),
            m.wf(),
            cl == label_count(m.examples@, l as int),
            prod(num_factors@) == label_count(m.examples@, l as int) * gram_counts_prod(
                *m,
                qs,
                l as int,
                k as int,
            ),
            prod(den_factors@) == m.examples@.len() * pow_int(
                label_count(m.examples@, l as int),
                k as int,
            ),
        decreases qs.len() - k,
    {
        let cg: u64 = match find_gram(&m.vocab, &qg[k]) {
            Some(j) => {
                proof {
                    lemma_first_index(views(m.vocab@), qg@[k as int]@);
                }
                count_feature(&m.examples, l, j)
            },
            None => 0,
        };
        proof {
            assert(cg == gram_count(*m, l as int, qs[k as int]));
        }
        let ghost nf0 = num_factors@;
        let ghost df0 = den_factors@;
        num_factors.push(cg);
        den_factors.push(cl);
        proof {
            lemma_prod_push(nf0, cg);
            lemma_prod_push(df0, cl);
            assert(num_factors@ =~= nf0.push(cg));
            assert(den_factors@ =~= df0.push(cl));
            let lc = label_count(m.examples@, l as int);
            lemma_mul_is_associative(lc, gram_counts_prod(*m, qs, l as int, k as int), cg as int);
            lemma_mul_is_associative(
                m.examples@.len() as int,
                pow_int(lc, k as int),
                lc,
            );
        }
        k = k + 1;
    }
    Cand { idx: l, num_factors, den_factors }
}

/// A product gains one pushed factor.
proof fn lemma_prod_push(s: Seq<u64>, x: u64)
    ensures
        prod(s.push(x)) == prod(s) * x,
{
    let t = s.push(x);
    assert(prod_upto(t, t.len() as int) == prod_upto(t, s.len() as int) * x);
    assert(prod_upto(t, s.len() as int) == prod(s)) by {
        lemma_prod_upto_prefix(t, s, s.len() as int);
    }
}

/// The partial product only reads the first `n` factors.
proof fn lemma_prod_upto_prefix(a: Seq<u64>, b: Seq<u64>, n: int)
    requires
        0 <= n <= a.len(),
        n <= b.len(),
        forall|j: int| 0 <= j < n ==> a[j] == b[j],
    ensures
        prod_upto(a, n) == prod_upto(b, n),
    decreases n,
{
    if n > 0 {
        lemma_prod_upto_prefix(a, b, n - 1);
    }
}

/// Two factor vectors joined into one, for cross-multiplied comparisons.
fn concat_factors(a: &Vec<u64>, b: &Vec<u64>) -> (r: Vec<u64>)
    ensures
        r@ == a@ + b@,
{
    let mut out: Vec<u64> = Vec::new();
    let mut i: usize = 0;
    while i < a.len()
        invariant
            i <= a@.len(),
            out@ =~= a@.subrange(0, i as int),
        decreases a@.len() - i,
    {
        out.push(a[i]);
        i = i + 1;
    }
    let mut j: usize = 0;
    while j < b.len()
        invariant
            j <= b@.len(),
            out@ =~= a@ + b@.subrange(0, j as int),
        decreases b@.len() - j,
    {
        out.push(b[j]);
        j = j + 1;
    }
    proof {
        assert(out@ =~= a@ + b@);
    }
    out
}

/// Whether candidate `a` strictly precedes candidate `b` in the ranking.
fn cand_ranks_before(
    a: &Cand,
    b: &Cand,
    Ghost(m): Ghost<Model>,
    Ghost(qg): Ghost<Seq<Seq<u8>>>,
) -> (r: bool)
    requires
        cand_ok(*a, m, qg),
        cand_ok(*b, m, qg),
    ensures
        r == ranks_before(m, qg, a.idx as int, b.idx as int),
{
    let xs = concat_factors(&a.num_factors, &b.den_factors);
    let ys = concat_factors(&b.num_factors, &a.den_factors);
    proof {
        lemma_prod_append(a.num_factors@, b.den_factors@);
        lemma_prod_append(b.num_factors@, a.den_factors@);
    }
    match cmp_products(&xs, &ys) {
        Rel::Gt => true,
        Rel::Eq => a.idx < b.idx,
        Rel::Lt => false,
    }
}

/// Whether a candidate's score is a valid ranked value.
fn cand_valid(c: &Cand, Ghost(m): Ghost<Model>, Ghost(qg): Ghost<Seq<Seq<u8>>>) -> (r: bool)
    requires
        cand_ok(*c, m, qg),
    ensures
        r == score_valid(m, qg, c.idx as int),
{
    let mut i: usize = 0;
    while i < c.num_factors.len()
        invariant
            i <= c.num_factors@.len(),
            cand_ok(*c, m, qg),
            forall|k: int| 0 <= k < i ==> c.num_factors@[k] != 0,
        decreases c.num_factors@.len() - i,
    {
        if c.num_factors[i] == 0 {
            proof {
                lemma_prod_positive(c.num_factors@, c.num_factors@.len() as int);
            }
            return false;
        }
        i = i + 1;
    }
    proof {
        lemma_prod_positive(c.num_factors@, c.num_factors@.len() as int);
        assert(prod(c.num_factors@) > 0);
    }
    match cmp_products(&c.num_factors, &c.den_factors) {
        Rel::Lt => true,
        Rel::Eq => false,
        Rel::Gt => false,
    }
}

/// Where `insert_ranked` puts the new label: at the first position whose
/// entry the new label precedes.
proof fn lemma_insert_ranked_at(m: Model, qg: Seq<Seq<u8>>, s: Seq<int>, x: int, p: int)
    requires
        0 <= p <= s.len(),
        forall|k: int| 0 <= k < p ==> !ranks_before(m, qg, x, s[k]),
        p < s.len() ==> ranks_before(m, qg, x, s[p]),
    ensures
        insert_ranked(m, qg, s, x) == s.insert(p, x),
    decreases s.len(),
{
    if s.len() == 0 {
        assert(insert_ranked(m, qg, s, x) =~= s.insert(0, x));
    } else if ranks_before(m, qg, x, s[0]) {
        assert(p == 0);
        assert(insert_ranked(m, qg, s, x) =~= s.insert(0, x));
    } else {
        assert(p >= 1);
        let t = s.drop_first();
        assert(forall|k: int| 0 <= k < p - 1 ==> t[k] == s[k + 1]);
        assert(p - 1 < t.len() ==> ranks_before(m, qg, x, t[p - 1]));
        lemma_insert_ranked_at(m, qg, t, x, p - 1);
        assert(seq![s[0]] + t.insert(p - 1, x) =~= s.insert(p, x));
    }
}

/// Inserts a candidate into the ranked list at its position.
fn insert_cand(
    ranked_v: &mut Vec<Cand>,
    c: Cand,
    Ghost(m): Ghost<Model>,
    Ghost(qg): Ghost<Seq<Seq<u8>>>,
)
    requires
        forall|k: int| 0 <= k < old(ranked_v)@.len() ==> cand_ok(#[trigger] old(ranked_v)@[k], m, qg),
        cand_ok(c, m, qg),
    ensures
        idxs(final (ranked_v)@) == insert_ranked(m, qg, idxs(old(ranked_v)@), c.idx as int),
        forall|k: int| 0 <= k < final (ranked_v)@.len() ==> cand_ok(#[trigger] final (ranked_v)@[k], m, qg),
{
    let ghost s = idxs(old(ranked_v)@);
    let mut p: usize = 0;
    let mut stop: bool = false;
    while p < ranked_v.len() && !stop
        invariant
            p <= ranked_v@.len(),
            ranked_v@ == old(ranked_v)@,
            s == idxs(ranked_v@),
            cand_ok(c, m, qg),
            forall|k: int| 0 <= k < ranked_v@.len() ==> cand_ok(#[trigger] ranked_v@[k], m, qg),
            forall|k: int| 0 <= k < p ==> !ranks_before(m, qg, c.idx as int, s[k]),
            stop ==> p < ranked_v@.len() && ranks_before(m, qg, c.idx as int, s[p as int]),
        decreases ranked_v@.len() - p + (if stop { 0int } else { 1int }),
    {
        if cand_ranks_before(&c, &ranked_v[p], Ghost(m), Ghost(qg)) {
            stop = true;
        } else {
            p = p + 1;
        }
    }
    proof {
        lemma_insert_ranked_at(m, qg, s, c.idx as int, p as int);
    }
    let ghost cidx = c.idx as int;
    let ghost pre = ranked_v@;
    ranked_v.insert(p, c);
    proof {
        assert(idxs(ranked_v@) =~= idxs(pre).insert(p as int, cidx));
        assert(forall|k: int|
            0 <= k < ranked_v@.len() ==> cand_ok(#[trigger] ranked_v@[k], m, qg)) by {
            assert(forall|k: int| 0 <= k < p ==> ranked_v@[k] == pre[k]);
            assert(forall|k: int|
                p < k < ranked_v@.len() ==> ranked_v@[k] == pre[k - 1]);
        }
    }
}

/// Ranks the labels of the compiled artifacts for a query and returns the
/// top ten, best first. A label is returned only when its score is a valid
/// value; ties among equal scores order by label index. A query without
/// n-grams ranks the labels by prior alone; when nothing passes the filter
/// the result is empty, never an error.
pub fn classify(model: &Model, name: &[u8]) -> (r: Vec<Vec<u8>>)
    requires
        model.wf(),
    ensures
        views(r@) == spec_classify(*model, name@),
{
    let qgv = extract_gram_set(model.kind, name);
    let ghost qg = query_grams(*model, name@);
    proof {
        assert(views(qgv@) == qg);
    }
    let mut ranked_v: Vec<Cand> = Vec::new();
    proof {
        assert(idxs(ranked_v@) =~= ranked_upto(*model, qg, 0));
    }
    let nl = model.labels.len();
    let mut l: usize = 0;
    while l < nl
        invariant
            l <= nl,
            nl == model.labels@.len(),
            model.wf(),
            qg == query_grams(*model, name@),
            views(qgv@) == qg,
            idxs(ranked_v@) == ranked_upto(*model, qg, l as int),
            forall|k: int| 0 <= k < ranked_v@.len() ==> cand_ok(#[trigger] ranked_v@[k], *model, qg),
        decreases nl - l,
    {
        let c = build_cand(model, &qgv, l);
        if cand_valid(&c, Ghost(*model), Ghost(qg)) {
            insert_cand(&mut ranked_v, c, Ghost(*model), Ghost(qg));
        }
        l = l + 1;
    }
    let ghost rk = ranked(*model, qg);
    proof {
        assert(idxs(ranked_v@) == rk);
    }
    let cap = if ranked_v.len() < 10 {
        ranked_v.len()
    } else {
        10
    };
    let mut out: Vec<Vec<u8>> = Vec::new();
    let mut i: usize = 0;
    while i < cap
        invariant
            i <= cap,
            cap <= ranked_v@.len(),
            cap == if rk.len() <= result_cap() {
                rk.len() as int
            } else {
                result_cap()
            },
            idxs(ranked_v@) == rk,
            model.wf(),
            forall|k: int| 0 <= k < ranked_v@.len() ==> cand_ok(#[trigger] ranked_v@[k], *model, qg),
            out@.len() == i,
            forall|k: int| 0 <= k < i ==> (#[trigger] out@[k])@ == views(model.labels@)[rk[k]],
        decreases cap - i,
    {
        let idx = ranked_v[i].idx;
        proof {
            assert(cand_ok(ranked_v@[i as int], *model, qg));
            assert(rk[i as int] == idx);
        }
        let lab = vec_range(model.labels[idx].as_slice(), 0, model.labels[idx].len());
        proof {
            assert(lab@ =~= model.labels@[idx as int]@);
        }
        out.push(lab);
        i = i + 1;
    }
    proof {
        let top = if rk.len() <= result_cap() {
            rk
        } else {
            rk.take(result_cap())
        };
        assert(views(out@) =~= top.map_values(|l: int| views(model.labels@)[l]));
    }
    out
}

} // verus!
