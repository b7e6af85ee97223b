//! Properties of the classifier proved once and for all, beyond the
//! individual function contracts: determinism of training, density of the
//! likelihood table, the smoothing floor, exactness of the training
//! partition, tie preservation, and neutrality of out-of-vocabulary words.

use vstd::prelude::*;
use crate::model::NaiveBayes;
use crate::model::Document;
use crate::model::count_docs;
use crate::model::count_in;
use crate::model::views_of;
use crate::model::distinct_views;
use crate::model::find_idx;
use crate::model::lemma_find_idx;
use crate::model::score_num;
use crate::model::count_invocab;
use crate::model::token_factor;
use crate::model::lemma_row_total_bounds;

verus! {

broadcast use vstd::arithmetic::mul::group_mul_basics;

/// Training is deterministic: two models trained from the same documents,
/// classes and vocabulary agree on every stored quantity, so their priors
/// and likelihoods — functions of those integers alone — are identical.
pub proof fn lemma_training_deterministic(
    m1: NaiveBayes,
    m2: NaiveBayes,
    docs: Seq<Document>,
    classes: Seq<String>,
    vocab: Seq<String>,
)
    requires
        m1.trained_from(docs, classes, vocab),
        m2.trained_from(docs, classes, vocab),
    ensures
        m1.class_list() == m2.class_list(),
        m1.vocab_list() == m2.vocab_list(),
        m1.num_docs() == m2.num_docs(),
        forall|c: int|
            0 <= c < classes.len() ==> #[trigger] m1.class_doc_count(c) == m2.class_doc_count(c),
        forall|c: int, v: int|
            0 <= c < classes.len() && 0 <= v < vocab.len() ==> #[trigger] m1.word_count(c, v)
                == m2.word_count(c, v),
        forall|c: int| 0 <= c < classes.len() ==> #[trigger] m1.class_total(c) == m2.class_total(c),
{
    assert forall|c: int| 0 <= c < classes.len() implies #[trigger] m1.class_total(c)
        == m2.class_total(c) by {
        assert(m1.counts_row(c).len() == vocab.len());
        assert(m2.counts_row(c).len() == vocab.len());
        assert forall|v: int| 0 <= v < vocab.len() implies m1.counts_row(c)[v] == m2.counts_row(
            c,
        )[v] by {
            assert(m1.word_count(c, v) == m2.word_count(c, v));
        }
        assert(m1.counts_row(c) =~= m2.counts_row(c));
    }
}

/// Density: after training there is a likelihood entry for every pair of a
/// class and a vocabulary word — each class's count row covers the whole
/// vocabulary, with no missing pairs.
pub proof fn lemma_dense(m: NaiveBayes)
    requires
        m.wf(),
    ensures
        m.rows().len() == m.num_classes(),
        forall|c: int|
            0 <= c < m.num_classes() ==> (#[trigger] m.counts_row(c)).len() == m.vocab_size(),
{
}

/// Smoothing floor: every likelihood numerator `count + 1` is at least one
/// and every denominator `T_c` at least the (non-empty) vocabulary size,
/// so each likelihood ratio is strictly positive and its `log2` under real
/// division is finite — never minus infinity.
pub proof fn lemma_smoothing_floor(m: NaiveBayes)
    requires
        m.wf(),
    ensures
        forall|c: int, v: int|
            0 <= c < m.num_classes() && 0 <= v < m.vocab_size() ==> #[trigger] m.word_count(c, v)
                + 1 >= 1,
        forall|c: int| 0 <= c < m.num_classes() ==> #[trigger] m.class_total(c) >= m.vocab_size(),
        m.vocab_size() >= 1,
{
    assert forall|c: int| 0 <= c < m.num_classes() implies #[trigger] m.class_total(c)
        >= m.vocab_size() by {
        lemma_row_total_bounds(m.counts_row(c));
    }
}

/// Sum over the classes of how many documents carry each class.
pub open spec fn sum_doc_counts(docs: Seq<Document>, classes: Seq<String>) -> int
    decreases classes.len(),
{
    if classes.len() == 0 {
        0
    } else {
        sum_doc_counts(docs, classes.drop_last()) + count_docs(docs, classes.last()@)
    }
}

proof fn lemma_sum_docs_empty(classes: Seq<String>)
    ensures
        sum_doc_counts(Seq::<Document>::empty(), classes) == 0,
    decreases classes.len(),
{
    if classes.len() > 0 {
        lemma_sum_docs_empty(classes.drop_last());
    }
}

proof fn lemma_sum_push(docs: Seq<Document>, d: Document, classes: Seq<String>)
    ensures
        sum_doc_counts(docs.push(d), classes) == sum_doc_counts(docs, classes) + count_in(
            views_of(classes),
            d.class@,
        ),
    decreases classes.len(),
{
    if classes.len() == 0 {
        assert(count_in(views_of(classes), d.class@) == 0);
    } else {
        lemma_sum_push(docs, d, classes.drop_last());
        assert(docs.push(d).drop_last() =~= docs);
        assert(docs.push(d).last() == d);
        assert(count_docs(docs.push(d), classes.last()@) == count_docs(docs, classes.last()@)
            + if d.class@ == classes.last()@ {
            1int
        } else {
            0int
        });
        assert(views_of(classes).drop_last() =~= views_of(classes.drop_last()));
        assert(views_of(classes).last() == classes.last()@);
    }
}

proof fn lemma_count_in_zero(vs: Seq<Seq<char>>, w: Seq<char>)
    requires
        forall|j: int| 0 <= j < vs.len() ==> vs[j] != w,
    ensures
        count_in(vs, w) == 0,
    decreases vs.len(),
{
    if vs.len() > 0 {
        assert(forall|j: int| 0 <= j < vs.len() - 1 ==> vs.drop_last()[j] == vs[j]);
        lemma_count_in_zero(vs.drop_last(), w);
    }
}

proof fn lemma_count_in_distinct(vs: Seq<Seq<char>>, w: Seq<char>)
    requires
        forall|i: int, j: int| 0 <= i < j < vs.len() ==> vs[i] != vs[j],
        exists|i: int| 0 <= i < vs.len() && vs[i] == w,
    ensures
        count_in(vs, w) == 1,
    decreases vs.len(),
{
    let i = choose|i: int| 0 <= i < vs.len() && vs[i] == w;
    if i == vs.len() - 1 {
        assert(forall|j: int| 0 <= j < vs.len() - 1 ==> vs.drop_last()[j] == vs[j]);
        assert(forall|j: int| 0 <= j < vs.len() - 1 ==> vs[j] != w);
        lemma_count_in_zero(vs.drop_last(), w);
    } else {
        assert(forall|j: int| 0 <= j < vs.len() - 1 ==> vs.drop_last()[j] == vs[j]);
        assert(vs.drop_last()[i] == w);
        lemma_count_in_distinct(vs.drop_last(), w);
        assert(vs.last() != w);
    }
}

/// The training partition is exact and exhaustive: when the class set is
/// duplicate-free and covers every document's label, the per-class
/// document counts `N_c` sum to the total document count `N`.
pub proof fn lemma_prior_partition(docs: Seq<Document>, classes: Seq<String>)
    requires
        distinct_views(classes),
        forall|i: int|
            0 <= i < docs.len() ==> find_idx(views_of(classes), (#[trigger] docs[i]).class@) >= 0,
    ensures
        sum_doc_counts(docs, classes) == docs.len(),
    decreases docs.len(),
{
    if docs.len() == 0 {
        assert(docs =~= Seq::<Document>::empty());
        lemma_sum_docs_empty(classes);
    } else {
        let prefix_docs = docs.drop_last();
        let d = docs.last();
        let vsc = views_of(classes);
        assert forall|i: int|
            0 <= i < prefix_docs.len() implies find_idx(
                vsc,
                (#[trigger] prefix_docs[i]).class@,
            ) >= 0 by {
            assert(prefix_docs[i] == docs[i]);
        }
        lemma_prior_partition(prefix_docs, classes);
        assert(docs =~= prefix_docs.push(d));
        lemma_sum_push(prefix_docs, d, classes);
        assert(forall|i: int, j: int| 0 <= i < j < vsc.len() ==> vsc[i] != vsc[j]);
        assert(d == docs[docs.len() - 1]);
        assert(find_idx(vsc, d.class@) >= 0);
        lemma_find_idx(vsc, d.class@);
        let fi = find_idx(vsc, d.class@);
        assert(0 <= fi < vsc.len() && vsc[fi] == d.class@);
        lemma_count_in_distinct(vsc, d.class@);
    }
}

/// Tie correctness: when two classes score exactly equal and one of them
/// is among the best-scoring classes, so is the other — the tie-preserving
/// result of `guess` contains both labels.
pub proof fn lemma_tie_both_top(m: NaiveBayes, toks: Seq<Seq<char>>, c: int, d: int)
    requires
        m.wf(),
        0 <= c < m.num_classes(),
        0 <= d < m.num_classes(),
        m.score_ge(toks, c, d),
        m.score_ge(toks, d, c),
        m.is_top(toks, c),
    ensures
        m.is_top(toks, d),
{
    assert forall|e: int| 0 <= e < m.num_classes() implies m.score_ge(toks, d, e) by {
        m.lemma_score_ge_trans(toks, d, c, e);
    }
}

proof fn lemma_oov_score(row: Seq<u128>, vs: Seq<Seq<char>>, toks: Seq<Seq<char>>)
    requires
        forall|i: int| 0 <= i < toks.len() ==> find_idx(vs, #[trigger] toks[i]) == -1,
    ensures
        score_num(row, vs, toks) == 1,
        count_invocab(vs, toks) == 0,
    decreases toks.len(),
{
    if toks.len() > 0 {
        assert(forall|i: int| 0 <= i < toks.len() - 1 ==> toks.drop_last()[i] == toks[i]);
        lemma_oov_score(row, vs, toks.drop_last());
        assert(find_idx(vs, toks.last()) == -1);
        assert(token_factor(row, vs, toks.last()) == 1);
    }
}

/// Unknown-word neutrality: on a document whose tokens all fall outside
/// the vocabulary, no likelihood contributes, every class keeps exactly
/// its prior `log2(N / N_c)`, and the score order is the prior order:
/// class `c` scores at least class `d` exactly when `N_c <= N_d`.
pub proof fn lemma_unknown_words_prior_order(
    m: NaiveBayes,
    toks: Seq<Seq<char>>,
    c: int,
    d: int,
)
    requires
        m.wf(),
        0 <= c < m.num_classes(),
        0 <= d < m.num_classes(),
        forall|i: int|
            0 <= i < toks.len() ==> find_idx(views_of(m.vocab_list()), #[trigger] toks[i]) == -1,
    ensures
        m.score_num_of(toks, c) == 1,
        m.cross(toks, c, d) == m.class_doc_count(d),
        (m.score_ge(toks, c, d) <==> m.class_doc_count(c) <= m.class_doc_count(d)),
{
    let vs = views_of(m.vocab_list());
    lemma_oov_score(m.counts_row(c), vs, toks);
    lemma_oov_score(m.counts_row(d), vs, toks);
    vstd::arithmetic::power::lemma_pow0(m.class_total(c));
    vstd::arithmetic::power::lemma_pow0(m.class_total(d));
    assert(m.cross(toks, c, d) == 1 * m.class_doc_count(d) * 1);
    assert(m.cross(toks, d, c) == 1 * m.class_doc_count(c) * 1);
}

} // verus!
