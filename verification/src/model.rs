//! The classifier itself: documents, training, and inference.
//!
//! A trained model keeps the exact integer quantities the Naive Bayes
//! formulas are built from: the total number of training documents `N`, the
//! per-class document count `N_c`, the per-class-per-word occurrence count
//! `count(w, c)`, and the Laplace-smoothed per-class word total
//! `T_c = sum_w (count(w, c) + 1)`.  The class prior is `log2(N / N_c)` and
//! the likelihood of `w` given `c` is `log2((count(w, c) + 1) / T_c)`, under
//! real-valued division; since `log2` is strictly monotone, inference can
//! compare the scores of two classes exactly by cross-multiplying the
//! rationals underneath the logarithms, which this module does with
//! arbitrary-precision integers.

use vstd::prelude::*;
use vstd::arithmetic::power::pow;
use vstd::arithmetic::power::lemma_pow_positive;
use vstd::string::StrSliceExecFns;
use crate::tok::is_space;
use crate::tok::char_is_space;
use crate::tok::tokenize;
use crate::tok::lemma_tokenize_step;
use crate::bignat::BigNat;
use crate::bignat::Rel;

verus! {

broadcast use vstd::arithmetic::mul::group_mul_basics;

/// A piece of text together with a class label.  Training reads the label;
/// inference never does.
pub struct Document {
    pub class: String,
    pub text: String,
}

/// The character sequences behind a sequence of strings.
pub open spec fn views_of(s: Seq<String>) -> Seq<Seq<char>> {
    s.map_values(|x: String| x@)
}

/// No two strings of the sequence spell the same characters.
pub open spec fn distinct_views(s: Seq<String>) -> bool {
    forall|i: int, j: int| 0 <= i < j < s.len() ==> s[i]@ != s[j]@
}

impl Document {
    /// The whitespace-delimited tokens of the document's text, in order.
    pub fn words(&self) -> (r: Vec<String>)
        ensures
            views_of(r@) == tokenize(self.text@),
    {
        let st: &str = self.text.as_str();
        let n: usize = st.unicode_len();
        let mut out: Vec<String> = Vec::new();
        let mut i: usize = 0;
        proof {
            assert(st@.skip(0) =~= st@);
            assert(views_of(out@) + tokenize(st@.skip(0)) =~= tokenize(st@));
        }
        while i < n
            invariant
                i <= n,
                n == st@.len(),
                st@ == self.text@,
                views_of(out@) + tokenize(st@.skip(i as int)) == tokenize(st@),
            decreases n - i,
        {
            let c = st.get_char(i);
            if char_is_space(c) {
                proof {
                    let u = st@.skip(i as int);
                    assert(u[0] == st@[i as int]);
                    assert(u.skip(1) =~= st@.skip(i as int + 1));
                }
                i += 1;
            } else {
                let mut j: usize = i + 1;
                while j < n
                    invariant
                        i < j <= n,
                        n == st@.len(),
                        forall|t: int| i <= t < j ==> !is_space(#[trigger] st@[t]),
                        !is_space(st@[i as int]),
                    ensures
                        i < j <= n,
                        n == st@.len(),
                        forall|t: int| i <= t < j ==> !is_space(#[trigger] st@[t]),
                        j == n || is_space(st@[j as int]),
                    decreases n - j,
                {
                    let cj = st.get_char(j);
                    if char_is_space(cj) {
                        break ;
                    }
                    j += 1;
                }
                let tokstr: &str = st.substring_char(i, j);
                let tok: String = tokstr.to_owned();
                proof {
                    let u = st@.skip(i as int);
                    let k: int = j - i;
                    assert(forall|t: int| 0 <= t < k ==> !is_space(#[trigger] u[t]));
                    assert(k == u.len() || is_space(u[k]));
                    lemma_tokenize_step(u, k);
                    assert(u.take(k) =~= st@.subrange(i as int, j as int));
                    assert(u.skip(k) =~= st@.skip(j as int));
                    assert(views_of(out@.push(tok)) =~= views_of(out@).push(tok@));
                    assert(views_of(out@) + (seq![tok@] + tokenize(st@.skip(j as int))) =~= views_of(
                        out@.push(tok),
                    ) + tokenize(st@.skip(j as int)));
                }
                out.push(tok);
                i = j;
            }
        }
        proof {
            assert(st@.skip(n as int) =~= Seq::<char>::empty());
            assert(views_of(out@) + tokenize(st@.skip(n as int)) =~= views_of(out@));
        }
        out
    }
}

/// How many documents carry class label `cl`.
pub open spec fn count_docs(docs: Seq<Document>, cl: Seq<char>) -> nat
    decreases docs.len(),
{
    if docs.len() == 0 {
        0
    } else {
        count_docs(docs.drop_last(), cl) + if docs.last().class@ == cl {
            1nat
        } else {
            0nat
        }
    }
}

/// All tokens of all documents carrying class label `cl`, in order.
pub open spec fn class_tokens(docs: Seq<Document>, cl: Seq<char>) -> Seq<Seq<char>>
    decreases docs.len(),
{
    if docs.len() == 0 {
        Seq::empty()
    } else {
        class_tokens(docs.drop_last(), cl) + if docs.last().class@ == cl {
            tokenize(docs.last().text@)
        } else {
            Seq::empty()
        }
    }
}

/// How many tokens of `ts` spell exactly `w`.
pub open spec fn count_in(ts: Seq<Seq<char>>, w: Seq<char>) -> nat
    decreases ts.len(),
{
    if ts.len() == 0 {
        0
    } else {
        count_in(ts.drop_last(), w) + if ts.last() == w {
            1nat
        } else {
            0nat
        }
    }
}

/// The Laplace-smoothed word total of a count row: each count plus one.
pub open spec fn row_total(row: Seq<u128>) -> int
    decreases row.len(),
{
    if row.len() == 0 {
        0
    } else {
        row_total(row.drop_last()) + row.last() + 1
    }
}

/// Index of the first entry of `vs` equal to `w`, or `-1`.
pub open spec fn find_idx(vs: Seq<Seq<char>>, w: Seq<char>) -> int
    decreases vs.len(),
{
    if vs.len() == 0 {
        -1
    } else if vs[0] == w {
        0
    } else {
        let r = find_idx(vs.skip(1), w);
        if r < 0 {
            -1
        } else {
            r + 1
        }
    }
}

pub proof fn lemma_find_idx(vs: Seq<Seq<char>>, w: Seq<char>)
    ensures
        find_idx(vs, w) >= 0 ==> 0 <= find_idx(vs, w) < vs.len() && vs[find_idx(vs, w)] == w,
        find_idx(vs, w) < 0 ==> find_idx(vs, w) == -1 && forall|j: int|
            0 <= j < vs.len() ==> vs[j] != w,
    decreases vs.len(),
{
    if vs.len() == 0 {
    } else if vs[0] == w {
    } else {
        lemma_find_idx(vs.skip(1), w);
        let r = find_idx(vs.skip(1), w);
        if r < 0 {
            assert forall|j: int| 0 <= j < vs.len() implies vs[j] != w by {
                if j >= 1 {
                    assert(vs.skip(1)[j - 1] == vs[j]);
                }
            }
        } else {
            assert(vs.skip(1)[r] == vs[r + 1]);
        }
    }
}

pub proof fn lemma_find_idx_hit(vs: Seq<Seq<char>>, w: Seq<char>, i: int)
    requires
        0 <= i < vs.len(),
        vs[i] == w,
        forall|j: int| 0 <= j < i ==> vs[j] != w,
    ensures
        find_idx(vs, w) == i,
    decreases i,
{
    if i == 0 {
    } else {
        assert(vs[0] != w);
        assert(vs.skip(1)[i - 1] == vs[i]);
        assert(forall|j: int| 0 <= j < i - 1 ==> vs.skip(1)[j] == vs[j + 1]);
        lemma_find_idx_hit(vs.skip(1), w, i - 1);
    }
}

/// Linear search for a string among distinct-or-not vocabulary entries.
fn find_index(vs: &Vec<String>, w: &String) -> (r: Option<usize>)
    ensures
        match r {
            Some(ix) => ix < vs@.len() && find_idx(views_of(vs@), w@) == ix,
            None => find_idx(views_of(vs@), w@) == -1,
        },
{
    let mut i: usize = 0;
    while i < vs.len()
        invariant
            i <= vs@.len(),
            forall|j: int| 0 <= j < i ==> views_of(vs@)[j] != w@,
        decreases vs@.len() - i,
    {
        if vs[i].eq(w) {
            proof {
                lemma_find_idx_hit(views_of(vs@), w@, i as int);
            }
            return Some(i);
        }
        i += 1;
    }
    proof {
        lemma_find_idx(views_of(vs@), w@);
    }
    None
}

/// Why training was refused.
#[derive(Clone, Copy, PartialEq, Eq, Structural, Debug)]
pub enum TrainError {
    /// The vocabulary is empty, so every smoothed word total would be zero
    /// and every likelihood denominator undefined.
    EmptyVocabulary,
    /// Some class has no training document, so its prior `log2(N / N_c)`
    /// is undefined.
    DegenerateClass,
}

impl TrainError {
    /// What the error means, in words.
    pub open spec fn message_view(self) -> Seq<char> {
        match self {
            TrainError::EmptyVocabulary => "the vocabulary is empty"@,
            TrainError::DegenerateClass => "a class has no training documents"@,
        }
    }

    pub fn message(&self) -> (r: &'static str)
        ensures
            r@ == self.message_view(),
    {
        match self {
            TrainError::EmptyVocabulary => "the vocabulary is empty",
            TrainError::DegenerateClass => "a class has no training documents",
        }
    }
}

/// A trained multinomial Naive Bayes model over a fixed vocabulary and a
/// fixed class set.
pub struct NaiveBayes {
    vocab: Vec<String>,
    classes: Vec<String>,
    n_docs: usize,
    class_docs: Vec<usize>,
    counts: Vec<Vec<u128>>,
    totals: Vec<u128>,
}

impl NaiveBayes {
    /// The vocabulary, as given to training.
    pub closed spec fn vocab_list(self) -> Seq<String> {
        self.vocab@
    }

    /// The class labels, as given to training.
    pub closed spec fn class_list(self) -> Seq<String> {
        self.classes@
    }

    /// `N`: how many documents the model was trained on.
    pub closed spec fn num_docs(self) -> int {
        self.n_docs as int
    }

    /// One `N_c` per class, in class order.
    pub closed spec fn doc_counts(self) -> Seq<usize> {
        self.class_docs@
    }

    /// One count row per class; entry `v` of row `c` is `count(vocab[v], c)`.
    pub closed spec fn rows(self) -> Seq<Seq<u128>> {
        self.counts@.map_values(|r: Vec<u128>| r@)
    }

    /// One smoothed word total `T_c` per class, in class order.
    pub closed spec fn totals_seq(self) -> Seq<u128> {
        self.totals@
    }

    pub open spec fn num_classes(self) -> int {
        self.class_list().len() as int
    }

    pub open spec fn vocab_size(self) -> int {
        self.vocab_list().len() as int
    }

    /// `N_c` for the class at index `c`.
    pub open spec fn class_doc_count(self, c: int) -> int {
        self.doc_counts()[c] as int
    }

    /// The count row of the class at index `c`.
    pub open spec fn counts_row(self, c: int) -> Seq<u128> {
        self.rows()[c]
    }

    /// `count(vocab[v], c)`: occurrences of vocabulary word `v` in the
    /// training documents of class `c`.
    pub open spec fn word_count(self, c: int, v: int) -> int {
        self.counts_row(c)[v] as int
    }

    /// `T_c`: the Laplace-smoothed word total of class `c`.
    pub open spec fn class_total(self, c: int) -> int {
        self.totals_seq()[c] as int
    }

    /// Structural soundness: one entry of everything per class, one count
    /// per vocabulary word, every class non-degenerate, every total the sum
    /// of its smoothed row, and a non-empty vocabulary.
    pub open spec fn wf(self) -> bool {
        &&& self.vocab_size() >= 1
        &&& distinct_views(self.vocab_list())
        &&& distinct_views(self.class_list())
        &&& self.doc_counts().len() == self.num_classes()
        &&& self.rows().len() == self.num_classes()
        &&& self.totals_seq().len() == self.num_classes()
        &&& forall|c: int| 0 <= c < self.num_classes() ==> #[trigger] self.class_doc_count(c) >= 1
        &&& forall|c: int|
            0 <= c < self.num_classes() ==> (#[trigger] self.counts_row(c)).len()
                == self.vocab_size()
        &&& forall|c: int|
            0 <= c < self.num_classes() ==> #[trigger] self.class_total(c) == row_total(
                self.counts_row(c),
            )
    }

    /// The model holds exactly the counts of this training input.
    pub open spec fn trained_from(
        self,
        docs: Seq<Document>,
        classes: Seq<String>,
        vocab: Seq<String>,
    ) -> bool {
        &&& self.wf()
        &&& self.class_list() == classes
        &&& self.vocab_list() == vocab
        &&& self.num_docs() == docs.len()
        &&& forall|c: int|
            0 <= c < classes.len() ==> #[trigger] self.class_doc_count(c) == count_docs(
                docs,
                classes[c]@,
            )
        &&& forall|c: int, v: int|
            0 <= c < classes.len() && 0 <= v < vocab.len() ==> #[trigger] self.word_count(c, v)
                == count_in(class_tokens(docs, classes[c]@), vocab[v]@)
    }

    /// Train a model: count, for every class, its documents and the
    /// occurrences of every vocabulary word in them.  An empty vocabulary
    /// and a class with no documents are rejected, since either would put a
    /// zero denominator under a logarithm.
    pub fn new(documents: &Vec<Document>, classes: Vec<String>, vocab: Vec<String>) -> (r: Result<
        NaiveBayes,
        TrainError,
    >)
        requires
            distinct_views(classes@),
            distinct_views(vocab@),
        ensures
            match r {
                Ok(m) => vocab@.len() >= 1 && (forall|c: int|
                    0 <= c < classes@.len() ==> count_docs(documents@, #[trigger] classes@[c]@)
                        >= 1) && m.trained_from(documents@, classes@, vocab@),
                Err(TrainError::EmptyVocabulary) => vocab@.len() == 0,
                Err(TrainError::DegenerateClass) => vocab@.len() >= 1 && exists|c: int|
                    0 <= c < classes@.len() && count_docs(documents@, #[trigger] classes@[c]@)
                        == 0,
            },
    {
        if vocab.len() == 0 {
            return Err(TrainError::EmptyVocabulary);
        }
        let nc = classes.len();
        let nd = documents.len();
        let mut class_docs: Vec<usize> = Vec::new();
        let mut counts: Vec<Vec<u128>> = Vec::new();
        let mut totals: Vec<u128> = Vec::new();
        let mut ci: usize = 0;
        while ci < nc
            invariant
                ci <= nc,
                nc == classes@.len(),
                nd == documents@.len(),
                vocab@.len() >= 1,
                class_docs@.len() == ci,
                counts@.len() == ci,
                totals@.len() == ci,
                forall|c: int|
                    0 <= c < ci ==> (#[trigger] class_docs@[c]) as int == count_docs(
                        documents@,
                        classes@[c]@,
                    ) && class_docs@[c] >= 1,
                forall|c: int| 0 <= c < ci ==> (#[trigger] counts@[c])@.len() == vocab@.len(),
                forall|c: int, v: int|
                    0 <= c < ci && 0 <= v < vocab@.len() ==> (#[trigger] counts@[c]@[v]) as int
                        == count_in(class_tokens(documents@, classes@[c]@), vocab@[v]@),
                forall|c: int|
                    0 <= c < ci ==> (#[trigger] totals@[c]) as int == row_total(counts@[c]@),
            decreases nc - ci,
        {
            let cl: &String = &classes[ci];
            let mut ndc: usize = 0;
            let mut toks: Vec<String> = Vec::new();
            let mut di: usize = 0;
            proof {
                assert(documents@.take(0) =~= Seq::<Document>::empty());
            }
            while di < nd
                invariant
                    di <= nd,
                    nd == documents@.len(),
                    ci < classes@.len(),
                    cl@ == classes@[ci as int]@,
                    ndc <= di,
                    ndc as int == count_docs(documents@.take(di as int), classes@[ci as int]@),
                    views_of(toks@) == class_tokens(documents@.take(di as int), classes@[ci as int]@),
                decreases nd - di,
            {
                let d: &Document = &documents[di];
                proof {
                    assert(documents@.take(di as int + 1).drop_last() =~= documents@.take(
                        di as int,
                    ));
                    assert(documents@.take(di as int + 1).last() == documents@[di as int]);
                }
                if d.class.eq(cl) {
                    ndc = ndc + 1;
                    let mut ws = d.words();
                    proof {
                        assert(views_of(toks@ + ws@) =~= views_of(toks@) + views_of(ws@));
                    }
                    toks.append(&mut ws);
                }
                di += 1;
            }
            proof {
                assert(documents@.take(nd as int) =~= documents@);
            }
            if ndc == 0 {
                assert(count_docs(documents@, classes@[ci as int]@) == 0);
                return Err(TrainError::DegenerateClass);
            }
            let mut row: Vec<u128> = Vec::new();
            let mut total: u128 = 0;
            let mut vi: usize = 0;
            let ghost tl: int = toks@.len() as int;
            while vi < vocab.len()
                invariant
                    vi <= vocab@.len(),
                    row@.len() == vi,
                    tl == toks@.len() as int,
                    views_of(toks@) == class_tokens(documents@, classes@[ci as int]@),
                    ci < classes@.len(),
                    forall|v: int|
                        0 <= v < vi ==> (#[trigger] row@[v]) as int == count_in(
                            views_of(toks@),
                            vocab@[v]@,
                        ),
                    total as int == row_total(row@),
                    total as int <= vi * (tl + 1),
                decreases vocab@.len() - vi,
            {
                let w: &String = &vocab[vi];
                let mut cnt: u128 = 0;
                let mut tj: usize = 0;
                proof {
                    assert(views_of(toks@).take(0) =~= Seq::<Seq<char>>::empty());
                }
                while tj < toks.len()
                    invariant
                        tj <= toks@.len(),
                        cnt <= tj,
                        vi < vocab@.len(),
                        w@ == vocab@[vi as int]@,
                        cnt as int == count_in(views_of(toks@).take(tj as int), vocab@[vi as int]@),
                    decreases toks@.len() - tj,
                {
                    proof {
                        assert(views_of(toks@).take(tj as int + 1).drop_last() =~= views_of(
                            toks@,
                        ).take(tj as int));
                        assert(views_of(toks@).take(tj as int + 1).last() == toks@[tj as int]@);
                    }
                    if toks[tj].eq(w) {
                        cnt = cnt + 1;
                    }
                    tj += 1;
                }
                proof {
                    assert(views_of(toks@).take(toks@.len() as int) =~= views_of(toks@));
                    assert(row@.push(cnt).drop_last() =~= row@);
                    assert(row_total(row@.push(cnt)) == row_total(row@) + cnt + 1);
                    assert(cnt as int <= tl);
                    assert(total as int + cnt as int + 1 <= (vi + 1) * (tl + 1))
                        by (nonlinear_arith)
                        requires
                            total as int <= vi * (tl + 1),
                            cnt as int <= tl,
                            vi >= 0,
                            tl >= 0,
                    ;
                    assert((vi + 1) * (tl + 1) <= 0xffffffffffffffffffffffffffffffff)
                        by (nonlinear_arith)
                        requires
                            0 <= vi + 1 <= 0xffffffffffffffff,
                            0 <= tl + 1 <= 0x10000000000000000,
                    ;
                    assert(vi + 1 <= vocab@.len());
                    assert(vocab@.len() <= 0xffffffffffffffff);
                    assert(tl + 1 <= 0x10000000000000000);
                }
                row.push(cnt);
                total = total + cnt + 1;
                vi += 1;
            }
            class_docs.push(ndc);
            counts.push(row);
            totals.push(total);
            ci += 1;
        }
        let m = NaiveBayes {
            vocab,
            classes,
            n_docs: nd,
            class_docs,
            counts,
            totals,
        };
        proof {
            assert(forall|c: int|
                0 <= c < m.num_classes() ==> #[trigger] m.counts_row(c) == counts@[c]@);
            assert forall|c: int| 0 <= c < m.class_list().len() implies count_docs(
                documents@,
                #[trigger] m.class_list()[c]@,
            ) >= 1 by {
                assert(class_docs@[c] >= 1);
            }
            assert(m.trained_from(documents@, m.class_list(), m.vocab_list()));
        }
        Ok(m)
    }
}

/// The Laplace-smoothed factor a token contributes to a class's score
/// numerator: `count(t, c) + 1` for a vocabulary token, `1` otherwise.
pub open spec fn token_factor(row: Seq<u128>, vs: Seq<Seq<char>>, t: Seq<char>) -> int {
    if find_idx(vs, t) >= 0 {
        row[find_idx(vs, t)] + 1
    } else {
        1
    }
}

/// Product of the smoothed counts of the in-vocabulary tokens of `toks`.
pub open spec fn score_num(row: Seq<u128>, vs: Seq<Seq<char>>, toks: Seq<Seq<char>>) -> int
    decreases toks.len(),
{
    if toks.len() == 0 {
        1
    } else {
        score_num(row, vs, toks.drop_last()) * token_factor(row, vs, toks.last())
    }
}

/// How many tokens of `toks` are vocabulary words.
pub open spec fn count_invocab(vs: Seq<Seq<char>>, toks: Seq<Seq<char>>) -> nat
    decreases toks.len(),
{
    if toks.len() == 0 {
        0
    } else {
        count_invocab(vs, toks.drop_last()) + if find_idx(vs, toks.last()) >= 0 {
            1nat
        } else {
            0nat
        }
    }
}

pub proof fn lemma_score_num_pos(row: Seq<u128>, vs: Seq<Seq<char>>, toks: Seq<Seq<char>>)
    ensures
        score_num(row, vs, toks) >= 1,
    decreases toks.len(),
{
    if toks.len() > 0 {
        lemma_score_num_pos(row, vs, toks.drop_last());
        assert(token_factor(row, vs, toks.last()) >= 1);
        assert(score_num(row, vs, toks.drop_last()) * token_factor(row, vs, toks.last()) >= 1)
            by (nonlinear_arith)
            requires
                score_num(row, vs, toks.drop_last()) >= 1,
                token_factor(row, vs, toks.last()) >= 1,
        ;
    }
}

/// A smoothed row total dominates its length and each smoothed entry.
pub proof fn lemma_row_total_bounds(row: Seq<u128>)
    ensures
        row_total(row) >= row.len(),
        forall|v: int| 0 <= v < row.len() ==> row_total(row) >= #[trigger] row[v] + 1,
    decreases row.len(),
{
    if row.len() > 0 {
        lemma_row_total_bounds(row.drop_last());
        assert forall|v: int| 0 <= v < row.len() implies row_total(row) >= #[trigger] row[v]
            + 1 by {
            if v < row.len() - 1 {
                assert(row.drop_last()[v] == row[v]);
            }
        }
    }
}

impl NaiveBayes {
    /// The score numerator of class `c` on the token list `toks`: the
    /// product of the smoothed counts of its in-vocabulary tokens.
    pub open spec fn score_num_of(self, toks: Seq<Seq<char>>, c: int) -> int {
        score_num(self.counts_row(c), views_of(self.vocab_list()), toks)
    }

    /// The cross-multiplied form of class `c`'s score against class `d`.
    /// With `k` in-vocabulary tokens, class `c`'s score is `log2` of the
    /// rational `(N / N_c) * prod (count + 1) / T_c^k`; clearing the `N`
    /// and both denominators against class `d`'s rational leaves this
    /// integer, so comparing `cross(c, d)` with `cross(d, c)` compares the
    /// two real-valued scores exactly.
    pub open spec fn cross(self, toks: Seq<Seq<char>>, c: int, d: int) -> int {
        self.score_num_of(toks, c) * self.class_doc_count(d) * pow(
            self.class_total(d),
            count_invocab(views_of(self.vocab_list()), toks),
        )
    }

    /// Class `c` scores at least as high as class `d` on `toks`.
    pub open spec fn score_ge(self, toks: Seq<Seq<char>>, c: int, d: int) -> bool {
        self.cross(toks, c, d) >= self.cross(toks, d, c)
    }

    /// Class `c` is one of the best-scoring classes on `toks`.
    pub open spec fn is_top(self, toks: Seq<Seq<char>>, c: int) -> bool {
        forall|d: int| 0 <= d < self.num_classes() ==> self.score_ge(toks, c, d)
    }

    /// The best-scoring classes among the first `c` classes, in class
    /// order.
    pub open spec fn top_prefix(self, toks: Seq<Seq<char>>, c: int) -> Seq<String>
        decreases c,
    {
        if c <= 0 {
            Seq::empty()
        } else {
            let rest = self.top_prefix(toks, c - 1);
            if self.is_top(toks, c - 1) {
                rest.push(self.class_list()[c - 1])
            } else {
                rest
            }
        }
    }

    proof fn lemma_cross_pos(self, toks: Seq<Seq<char>>, c: int, d: int)
        requires
            self.wf(),
            0 <= c < self.num_classes(),
            0 <= d < self.num_classes(),
        ensures
            self.cross(toks, c, d) >= 1,
            self.class_total(d) >= 1,
            self.score_num_of(toks, c) >= 1,
    {
        lemma_score_num_pos(self.counts_row(c), views_of(self.vocab_list()), toks);
        lemma_row_total_bounds(self.counts_row(d));
        let k = count_invocab(views_of(self.vocab_list()), toks);
        lemma_pow_positive(self.class_total(d), k);
        assert(self.score_num_of(toks, c) * self.class_doc_count(d) * pow(self.class_total(d), k)
            >= 1) by (nonlinear_arith)
            requires
                self.score_num_of(toks, c) >= 1,
                self.class_doc_count(d) >= 1,
                pow(self.class_total(d), k) >= 1,
        ;
    }

    /// Scoring at least as high is transitive: the exact comparison of the
    /// rational scores is a total preorder on the classes.
    pub proof fn lemma_score_ge_trans(self, toks: Seq<Seq<char>>, x: int, y: int, z: int)
        requires
            self.wf(),
            0 <= x < self.num_classes(),
            0 <= y < self.num_classes(),
            0 <= z < self.num_classes(),
            self.score_ge(toks, x, y),
            self.score_ge(toks, y, z),
        ensures
            self.score_ge(toks, x, z),
    {
        let k = count_invocab(views_of(self.vocab_list()), toks);
        let ax = self.score_num_of(toks, x);
        let ay = self.score_num_of(toks, y);
        let az = self.score_num_of(toks, z);
        let nx = self.class_doc_count(x);
        let ny = self.class_doc_count(y);
        let nz = self.class_doc_count(z);
        let px = pow(self.class_total(x), k);
        let py = pow(self.class_total(y), k);
        let pz = pow(self.class_total(z), k);
        self.lemma_cross_pos(toks, x, y);
        self.lemma_cross_pos(toks, y, z);
        self.lemma_cross_pos(toks, z, x);
        lemma_pow_positive(self.class_total(x), k);
        lemma_pow_positive(self.class_total(y), k);
        lemma_pow_positive(self.class_total(z), k);
        assert(ax * ny * py * (nz * pz) >= ay * nx * px * (nz * pz)) by (nonlinear_arith)
            requires
                ax * ny * py >= ay * nx * px,
                nz >= 1,
                pz >= 1,
        ;
        assert(ay * nz * pz * (nx * px) >= az * ny * py * (nx * px)) by (nonlinear_arith)
            requires
                ay * nz * pz >= az * ny * py,
                nx >= 1,
                px >= 1,
        ;
        assert(ay * nx * px * (nz * pz) == ay * nz * pz * (nx * px)) by (nonlinear_arith);
        assert(ax * ny * py * (nz * pz) == (ny * py) * (ax * nz * pz)) by (nonlinear_arith);
        assert(az * ny * py * (nx * px) == (ny * py) * (az * nx * px)) by (nonlinear_arith);
        assert((ny * py) * (ax * nz * pz) >= (ny * py) * (az * nx * px));
        assert(ax * nz * pz >= az * nx * px) by (nonlinear_arith)
            requires
                (ny * py) * (ax * nz * pz) >= (ny * py) * (az * nx * px),
                ny >= 1,
                py >= 1,
        ;
    }

    /// Multiply `b` by `N_d * T_d^k`, the cross-multiplication factors of
    /// class `d`.
    fn raise(&self, b: &BigNat, d: usize, k: usize) -> (r: BigNat)
        requires
            self.wf(),
            (d as int) < self.num_classes(),
        ensures
            r.value() as int == b.value() * self.class_doc_count(d as int) * pow(
                self.class_total(d as int),
                k as nat,
            ),
    {
        let nd: u128 = self.class_docs[d] as u128;
        let td: u128 = self.totals[d];
        let mut r = b.mul_wide(nd);
        proof {
            let tt = self.class_total(d as int);
            vstd::arithmetic::power::lemma_pow0(tt);
            assert((b.value() as int) * (nd as int) * pow(tt, 0) == (b.value() as int) * (
            nd as int)) by (nonlinear_arith)
                requires
                    pow(tt, 0) == 1,
            ;
        }
        let mut j: usize = 0;
        while j < k
            invariant
                j <= k,
                self.wf(),
                (d as int) < self.num_classes(),
                nd as int == self.class_doc_count(d as int),
                td as int == self.class_total(d as int),
                r.value() as int == b.value() * self.class_doc_count(d as int) * pow(
                    self.class_total(d as int),
                    j as nat,
                ),
            decreases k - j,
        {
            r = r.mul_wide(td);
            proof {
                let tt = self.class_total(d as int);
                let bv = b.value() as int;
                let ni = self.class_doc_count(d as int);
                assert(pow(tt, (j + 1) as nat) == tt * pow(tt, j as nat)) by {
                    reveal(pow);
                };
                assert(bv * ni * pow(tt, j as nat) * tt == bv * ni * (tt * pow(tt, j as nat)))
                    by (nonlinear_arith);
            }
            j += 1;
        }
        r
    }

    /// Exact three-way comparison of the scores of classes `c` and `d`,
    /// given the precomputed score numerators and in-vocabulary token
    /// count.
    fn score_rel(
        &self,
        nums: &Vec<BigNat>,
        c: usize,
        d: usize,
        k: usize,
        Ghost(gt): Ghost<Seq<Seq<char>>>,
    ) -> (r: Rel)
        requires
            self.wf(),
            (c as int) < self.num_classes(),
            (d as int) < self.num_classes(),
            nums@.len() == self.num_classes(),
            forall|e: int|
                0 <= e < self.num_classes() ==> ((#[trigger] nums@[e]).value() as int)
                    == self.score_num_of(gt, e),
            k as nat == count_invocab(views_of(self.vocab_list()), gt),
        ensures
            (r == Rel::Gt <==> self.cross(gt, c as int, d as int) > self.cross(
                gt,
                d as int,
                c as int,
            )),
            (r == Rel::Eq <==> self.cross(gt, c as int, d as int) == self.cross(
                gt,
                d as int,
                c as int,
            )),
            (r == Rel::Lt <==> self.cross(gt, c as int, d as int) < self.cross(
                gt,
                d as int,
                c as int,
            )),
    {
        let a = self.raise(&nums[c], d, k);
        let b = self.raise(&nums[d], c, k);
        proof {
            assert(a.value() as int == self.cross(gt, c as int, d as int));
            assert(b.value() as int == self.cross(gt, d as int, c as int));
        }
        a.cmp_with(&b)
    }

    /// Score the document against every class and return every class whose
    /// score ties for the maximum, in class order.  A token outside the
    /// vocabulary contributes to no class's score; with no classes the
    /// result is empty.
    pub fn guess(&self, document: &Document) -> (r: Vec<String>)
        requires
            self.wf(),
        ensures
            r@ == self.top_prefix(tokenize(document.text@), self.num_classes()),
            self.num_classes() > 0 ==> r@.len() >= 1,
    {
        let toks = document.words();
        let ghost gt = tokenize(document.text@);
        if self.classes.len() == 0 {
            let out: Vec<String> = Vec::new();
            proof {
                assert(out@ =~= self.top_prefix(gt, 0));
            }
            return out;
        }
        let ghost vs = views_of(self.vocab_list());
        let mut k: usize = 0;
        let mut ti: usize = 0;
        proof {
            assert(gt.take(0) =~= Seq::<Seq<char>>::empty());
        }
        while ti < toks.len()
            invariant
                ti <= toks@.len(),
                k <= ti,
                views_of(toks@) == gt,
                vs == views_of(self.vocab_list()),
                k as nat == count_invocab(vs, gt.take(ti as int)),
            decreases toks@.len() - ti,
        {
            proof {
                assert(gt.take(ti as int + 1).drop_last() =~= gt.take(ti as int));
                assert(gt.take(ti as int + 1).last() == toks@[ti as int]@);
            }
            if find_index(&self.vocab, &toks[ti]).is_some() {
                k += 1;
            }
            ti += 1;
        }
        proof {
            assert(gt.take(toks@.len() as int) =~= gt);
        }
        let mut nums: Vec<BigNat> = Vec::new();
        let mut c: usize = 0;
        while c < self.classes.len()
            invariant
                c <= self.num_classes(),
                views_of(toks@) == gt,
                vs == views_of(self.vocab_list()),
                self.wf(),
                nums@.len() == c,
                forall|e: int|
                    0 <= e < c ==> ((#[trigger] nums@[e]).value() as int) == self.score_num_of(
                        gt,
                        e,
                    ),
            decreases self.num_classes() - c,
        {
            let mut b = BigNat::one();
            let mut tj: usize = 0;
            proof {
                assert(gt.take(0) =~= Seq::<Seq<char>>::empty());
            }
            while tj < toks.len()
                invariant
                    tj <= toks@.len(),
                    views_of(toks@) == gt,
                    vs == views_of(self.vocab_list()),
                    (c as int) < self.num_classes(),
                    self.wf(),
                    (b.value() as int) == score_num(self.counts_row(c as int), vs, gt.take(
                        tj as int,
                    )),
                decreases toks@.len() - tj,
            {
                proof {
                    assert(gt.take(tj as int + 1).drop_last() =~= gt.take(tj as int));
                    assert(gt.take(tj as int + 1).last() == toks@[tj as int]@);
                }
                let fi = find_index(&self.vocab, &toks[tj]);
                match fi {
                    Some(ix) => {
                        proof {
                            lemma_row_total_bounds(self.counts_row(c as int));
                            assert(self.counts_row(c as int)[ix as int] + 1 <= self.class_total(
                                c as int,
                            ));
                            assert(self.counts@[c as int]@[ix as int] == self.counts_row(
                                c as int,
                            )[ix as int]);
                        }
                        let f: u128 = self.counts[c][ix] + 1;
                        let ghost oldb = b.value() as int;
                        b = b.mul_wide(f);
                        proof {
                            assert(token_factor(
                                self.counts_row(c as int),
                                vs,
                                gt.take(tj as int + 1).last(),
                            ) == f as int);
                            assert(b.value() as int == oldb * (f as int));
                        }
                    },
                    None => {
                        proof {
                            assert(token_factor(
                                self.counts_row(c as int),
                                vs,
                                gt.take(tj as int + 1).last(),
                            ) == 1);
                            assert((b.value() as int) * 1 == b.value() as int);
                        }
                    },
                }
                tj += 1;
            }
            proof {
                assert(gt.take(toks@.len() as int) =~= gt);
            }
            nums.push(b);
            c += 1;
        }
        let mut best: usize = 0;
        let mut c: usize = 1;
        while c < self.classes.len()
            invariant
                1 <= c <= self.num_classes(),
                (best as int) < c,
                views_of(toks@) == gt,
                vs == views_of(self.vocab_list()),
                self.wf(),
                nums@.len() == self.num_classes(),
                forall|e: int|
                    0 <= e < self.num_classes() ==> ((#[trigger] nums@[e]).value() as int)
                        == self.score_num_of(gt, e),
                k as nat == count_invocab(vs, gt),
                forall|e: int| 0 <= e < c ==> self.score_ge(gt, best as int, e),
            decreases self.num_classes() - c,
        {
            let rel = self.score_rel(&nums, c, best, k, Ghost(gt));
            if rel == Rel::Gt {
                proof {
                    assert forall|e: int| 0 <= e < c + 1 implies self.score_ge(
                        gt,
                        c as int,
                        e,
                    ) by {
                        if e < c as int {
                            self.lemma_score_ge_trans(gt, c as int, best as int, e);
                        }
                    }
                }
                best = c;
            } else {
                proof {
                    assert(self.score_ge(gt, best as int, c as int));
                }
            }
            c += 1;
        }
        proof {
            assert(self.is_top(gt, best as int));
        }
        let mut out: Vec<String> = Vec::new();
        let mut c: usize = 0;
        proof {
            assert(out@ =~= self.top_prefix(gt, 0));
        }
        while c < self.classes.len()
            invariant
                c <= self.num_classes(),
                (best as int) < self.num_classes(),
                views_of(toks@) == gt,
                vs == views_of(self.vocab_list()),
                self.wf(),
                nums@.len() == self.num_classes(),
                forall|e: int|
                    0 <= e < self.num_classes() ==> ((#[trigger] nums@[e]).value() as int)
                        == self.score_num_of(gt, e),
                k as nat == count_invocab(vs, gt),
                self.is_top(gt, best as int),
                out@ == self.top_prefix(gt, c as int),
                (c as int) > best ==> out@.len() >= 1,
            decreases self.num_classes() - c,
        {
            let rel = self.score_rel(&nums, c, best, k, Ghost(gt));
            if rel == Rel::Eq {
                let lbl: String = self.classes[c].clone();
                proof {
                    assert forall|d: int| 0 <= d < self.num_classes() implies self.score_ge(
                        gt,
                        c as int,
                        d,
                    ) by {
                        self.lemma_score_ge_trans(gt, c as int, best as int, d);
                    }
                    assert(self.is_top(gt, c as int));
                    assert(lbl == self.class_list()[c as int]);
                }
                out.push(lbl);
            } else {
                proof {
                    if self.is_top(gt, c as int) {
                        assert(self.score_ge(gt, c as int, best as int));
                        assert(self.score_ge(gt, best as int, c as int));
                        assert(false);
                    }
                }
            }
            c += 1;
        }
        out
    }
}

impl NaiveBayes {
    /// `N` and `N_c` for the named class: the two integers under its prior
    /// `log2(N / N_c)`.  Returns `None` exactly when the class is unknown.
    pub fn prior_parts(&self, class: &String) -> (r: Option<(usize, usize)>)
        requires
            self.wf(),
        ensures
            match r {
                Some(p) => {
                    let c = find_idx(views_of(self.class_list()), class@);
                    c >= 0 && p.0 as int == self.num_docs() && p.1 as int == self.class_doc_count(
                        c,
                    ) && p.1 >= 1
                },
                None => find_idx(views_of(self.class_list()), class@) == -1,
            },
    {
        match find_index(&self.classes, class) {
            Some(ix) => {
                proof {
                    assert(find_idx(views_of(self.class_list()), class@) == ix as int);
                    assert(self.class_doc_count(ix as int) >= 1);
                }
                Some((self.n_docs, self.class_docs[ix]))
            },
            None => None,
        }
    }

    /// The smoothed numerator `count(w, c) + 1` and denominator `T_c` of
    /// the likelihood of word `w` given the named class: the two integers
    /// under `log2((count + 1) / T_c)`.  Returns `Some` for every known
    /// (class, word) pair — the model is dense — and `None` exactly when
    /// the class or the word is unknown.
    pub fn likelihood_parts(&self, class: &String, word: &String) -> (r: Option<(u128, u128)>)
        requires
            self.wf(),
        ensures
            match r {
                Some(p) => {
                    let c = find_idx(views_of(self.class_list()), class@);
                    let v = find_idx(views_of(self.vocab_list()), word@);
                    c >= 0 && v >= 0 && p.0 as int == self.word_count(c, v) + 1 && p.1 as int
                        == self.class_total(c) && 1 <= p.0 <= p.1
                },
                None => find_idx(views_of(self.class_list()), class@) == -1 || find_idx(
                    views_of(self.vocab_list()),
                    word@,
                ) == -1,
            },
    {
        match find_index(&self.classes, class) {
            Some(c) => match find_index(&self.vocab, word) {
                Some(v) => {
                    proof {
                        assert(find_idx(views_of(self.class_list()), class@) == c as int);
                        assert(find_idx(views_of(self.vocab_list()), word@) == v as int);
                        assert(self.counts_row(c as int).len() == self.vocab_size());
                        assert(self.class_total(c as int) == row_total(self.counts_row(c as int)));
                        lemma_row_total_bounds(self.counts_row(c as int));
                        assert(self.counts@[c as int]@[v as int] == self.counts_row(
                            c as int,
                        )[v as int]);
                        assert(self.word_count(c as int, v as int) + 1 <= self.class_total(
                            c as int,
                        ));
                    }
                    Some((self.counts[c][v] + 1, self.totals[c]))
                },
                None => None,
            },
            None => None,
        }
    }
}

} // verus!
