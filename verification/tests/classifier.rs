use naive_bayes::Document;
use naive_bayes::NaiveBayes;
use naive_bayes::TrainError;

fn doc(class: &str, text: &str) -> Document {
    Document { class: class.to_string(), text: text.to_string() }
}

fn strings(xs: &[&str]) -> Vec<String> {
    xs.iter().map(|x| x.to_string()).collect()
}

/// The two-class, two-word scenario used by several tests: `pos` trained
/// on "good good", `neg` on "bad bad".
fn small_model() -> NaiveBayes {
    let docs = vec![doc("pos", "good good"), doc("neg", "bad bad")];
    NaiveBayes::new(&docs, strings(&["pos", "neg"]), strings(&["good", "bad"])).unwrap()
}

#[test]
fn words_splits_on_whitespace() {
    let d = doc("x", "  good  bad\tugly\nend");
    assert_eq!(d.words(), strings(&["good", "bad", "ugly", "end"]));
}

#[test]
fn words_of_empty_and_blank_text() {
    assert_eq!(doc("x", "").words(), Vec::<String>::new());
    assert_eq!(doc("x", " \t \n ").words(), Vec::<String>::new());
}

#[test]
fn end_to_end_counts() {
    let m = small_model();
    assert_eq!(m.prior_parts(&"pos".to_string()), Some((2, 1)));
    assert_eq!(m.prior_parts(&"neg".to_string()), Some((2, 1)));
    assert_eq!(m.prior_parts(&"zzz".to_string()), None);
    // count(good, pos) = 2, count(bad, pos) = 0; T_pos = (2+1)+(0+1) = 4.
    assert_eq!(m.likelihood_parts(&"pos".to_string(), &"good".to_string()), Some((3, 4)));
    assert_eq!(m.likelihood_parts(&"pos".to_string(), &"bad".to_string()), Some((1, 4)));
    assert_eq!(m.likelihood_parts(&"neg".to_string(), &"bad".to_string()), Some((3, 4)));
    assert_eq!(m.likelihood_parts(&"neg".to_string(), &"good".to_string()), Some((1, 4)));
    assert_eq!(m.likelihood_parts(&"pos".to_string(), &"zzz".to_string()), None);
}

#[test]
fn end_to_end_exact_likelihood_values() {
    let m = small_model();
    let (n, d) = m.likelihood_parts(&"pos".to_string(), &"good".to_string()).unwrap();
    let lik_good = (n as f64 / d as f64).log2();
    assert_eq!(lik_good, 0.75f64.log2());
    let (n2, d2) = m.likelihood_parts(&"pos".to_string(), &"bad".to_string()).unwrap();
    let lik_bad = (n2 as f64 / d2 as f64).log2();
    assert_eq!(lik_bad, -2.0);
    let (pn, pd) = m.prior_parts(&"pos".to_string()).unwrap();
    let prior = (pn as f64 / pd as f64).log2();
    assert_eq!(prior, 1.0);
}

#[test]
fn end_to_end_classification() {
    let m = small_model();
    assert_eq!(m.guess(&doc("", "good")), strings(&["pos"]));
    assert_eq!(m.guess(&doc("", "bad")), strings(&["neg"]));
    // On "good bad" the two classes score identically:
    // pos: 1 + log2(3/4) + log2(1/4) == neg: 1 + log2(1/4) + log2(3/4).
    assert_eq!(m.guess(&doc("", "good bad")), strings(&["pos", "neg"]));
}

#[test]
fn guess_ignores_document_label() {
    let m = small_model();
    assert_eq!(m.guess(&doc("neg", "good")), strings(&["pos"]));
}

#[test]
fn tie_returns_both_labels() {
    // Identical training data for both classes forces identical scores.
    let docs = vec![doc("a", "x"), doc("b", "x")];
    let m = NaiveBayes::new(&docs, strings(&["a", "b"]), strings(&["x"])).unwrap();
    assert_eq!(m.guess(&doc("", "x")), strings(&["a", "b"]));
    assert_eq!(m.guess(&doc("", "x x x")), strings(&["a", "b"]));
}

#[test]
fn unknown_words_leave_priors() {
    // Priors are log2(N / N_c), so the smaller class scores higher on a
    // document with no vocabulary word.
    let docs = vec![doc("pos", "w"), doc("neg", "w"), doc("neg", "w"), doc("neg", "w")];
    let m = NaiveBayes::new(&docs, strings(&["pos", "neg"]), strings(&["w"])).unwrap();
    assert_eq!(m.guess(&doc("", "zzz qqq")), strings(&["pos"]));
    // With equal priors, all classes tie on an out-of-vocabulary document.
    let m2 = small_model();
    assert_eq!(m2.guess(&doc("", "zzz qqq")), strings(&["pos", "neg"]));
}

#[test]
fn empty_class_set_gives_empty_result() {
    let docs = vec![doc("pos", "good")];
    let m = NaiveBayes::new(&docs, Vec::new(), strings(&["good"])).unwrap();
    assert_eq!(m.guess(&doc("", "good")), Vec::<String>::new());
}

#[test]
fn empty_vocabulary_is_rejected() {
    let docs = vec![doc("pos", "good")];
    let e = match NaiveBayes::new(&docs, strings(&["pos"]), Vec::new()) {
        Err(e) => e,
        Ok(_) => panic!("training should have been rejected"),
    };
    assert_eq!(e, TrainError::EmptyVocabulary);
    assert_eq!(e.message(), "the vocabulary is empty");
}

#[test]
fn class_without_documents_is_rejected() {
    let docs = vec![doc("a", "x y")];
    let e = match NaiveBayes::new(&docs, strings(&["a", "b"]), strings(&["x"])) {
        Err(e) => e,
        Ok(_) => panic!("training should have been rejected"),
    };
    assert_eq!(e, TrainError::DegenerateClass);
    assert_eq!(e.message(), "a class has no training documents");
}

#[test]
fn training_is_deterministic() {
    let docs = vec![doc("a", "x y x"), doc("b", "y"), doc("a", "z")];
    let classes = strings(&["a", "b"]);
    let vocab = strings(&["x", "y", "z"]);
    let m1 = NaiveBayes::new(&docs, classes.clone(), vocab.clone()).unwrap();
    let m2 = NaiveBayes::new(&docs, classes.clone(), vocab.clone()).unwrap();
    for c in &classes {
        assert_eq!(m1.prior_parts(c), m2.prior_parts(c));
        for w in &vocab {
            assert_eq!(m1.likelihood_parts(c, w), m2.likelihood_parts(c, w));
        }
    }
    assert_eq!(m1.guess(&doc("", "x z")), m2.guess(&doc("", "x z")));
}

#[test]
fn class_document_counts_partition_the_corpus() {
    let docs = vec![doc("a", "p"), doc("b", "q"), doc("a", "r")];
    let m = NaiveBayes::new(&docs, strings(&["a", "b"]), strings(&["p"])).unwrap();
    let (n_a, nc_a) = m.prior_parts(&"a".to_string()).unwrap();
    let (n_b, nc_b) = m.prior_parts(&"b".to_string()).unwrap();
    assert_eq!(n_a, 3);
    assert_eq!(n_b, 3);
    assert_eq!(nc_a + nc_b, 3);
}

#[test]
fn likelihood_table_is_dense() {
    let docs = vec![doc("a", "x"), doc("b", "y y")];
    let classes = strings(&["a", "b"]);
    let vocab = strings(&["x", "y", "unseen"]);
    let m = NaiveBayes::new(&docs, classes.clone(), vocab.clone()).unwrap();
    for c in &classes {
        for w in &vocab {
            let (num, den) = m.likelihood_parts(c, w).expect("entry must exist");
            assert!(num >= 1);
            assert!(den >= num);
            let lik = (num as f64 / den as f64).log2();
            assert!(lik.is_finite());
        }
    }
}

#[test]
fn long_documents_classify_correctly() {
    // With 40 scoring tokens the exact score products exceed 128 bits,
    // so classification must stay correct on multi-limb arithmetic.
    let docs = vec![doc("a", "x x x"), doc("b", "x")];
    let m = NaiveBayes::new(&docs, strings(&["a", "b"]), strings(&["x", "y"])).unwrap();
    // Likelihood of "x": a: 4/5, b: 2/3; priors are equal (log2(2/1)).
    let text = "x ".repeat(40);
    assert_eq!(m.guess(&doc("", &text)), strings(&["a"]));
}

#[test]
fn vocabulary_word_never_seen_gets_smoothed_count_one() {
    let docs = vec![doc("a", "x x x")];
    let m = NaiveBayes::new(&docs, strings(&["a"]), strings(&["x", "unseen"])).unwrap();
    // T_a = (3+1) + (0+1) = 5.
    assert_eq!(m.likelihood_parts(&"a".to_string(), &"x".to_string()), Some((4, 5)));
    assert_eq!(m.likelihood_parts(&"a".to_string(), &"unseen".to_string()), Some((1, 5)));
}
