use icon_classifier::classify;
use icon_classifier::corpus::compile;
use icon_classifier::ngram::GramKind;

#[test]
fn concrete_scenario() {
    let corpus = b"3 catanimal\n3 carvehicle\n4 cartvehicle";
    let model = compile(GramKind::Trigram, corpus).unwrap();
    // prior(animal) = 1/3, likelihood(cat, animal) = 1, so the score is
    // log2(1/3), a valid negative value; for vehicle the likelihood of
    // "cat" is 0, the score is -infinity, and the label is dropped.
    let result = classify(&model, b"cat");
    assert_eq!(result, vec![b"animal".to_vec()]);
}

#[test]
fn classification_is_deterministic() {
    let corpus = b"3 catanimal\n3 carvehicle\n4 cartvehicle";
    let model = compile(GramKind::Trigram, corpus).unwrap();
    let first = classify(&model, b"cart");
    let second = classify(&model, b"cart");
    let third = classify(&model, b"cart");
    assert_eq!(first, second);
    assert_eq!(second, third);
}

#[test]
fn no_trigram_query_ranks_by_prior() {
    let corpus = b"3 catanimal\n3 carvehicle\n4 cartvehicle";
    let model = compile(GramKind::Trigram, corpus).unwrap();
    // "12" yields no alphabetic trigram, so each label scores
    // log2(prior) alone: vehicle (2/3) ranks above animal (1/3).
    let result = classify(&model, b"12");
    assert_eq!(result, vec![b"vehicle".to_vec(), b"animal".to_vec()]);
}

#[test]
fn empty_query_ranks_by_prior() {
    let corpus = b"3 catanimal\n3 carvehicle\n4 cartvehicle";
    let model = compile(GramKind::Trigram, corpus).unwrap();
    let result = classify(&model, b"");
    assert_eq!(result, vec![b"vehicle".to_vec(), b"animal".to_vec()]);
}

#[test]
fn zero_score_label_filtered() {
    // a single label with prior 1 and likelihood 1 scores exactly zero,
    // which is not a valid value, so even a perfect match returns nothing
    let model = compile(GramKind::Trigram, b"3 catx").unwrap();
    let result = classify(&model, b"cat");
    assert!(result.is_empty());
}

#[test]
fn unknown_ngram_filters_every_label() {
    let corpus = b"3 catanimal\n3 carvehicle\n4 cartvehicle";
    let model = compile(GramKind::Trigram, corpus).unwrap();
    // "dog" is not in the vocabulary: every label's likelihood is 0 and
    // every score is -infinity
    let result = classify(&model, b"dog");
    assert!(result.is_empty());
}

#[test]
fn empty_corpus_classifies_to_nothing() {
    let model = compile(GramKind::Trigram, b"").unwrap();
    assert!(classify(&model, b"cat").is_empty());
    assert!(classify(&model, b"").is_empty());
    assert!(classify(&model, b"anything at all").is_empty());
}

#[test]
fn at_most_ten_labels_returned() {
    let mut corpus: Vec<u8> = Vec::new();
    for i in 0..12 {
        let line = format!("1 alabel{:02}\n", i);
        corpus.extend_from_slice(line.as_bytes());
    }
    let model = compile(GramKind::Trigram, &corpus).unwrap();
    assert_eq!(model.labels.len(), 12);
    // the query has no trigram, every prior is 1/12, and equal scores
    // order by first occurrence: the first ten labels come back
    let result = classify(&model, b"1");
    assert_eq!(result.len(), 10);
    for (i, label) in result.iter().enumerate() {
        assert_eq!(label, &format!("label{:02}", i).into_bytes());
    }
}

#[test]
fn priors_rank_descending() {
    let corpus = b"1 athree\n1 athree\n1 athree\n1 atwo\n1 atwo\n1 aone";
    let model = compile(GramKind::Trigram, corpus).unwrap();
    let result = classify(&model, b"9");
    assert_eq!(
        result,
        vec![b"three".to_vec(), b"two".to_vec(), b"one".to_vec()]
    );
}

#[test]
fn queries_fold_case() {
    let model = compile(GramKind::Trigram, b"3 CATanimal\n3 carvehicle").unwrap();
    let result = classify(&model, b"cAt");
    assert_eq!(result, vec![b"animal".to_vec()]);
}

#[test]
fn digram_variant_classifies() {
    let model = compile(GramKind::Digram, b"2 abx\n2 cdy").unwrap();
    // likelihood("ab", x) = 1 and prior(x) = 1/2: score log2(1/2); for y
    // the likelihood is 0 and the label is dropped
    let result = classify(&model, b"ab");
    assert_eq!(result, vec![b"x".to_vec()]);
}

#[test]
fn likelihood_outweighs_prior() {
    // prior(a) = 3/5 beats prior(b) = 2/5, but only one of the three "a"
    // examples contains "cat" while both "b" examples do: the scores are
    // log2(1/5) for a and log2(2/5) for b, so b ranks first
    let corpus = b"3 cata\n3 cota\n3 coga\n3 catb\n3 catb";
    let model = compile(GramKind::Trigram, corpus).unwrap();
    let result = classify(&model, b"cat");
    assert_eq!(result, vec![b"b".to_vec(), b"a".to_vec()]);
}

#[test]
fn two_survivors_with_long_products_rank_exactly() {
    // 100 examples of label x and 101 of label y, all with the same name:
    // the score ratios are 100/201 and 101/201, but the cross-multiplied
    // products that decide the order run to hundreds of bits
    let name = "abcdefghijklmnopqrstuvwxyz";
    let mut corpus: Vec<u8> = Vec::new();
    for _ in 0..100 {
        let line = format!("26 {}x\n", name);
        corpus.extend_from_slice(line.as_bytes());
    }
    for _ in 0..101 {
        let line = format!("26 {}y\n", name);
        corpus.extend_from_slice(line.as_bytes());
    }
    let model = compile(GramKind::Trigram, &corpus).unwrap();
    let result = classify(&model, name.as_bytes());
    assert_eq!(result, vec![b"y".to_vec(), b"x".to_vec()]);
}

#[test]
fn long_products_compare_exactly() {
    // 100 examples of one label sharing 24 trigrams give score products
    // near 100^25, far beyond any machine word; the ratio is 100/101 and
    // the label must survive and win
    let name = "abcdefghijklmnopqrstuvwxyz";
    let mut corpus: Vec<u8> = Vec::new();
    for _ in 0..100 {
        let line = format!("26 {}x\n", name);
        corpus.extend_from_slice(line.as_bytes());
    }
    corpus.extend_from_slice(b"3 aaay\n");
    let model = compile(GramKind::Trigram, &corpus).unwrap();
    assert_eq!(model.examples.len(), 101);
    let result = classify(&model, name.as_bytes());
    assert_eq!(result, vec![b"x".to_vec()]);
}
