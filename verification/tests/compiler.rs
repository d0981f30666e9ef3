use icon_classifier::corpus::{compile, CorpusError};
use icon_classifier::ngram::GramKind;

#[test]
fn trigram_scenario_artifacts() {
    let corpus = b"3 catanimal\n3 carvehicle\n4 cartvehicle";
    let model = compile(GramKind::Trigram, corpus).unwrap();
    assert_eq!(
        model.vocab,
        vec![b"cat".to_vec(), b"car".to_vec(), b"art".to_vec()]
    );
    assert_eq!(model.labels, vec![b"animal".to_vec(), b"vehicle".to_vec()]);
    assert_eq!(model.examples.len(), 3);
    assert_eq!(model.examples[0].features, vec![true, false, false]);
    assert_eq!(model.examples[0].label, 0);
    assert_eq!(model.examples[1].features, vec![false, true, false]);
    assert_eq!(model.examples[1].label, 1);
    assert_eq!(model.examples[2].features, vec![false, true, true]);
    assert_eq!(model.examples[2].label, 1);
}

#[test]
fn empty_corpus_yields_empty_artifacts() {
    let model = compile(GramKind::Trigram, b"").unwrap();
    assert!(model.labels.is_empty());
    assert!(model.vocab.is_empty());
    assert!(model.examples.is_empty());
    let digram = compile(GramKind::Digram, b"").unwrap();
    assert!(digram.labels.is_empty());
    assert!(digram.vocab.is_empty());
    assert!(digram.examples.is_empty());
}

#[test]
fn malformed_line_no_space() {
    let r = compile(GramKind::Trigram, b"catanimal");
    assert_eq!(r.err(), Some(CorpusError { line: 0 }));
}

#[test]
fn malformed_line_non_numeric_length() {
    let r = compile(GramKind::Trigram, b"x catanimal");
    assert_eq!(r.err(), Some(CorpusError { line: 0 }));
}

#[test]
fn malformed_line_empty_length() {
    let r = compile(GramKind::Trigram, b" catanimal");
    assert_eq!(r.err(), Some(CorpusError { line: 0 }));
}

#[test]
fn malformed_line_length_too_long() {
    let r = compile(GramKind::Trigram, b"9 cat");
    assert_eq!(r.err(), Some(CorpusError { line: 0 }));
}

#[test]
fn malformed_line_huge_length() {
    let r = compile(GramKind::Trigram, b"99999999999999999999999999 cat");
    assert_eq!(r.err(), Some(CorpusError { line: 0 }));
}

#[test]
fn error_reports_first_bad_line() {
    let r = compile(GramKind::Trigram, b"3 catanimal\nbogus\nalso bad");
    assert_eq!(r.err(), Some(CorpusError { line: 1 }));
}

#[test]
fn leading_zeros_in_length_accepted() {
    let model = compile(GramKind::Trigram, b"003 catanimal").unwrap();
    assert_eq!(model.labels, vec![b"animal".to_vec()]);
    assert_eq!(model.vocab, vec![b"cat".to_vec()]);
}

#[test]
fn crlf_line_endings() {
    let unix = compile(GramKind::Trigram, b"3 catanimal\n3 carvehicle\n").unwrap();
    let dos = compile(GramKind::Trigram, b"3 catanimal\r\n3 carvehicle\r\n").unwrap();
    assert_eq!(unix.labels, dos.labels);
    assert_eq!(unix.vocab, dos.vocab);
    assert_eq!(unix.examples.len(), dos.examples.len());
}

#[test]
fn trailing_newline_opens_no_line() {
    let model = compile(GramKind::Trigram, b"3 catanimal\n").unwrap();
    assert_eq!(model.examples.len(), 1);
}

#[test]
fn repeated_ngram_in_one_name_counts_once() {
    let model = compile(GramKind::Trigram, b"6 catcatfeline").unwrap();
    assert_eq!(
        model.vocab,
        vec![b"cat".to_vec(), b"atc".to_vec(), b"tca".to_vec()]
    );
    assert_eq!(model.examples[0].features, vec![true, true, true]);
}

#[test]
fn trigram_windows_lower_cased_and_alphabetic_only() {
    let model = compile(GramKind::Trigram, b"4 CA1Tthing").unwrap();
    assert!(model.vocab.is_empty());
    let upper = compile(GramKind::Trigram, b"3 CATanimal").unwrap();
    assert_eq!(upper.vocab, vec![b"cat".to_vec()]);
}

#[test]
fn digram_artifacts_skip_spaces_and_lower_case() {
    let model = compile(GramKind::Digram, b"3 a bmark\n2 ABx").unwrap();
    // "a b" has no digram free of spaces; "AB" lowers to one digram
    assert_eq!(model.vocab, vec![b"ab".to_vec()]);
    assert_eq!(model.labels, vec![b"mark".to_vec(), b"x".to_vec()]);
    assert_eq!(model.examples[0].features, vec![false]);
    assert_eq!(model.examples[1].features, vec![true]);
}

#[test]
fn compiled_artifacts_pass_the_runtime_check() {
    let model = compile(GramKind::Trigram, b"3 catanimal\n3 carvehicle").unwrap();
    assert!(model.is_wf());
}
