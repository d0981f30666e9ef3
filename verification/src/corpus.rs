//! The corpus compiler.
//!
//! A training corpus is a sequence of text lines, each of the form
//! `<name_length> <name><label>`: a decimal byte count, one space, and then
//! the name (exactly `name_length` bytes) followed by the label (the rest of
//! the line). Compilation turns the corpus into three immutable artifacts:
//! the ordered set of distinct labels, the ordered vocabulary of distinct
//! n-grams, and one boolean feature vector per training example. A malformed
//! line is a fatal configuration error and compilation reports the first one.

use vstd::prelude::*;

use crate::ngram::{
    extract_grams, grams, push_new, views, vec_range, GramKind,
};

verus! {

/// The least index at or after which `x` occurs in `s`, or `-1` when it does
/// not occur.
pub open spec fn first_index<A>(s: Seq<A>, x: A) -> int
    decreases s.len(),
{
    if s.len() == 0 {
        -1
    } else if s[0] == x {
        0
    } else {
        let r = first_index(s.skip(1), x);
        if r < 0 {
            -1
        } else {
            r + 1
        }
    }
}

/// What `first_index` returns: the first occurrence of `x`, or `-1` when
/// `s` does not contain `x`.
pub proof fn lemma_first_index<A>(s: Seq<A>, x: A)
    ensures
        first_index(s, x) == -1 <==> !s.contains(x),
        first_index(s, x) >= 0 ==> {
            let r = first_index(s, x);
            &&& r < s.len()
            &&& s[r] == x
            &&& forall|j: int| 0 <= j < r ==> s[j] != x
        },
    decreases s.len(),
{
    if s.len() == 0 {
    } else if s[0] == x {
    } else {
        lemma_first_index(s.skip(1), x);
        let r = first_index(s.skip(1), x);
        if r >= 0 {
            assert(s[r + 1] == s.skip(1)[r]);
            assert(forall|j: int| 1 <= j < r + 1 ==> s[j] == s.skip(1)[j - 1]);
        } else {
            assert(forall|j: int| 1 <= j < s.len() ==> s[j] == s.skip(1)[j - 1]);
            assert(forall|j: int| 0 <= j < s.len() ==> s[j] != x);
            assert(!s.contains(x));
        }
    }
}

/// A line with its single trailing carriage return removed, as the line
/// splitter does for lines ended by a carriage return and a line feed.
pub open spec fn strip_cr(s: Seq<u8>) -> Seq<u8> {
    if s.len() > 0 && s.last() == 13 {
        s.drop_last()
    } else {
        s
    }
}

/// The corpus text split into lines at line feeds. A carriage return just
/// before a line feed is not part of the line, and a final line feed does not
/// open a last, empty line.
pub open spec fn split_lines(s: Seq<u8>) -> Seq<Seq<u8>>
    decreases s.len(),
    via split_lines_decreases
{
    if s.len() == 0 {
        Seq::empty()
    } else {
        let i = first_index(s, 10u8);
        if i < 0 {
            seq![s]
        } else {
            seq![strip_cr(s.take(i))] + split_lines(s.skip(i + 1))
        }
    }
}

#[via_fn]
proof fn split_lines_decreases(s: Seq<u8>) {
    lemma_first_index(s, 10u8);
}

/// Whether `b` is an ASCII decimal digit.
pub open spec fn is_digit(b: u8) -> bool {
    48 <= b && b <= 57
}

/// Whether every byte of `s` is an ASCII decimal digit.
pub open spec fn all_digits(s: Seq<u8>) -> bool {
    forall|i: int| 0 <= i < s.len() ==> is_digit(#[trigger] s[i])
}

/// The value of `s` read as a decimal numeral.
pub open spec fn digits_val(s: Seq<u8>) -> int
    decreases s.len(),
{
    if s.len() == 0 {
        0
    } else {
        digits_val(s.drop_last()) * 10 + (s.last() - 48)
    }
}

/// The position of the space separating the length field from the rest.
pub open spec fn line_sep(line: Seq<u8>) -> int {
    first_index(line, 32u8)
}

/// Whether a corpus line is well formed: a nonempty decimal length field,
/// one space, and a name length that both fits in `usize` and leaves room
/// for the name itself.
pub open spec fn line_wf(line: Seq<u8>) -> bool {
    let sp = line_sep(line);
    &&& sp >= 1
    &&& all_digits(line.take(sp))
    &&& digits_val(line.take(sp)) <= usize::MAX
    &&& sp + 1 + digits_val(line.take(sp)) <= line.len()
}

/// The name of a well-formed line: the `name_length` bytes after the space.
pub open spec fn line_name(line: Seq<u8>) -> Seq<u8> {
    let sp = line_sep(line);
    let n = digits_val(line.take(sp));
    line.subrange(sp + 1, sp + 1 + n)
}

/// The label of a well-formed line: everything after the name.
pub open spec fn line_label(line: Seq<u8>) -> Seq<u8> {
    let sp = line_sep(line);
    let n = digits_val(line.take(sp));
    line.subrange(sp + 1 + n, line.len() as int)
}

/// Whether every line of the corpus is well formed.
pub open spec fn all_lines_wf(lines: Seq<Seq<u8>>) -> bool {
    forall|i: int| 0 <= i < lines.len() ==> line_wf(#[trigger] lines[i])
}

/// The labels of the lines, in line order, duplicates kept.
pub open spec fn lines_labels(lines: Seq<Seq<u8>>) -> Seq<Seq<u8>> {
    lines.map_values(|l: Seq<u8>| line_label(l))
}

/// The label set of the corpus: distinct labels in first-occurrence order.
pub open spec fn spec_labels(lines: Seq<Seq<u8>>) -> Seq<Seq<u8>> {
    lines_labels(lines).remove_duplicates(Seq::empty())
}

/// The vocabulary collected from the names of the first `n` lines: distinct
/// n-grams in first-occurrence order.
pub open spec fn vocab_upto(kind: GramKind, lines: Seq<Seq<u8>>, n: int) -> Seq<Seq<u8>>
    decreases n,
{
    if n <= 0 {
        Seq::empty()
    } else {
        grams(kind, line_name(lines[n - 1])).remove_duplicates(vocab_upto(kind, lines, n - 1))
    }
}

/// The vocabulary of the corpus.
pub open spec fn spec_vocab(kind: GramKind, lines: Seq<Seq<u8>>) -> Seq<Seq<u8>> {
    vocab_upto(kind, lines, lines.len() as int)
}

/// The feature vector of a name: one boolean per vocabulary entry, true
/// exactly when that n-gram occurs in the name.
pub open spec fn spec_features(kind: GramKind, name: Seq<u8>, vocab: Seq<Seq<u8>>) -> Seq<bool> {
    Seq::new(vocab.len(), |j: int| grams(kind, name).contains(vocab[j]))
}

/// One training example: its feature vector and the index of its label in
/// the label set.
pub struct Example {
    /// One boolean per vocabulary entry: whether that n-gram occurs in the
    /// example's name.
    pub features: Vec<bool>,
    /// The index of the example's label in the label set.
    pub label: usize,
}

/// The compiled artifacts: label set, vocabulary, and training table, all
/// immutable once compiled.
pub struct Model {
    /// The deployed n-gram variant.
    pub kind: GramKind,
    /// Distinct labels, in first-occurrence order.
    pub labels: Vec<Vec<u8>>,
    /// Distinct n-grams, in first-occurrence order.
    pub vocab: Vec<Vec<u8>>,
    /// One entry per corpus line, in corpus order.
    pub examples: Vec<Example>,
}

impl Model {
    /// The structural invariant of compiled artifacts: labels and vocabulary
    /// hold no duplicates, every feature vector has one entry per vocabulary
    /// n-gram, and every example's label index is in range.
    pub open spec fn wf(self) -> bool {
        &&& views(self.labels@).no_duplicates()
        &&& views(self.vocab@).no_duplicates()
        &&& forall|i: int|
            0 <= i < self.examples@.len() ==> (#[trigger] self.examples@[i]).label
                < self.labels@.len() && self.examples@[i].features@.len() == self.vocab@.len()
    }

    /// Checks the structural invariant at run time, for callers that did not
    /// obtain the artifacts from the compiler.
    pub fn is_wf(&self) -> (r: bool)
        ensures
            r == self.wf(),
    {
        if !crate::ngram::all_distinct(&self.labels) {
            return false;
        }
        if !crate::ngram::all_distinct(&self.vocab) {
            return false;
        }
        let mut i: usize = 0;
        while i < self.examples.len()
            invariant
                i <= self.examples@.len(),
                forall|j: int|
                    0 <= j < i ==> (#[trigger] self.examples@[j]).label < self.labels@.len()
                        && self.examples@[j].features@.len() == self.vocab@.len(),
            decreases self.examples@.len() - i,
        {
            if self.examples[i].label >= self.labels.len() {
                return false;
            }
            if self.examples[i].features.len() != self.vocab.len() {
                return false;
            }
            i = i + 1;
        }
        true
    }
}

/// A malformed corpus line, reported by the compiler: a fatal configuration
/// error, as a process must not start serving with corrupt tables.
#[derive(Clone, Copy, Debug, PartialEq, Eq, Structural)]
pub struct CorpusError {
    /// The index of the first malformed line.
    pub line: usize,
}

/// Distinct elements, in first-occurrence order, appended to distinct `seen`,
/// stay distinct.
proof fn lemma_remove_duplicates_distinct<A>(s: Seq<A>, seen: Seq<A>)
    requires
        seen.no_duplicates(),
    ensures
        s.remove_duplicates(seen).no_duplicates(),
        forall|x: A| s.remove_duplicates(seen).contains(x) <==> (s + seen).contains(x),
    decreases s.len(),
{
    broadcast use vstd::seq_lib::group_seq_properties;

    s.lemma_remove_duplicates_properties(seen);
    if s.len() == 0 {
    } else if seen.contains(s[0]) {
        lemma_remove_duplicates_distinct(s.skip(1), seen);
    } else {
        let seen2 = seen + seq![s[0]];
        assert(seen2.no_duplicates()) by {
            assert(forall|i: int| 0 <= i < seen.len() ==> seen2[i] == seen[i]);
            assert(seen2[seen.len() as int] == s[0]);
        }
        lemma_remove_duplicates_distinct(s.skip(1), seen2);
    }
}

/// Splits the corpus text into lines.
pub fn split_corpus_lines(corpus: &[u8]) -> (r: Vec<Vec<u8>>)
    ensures
        views(r@) == split_lines(corpus@),
{
    let ghost s = corpus@;
    let n = corpus.len();
    let mut out: Vec<Vec<u8>> = Vec::new();
    let mut start: usize = 0;
    proof {
        assert(s.skip(0) =~= s);
        assert(views(out@) + split_lines(s) =~= split_lines(s));
    }
    while start < n
        invariant
            start <= n,
            n == s.len(),
            s == corpus@,
            split_lines(s) == views(out@) + split_lines(s.skip(start as int)),
        decreases n - start,
    {
        let ghost rest = s.skip(start as int);
        let mut j: usize = start;
        while j < n && corpus[j] != 10
            invariant
                start <= j <= n,
                n == s.len(),
                s == corpus@,
                forall|m: int| start <= m < j ==> s[m] != 10,
            decreases n - j,
        {
            j = j + 1;
        }
        proof {
            assert(forall|m: int| 0 <= m < j - start ==> rest[m] == s[start + m] && rest[m] != 10);
            lemma_first_index(rest, 10u8);
        }
        if j == n {
            // no line feed remains: the rest is the final line
            proof {
                assert(first_index(rest, 10u8) == -1) by {
                    if first_index(rest, 10u8) >= 0 {
                        assert(rest[first_index(rest, 10u8)] == 10);
                    }
                }
                assert(split_lines(rest) =~= seq![rest]);
            }
            let line = vec_range(corpus, start, n);
            proof {
                assert(line@ =~= rest);
            }
            out.push(line);
            start = n;
            proof {
                assert(s.skip(n as int) =~= Seq::empty());
                assert(split_lines(s.skip(n as int)) =~= Seq::<Seq<u8>>::empty());
                assert(split_lines(s) =~= views(out@) + split_lines(s.skip(n as int)));
            }
        } else {
            proof {
                assert(rest[j - start] == s[j as int]);
                assert(first_index(rest, 10u8) == j - start) by {
                    lemma_first_index(rest, 10u8);
                    if first_index(rest, 10u8) < 0 {
                        assert(rest.contains(rest[j - start]));
                    } else {
                        let r = first_index(rest, 10u8);
                        if r < j - start {
                            assert(rest[r] == 10);
                        }
                        if r > j - start {
                            assert(rest[j - start] != 10);
                        }
                    }
                }
                assert(rest.take(j - start) =~= s.subrange(start as int, j as int));
                assert(rest.skip(j - start + 1) =~= s.skip(j + 1));
            }
            let line = if j > start && corpus[j - 1] == 13 {
                vec_range(corpus, start, j - 1)
            } else {
                vec_range(corpus, start, j)
            };
            proof {
                let seg = s.subrange(start as int, j as int);
                if j > start && s[j - 1] == 13 {
                    assert(seg.last() == 13);
                    assert(line@ =~= seg.drop_last());
                } else {
                    if seg.len() > 0 {
                        assert(seg.last() == s[j - 1]);
                    }
                    assert(line@ =~= seg);
                }
                assert(line@ == strip_cr(seg));
            }
            out.push(line);
            proof {
                assert(split_lines(rest) == seq![strip_cr(rest.take(j - start))] + split_lines(
                    rest.skip(j - start + 1),
                ));
                assert(strip_cr(rest.take(j - start)) == strip_cr(
                    s.subrange(start as int, j as int),
                ));
                assert(split_lines(s) =~= views(out@) + split_lines(s.skip(j + 1)));
            }
            start = j + 1;
        }
    }
    proof {
        assert(s.skip(n as int) =~= Seq::empty());
        assert(split_lines(s) =~= views(out@));
    }
    out
}

/// Parses one corpus line into its name and label, or reports that the line
/// is malformed: no space, a non-numeric or oversized length field, or a
/// length that exceeds what follows the space.
pub fn parse_line(line: &Vec<u8>) -> (r: Option<(Vec<u8>, Vec<u8>)>)
    ensures
        match r {
            Some(p) => line_wf(line@) && p.0@ == line_name(line@) && p.1@ == line_label(line@),
            None => !line_wf(line@),
        },
{
    let ghost l = line@;
    let n = line.len();
    // find the separating space
    let mut sp: usize = 0;
    while sp < n && line[sp] != 32
        invariant
            sp <= n,
            n == l.len(),
            l == line@,
            forall|m: int| 0 <= m < sp ==> l[m] != 32,
        decreases n - sp,
    {
        sp = sp + 1;
    }
    proof {
        lemma_first_index(l, 32u8);
    }
    if sp == n {
        proof {
            assert(first_index(l, 32u8) == -1) by {
                if first_index(l, 32u8) >= 0 {
                    assert(l[first_index(l, 32u8)] == 32);
                }
            }
        }
        return None;
    }
    proof {
        assert(line_sep(l) == sp) by {
            if first_index(l, 32u8) < 0 {
                assert(l.contains(l[sp as int]));
            } else {
                let r = first_index(l, 32u8);
                if r < sp {
                    assert(l[r] == 32);
                }
                if r > sp {
                    assert(l[sp as int] != 32);
                }
            }
        }
    }
    if sp == 0 {
        return None;
    }
    // parse the decimal length field
    let ghost field = l.take(sp as int);
    let mut val: usize = 0;
    let mut i: usize = 0;
    while i < sp
        invariant
            i <= sp < n,
            n == l.len(),
            l == line@,
            field == l.take(sp as int),
            line_sep(l) == sp,
            all_digits(l.take(i as int)),
            val == digits_val(l.take(i as int)),
        decreases sp - i,
    {
        let b = line[i];
        if b < 48 || b > 57 {
            proof {
                assert(field[i as int] == l[i as int]);
                assert(!all_digits(field));
            }
            return None;
        }
        let d = (b - 48) as usize;
        let next = match val.checked_mul(10) {
            Some(v) => v.checked_add(d),
            None => None,
        };
        proof {
            assert(l.take(i + 1).drop_last() =~= l.take(i as int));
            assert(l.take(i + 1).last() == l[i as int]);
        }
        match next {
            Some(v) => {
                val = v;
            },
            None => {
                // the length field overflows usize, so either the full field
                // does too, or a later byte is not a digit
                proof {
                    assert(all_digits(l.take(i + 1)));
                    assert(digits_val(l.take(i + 1)) > usize::MAX);
                    if all_digits(field) {
                        lemma_digits_val_monotone(field, i + 1);
                        assert(field.take(i + 1) =~= l.take(i + 1));
                        assert(digits_val(field) > usize::MAX);
                    }
                    assert(!line_wf(l));
                }
                return None;
            },
        }
        i = i + 1;
        proof {
            assert(all_digits(l.take(i as int)));
        }
    }
    proof {
        assert(l.take(sp as int) == field);
        assert(all_digits(field));
        assert(val == digits_val(field));
    }
    // split the rest at the name length
    if val > n - sp - 1 {
        return None;
    }
    let name = vec_range(line.as_slice(), sp + 1, sp + 1 + val);
    let label = vec_range(line.as_slice(), sp + 1 + val, n);
    proof {
        assert(line_wf(l));
        assert(name@ == line_name(l));
        assert(label@ == line_label(l));
    }
    Some((name, label))
}

/// A longer all-digit numeral never has a smaller value: if a prefix already
/// exceeds a bound, the whole field does.
proof fn lemma_digits_val_monotone(field: Seq<u8>, i: int)
    requires
        0 <= i <= field.len(),
        all_digits(field),
    ensures
        digits_val(field) >= digits_val(field.take(i)),
        digits_val(field.take(i)) >= 0,
    decreases field.len() - i,
{
    if i == field.len() {
        assert(field.take(i) =~= field);
        lemma_digits_val_nonneg(field);
    } else {
        lemma_digits_val_monotone(field, i + 1);
        lemma_digits_val_nonneg(field.take(i));
        assert(field.take(i + 1).drop_last() =~= field.take(i));
        assert(field.take(i + 1).last() == field[i]);
        assert(is_digit(field[i]));
        assert(digits_val(field.take(i + 1)) == digits_val(field.take(i)) * 10 + (field[i] - 48));
        assert(digits_val(field.take(i)) * 10 >= digits_val(field.take(i))) by {
            assert(digits_val(field.take(i)) >= 0);
        }
    }
}

/// A numeral of digits has a nonnegative value.
proof fn lemma_digits_val_nonneg(s: Seq<u8>)
    requires
        all_digits(s),
    ensures
        digits_val(s) >= 0,
    decreases s.len(),
{
    if s.len() > 0 {
        assert(all_digits(s.drop_last())) by {
            assert(forall|j: int| 0 <= j < s.len() - 1 ==> s.drop_last()[j] == s[j]);
        }
        lemma_digits_val_nonneg(s.drop_last());
        assert(is_digit(s.last()));
    }
}

/// Compiles a corpus into its artifacts, or reports the first malformed line.
pub fn compile(kind: GramKind, corpus: &[u8]) -> (r: Result<Model, CorpusError>)
    ensures
        match r {
            Ok(m) => {
                let lines = split_lines(corpus@);
                &&& all_lines_wf(lines)
                &&& m.kind == kind
                &&& views(m.labels@) == spec_labels(lines)
                &&& views(m.vocab@) == spec_vocab(kind, lines)
                &&& m.examples@.len() == lines.len()
                &&& forall|i: int|
                    0 <= i < lines.len() ==> (#[trigger] m.examples@[i]).features@ == spec_features(
                        kind,
                        line_name(lines[i]),
                        spec_vocab(kind, lines),
                    ) && m.examples@[i].label == first_index(
                        spec_labels(lines),
                        line_label(lines[i]),
                    )
                &&& m.wf()
            },
            Err(e) => {
                let lines = split_lines(corpus@);
                &&& 0 <= e.line < lines.len()
                &&& !line_wf(lines[e.line as int])
                &&& forall|j: int| 0 <= j < e.line ==> line_wf(#[trigger] lines[j])
            },
        },
{
    let ghost ls = split_lines(corpus@);
    let lines = split_corpus_lines(corpus);
    let m = lines.len();
    // parse every line, stopping at the first malformed one
    let mut names: Vec<Vec<u8>> = Vec::new();
    let mut labels_raw: Vec<Vec<u8>> = Vec::new();
    let mut i: usize = 0;
    while i < m
        invariant
            i <= m,
            m == ls.len(),
            ls == split_lines(corpus@),
            views(lines@) == ls,
            names@.len() == i,
            labels_raw@.len() == i,
            forall|j: int| 0 <= j < i ==> line_wf(#[trigger] ls[j]),
            forall|j: int| 0 <= j < i ==> (#[trigger] names@[j])@ == line_name(ls[j]),
            forall|j: int| 0 <= j < i ==> (#[trigger] labels_raw@[j])@ == line_label(ls[j]),
        decreases m - i,
    {
        assert(lines@[i as int]@ == ls[i as int]);
        match parse_line(&lines[i]) {
            Some(p) => {
                names.push(p.0);
                labels_raw.push(p.1);
            },
            None => {
                return Err(CorpusError { line: i });
            },
        }
        i = i + 1;
    }
    // the label set, in first-occurrence order
    let mut labels: Vec<Vec<u8>> = Vec::new();
    proof {
        assert(views(labels@) =~= Seq::<Seq<u8>>::empty());
        assert(views(labels_raw@) =~= lines_labels(ls));
    }
    push_new(&mut labels, &labels_raw);
    assert(views(labels@) == spec_labels(ls));
    // the vocabulary, in first-occurrence order
    let mut vocab: Vec<Vec<u8>> = Vec::new();
    proof {
        assert(views(vocab@) =~= vocab_upto(kind, ls, 0));
    }
    let mut i: usize = 0;
    while i < m
        invariant
            i <= m,
            m == ls.len(),
            names@.len() == m,
            forall|j: int| 0 <= j < m ==> (#[trigger] names@[j])@ == line_name(ls[j]),
            views(vocab@) == vocab_upto(kind, ls, i as int),
        decreases m - i,
    {
        let gs = extract_grams(kind, names[i].as_slice());
        push_new(&mut vocab, &gs);
        i = i + 1;
    }
    assert(views(vocab@) == spec_vocab(kind, ls));
    // the training table
    let ghost sv = spec_vocab(kind, ls);
    let ghost sl = spec_labels(ls);
    let mut examples: Vec<Example> = Vec::new();
    let mut i: usize = 0;
    while i < m
        invariant
            i <= m,
            m == ls.len(),
            names@.len() == m,
            labels_raw@.len() == m,
            forall|j: int| 0 <= j < m ==> (#[trigger] names@[j])@ == line_name(ls[j]),
            forall|j: int| 0 <= j < m ==> (#[trigger] labels_raw@[j])@ == line_label(ls[j]),
            views(vocab@) == sv,
            views(labels@) == sl,
            sv == spec_vocab(kind, ls),
            sl == spec_labels(ls),
            examples@.len() == i,
            forall|j: int|
                0 <= j < i ==> (#[trigger] examples@[j]).features@ == spec_features(
                    kind,
                    line_name(ls[j]),
                    sv,
                ) && examples@[j].label == first_index(sl, line_label(ls[j])) && examples@[j].label
                    < labels@.len() && examples@[j].features@.len() == vocab@.len(),
        decreases m - i,
    {
        let gs = extract_grams(kind, names[i].as_slice());
        let mut features: Vec<bool> = Vec::new();
        let mut j: usize = 0;
        while j < vocab.len()
            invariant
                j <= vocab@.len(),
                views(vocab@) == sv,
                views(gs@) == grams(kind, names@[i as int]@),
                i < names@.len(),
                features@.len() == j,
                forall|k: int|
                    0 <= k < j ==> features@[k] == grams(kind, names@[i as int]@).contains(sv[k]),
            decreases vocab@.len() - j,
        {
            let present = crate::ngram::contains_gram(&gs, &vocab[j]);
            features.push(present);
            j = j + 1;
        }
        proof {
            assert(features@ =~= spec_features(kind, line_name(ls[i as int]), sv));
        }
        // the label's index in the label set
        let ghost lbl = line_label(ls[i as int]);
        proof {
            assert(lines_labels(ls)[i as int] == lbl);
            assert(lines_labels(ls).contains(lbl));
            lemma_remove_duplicates_distinct(lines_labels(ls), Seq::empty());
            assert((lines_labels(ls) + Seq::empty()).contains(lbl)) by {
                assert((lines_labels(ls) + Seq::empty())[i as int] == lbl);
            }
            assert(sl.contains(lbl));
            lemma_first_index(sl, lbl);
        }
        let mut idx: usize = 0;
        let mut found: bool = false;
        while idx < labels.len() && !found
            invariant
                idx <= labels@.len(),
                views(labels@) == sl,
                i < labels_raw@.len(),
                labels_raw@[i as int]@ == lbl,
                !found ==> forall|k: int| 0 <= k < idx ==> sl[k] != lbl,
                found ==> idx < labels@.len() && sl[idx as int] == lbl && forall|k: int|
                    0 <= k < idx ==> sl[k] != lbl,
            decreases labels@.len() - idx + (if found { 0int } else { 1int }),
        {
            if crate::ngram::bytes_eq(&labels[idx], &labels_raw[i]) {
                found = true;
            } else {
                idx = idx + 1;
            }
        }
        proof {
            assert(found) by {
                if !found {
                    assert(sl[first_index(sl, lbl)] == lbl);
                }
            }
            assert(idx == first_index(sl, lbl)) by {
                let r = first_index(sl, lbl);
                if r < idx {
                    assert(sl[r] != lbl);
                }
                if r > idx {
                    assert(sl[idx as int] != lbl);
                }
            }
        }
        examples.push(Example { features, label: idx });
        i = i + 1;
    }
    proof {
        lemma_remove_duplicates_distinct(lines_labels(ls), Seq::empty());
        lemma_vocab_distinct(kind, ls, ls.len() as int);
    }
    Ok(Model { kind, labels, vocab, examples })
}

/// The vocabulary holds no duplicate n-grams.
proof fn lemma_vocab_distinct(kind: GramKind, lines: Seq<Seq<u8>>, n: int)
    ensures
        vocab_upto(kind, lines, n).no_duplicates(),
    decreases n,
{
    if n <= 0 {
    } else {
        lemma_vocab_distinct(kind, lines, n - 1);
        lemma_remove_duplicates_distinct(
            grams(kind, line_name(lines[n - 1])),
            vocab_upto(kind, lines, n - 1),
        );
    }
}

} // verus!
