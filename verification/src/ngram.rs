//! Character n-gram extraction.
//!
//! A name yields one n-gram per window of `width` consecutive bytes that
//! passes the variant's filter; the kept window is lower-cased byte by byte.
//! The *gram set* of a name is the sequence of its distinct n-grams in
//! first-occurrence order.

use vstd::prelude::*;

verus! {

/// Which n-gram variant is deployed. Exactly one variant is used by a given
/// compiler/scorer pair; the two are never mixed.
#[derive(Clone, Copy, Debug, PartialEq, Eq, Structural)]
pub enum GramKind {
    /// Windows of 2 bytes; a window is kept when neither byte is an ASCII space.
    Digram,
    /// Windows of 3 bytes; a window is kept when all three bytes are ASCII alphabetic.
    Trigram,
}

impl GramKind {
    /// The window width in bytes.
    pub open spec fn width(self) -> nat {
        match self {
            GramKind::Digram => 2,
            GramKind::Trigram => 3,
        }
    }

    /// Executable window width.
    pub fn width_bytes(self) -> (w: usize)
        ensures
            w == self.width(),
    {
        match self {
            GramKind::Digram => 2,
            GramKind::Trigram => 3,
        }
    }
}

/// Whether `b` is an ASCII letter.
pub open spec fn is_ascii_alphabetic(b: u8) -> bool {
    (65 <= b && b <= 90) || (97 <= b && b <= 122)
}

/// `b` lower-cased: ASCII upper-case letters move to lower case, all other
/// bytes are unchanged.
pub open spec fn to_lower(b: u8) -> u8 {
    if 65 <= b && b <= 90 {
        (b + 32) as u8
    } else {
        b
    }
}

/// Whether the window of `kind.width()` bytes of `s` starting at `i` is kept.
pub open spec fn window_kept(kind: GramKind, s: Seq<u8>, i: int) -> bool {
    match kind {
        GramKind::Digram => s[i] != 32 && s[i + 1] != 32,
        GramKind::Trigram => is_ascii_alphabetic(s[i]) && is_ascii_alphabetic(s[i + 1])
            && is_ascii_alphabetic(s[i + 2]),
    }
}

/// The lower-cased n-gram of the window of `s` starting at `i`.
pub open spec fn window_gram(kind: GramKind, s: Seq<u8>, i: int) -> Seq<u8> {
    Seq::new(kind.width(), |j: int| to_lower(s[i + j]))
}

/// The number of windows of `s`; negative when `s` is shorter than the width.
pub open spec fn window_count(kind: GramKind, s: Seq<u8>) -> int {
    s.len() - kind.width() + 1
}

/// The n-grams of the first `n` windows of `s`, in window order, duplicates kept.
pub open spec fn grams_upto(kind: GramKind, s: Seq<u8>, n: int) -> Seq<Seq<u8>>
    decreases n,
{
    if n <= 0 {
        Seq::empty()
    } else if window_kept(kind, s, n - 1) {
        grams_upto(kind, s, n - 1).push(window_gram(kind, s, n - 1))
    } else {
        grams_upto(kind, s, n - 1)
    }
}

/// All n-grams of `s`, in window order, duplicates kept.
pub open spec fn grams(kind: GramKind, s: Seq<u8>) -> Seq<Seq<u8>> {
    grams_upto(kind, s, window_count(kind, s))
}

/// The n-gram set of `s`: its distinct n-grams in first-occurrence order.
pub open spec fn gram_set(kind: GramKind, s: Seq<u8>) -> Seq<Seq<u8>> {
    grams(kind, s).remove_duplicates(Seq::empty())
}

/// The mathematical view of a list of byte vectors.
pub open spec fn views(s: Seq<Vec<u8>>) -> Seq<Seq<u8>> {
    s.map_values(|v: Vec<u8>| v@)
}

/// `b` lower-cased.
pub fn lower_byte(b: u8) -> (r: u8)
    ensures
        r == to_lower(b),
{
    if 65 <= b && b <= 90 {
        b + 32
    } else {
        b
    }
}

/// Whether two byte vectors hold the same bytes.
pub fn bytes_eq(a: &Vec<u8>, b: &Vec<u8>) -> (r: bool)
    ensures
        r == (a@ == b@),
{
    if a.len() != b.len() {
        return false;
    }
    let mut i: usize = 0;
    while i < a.len()
        invariant
            i <= a@.len(),
            a@.len() == b@.len(),
            forall|j: int| 0 <= j < i ==> a@[j] == b@[j],
        decreases a@.len() - i,
    {
        if a[i] != b[i] {
            return false;
        }
        i = i + 1;
    }
    proof {
        assert(a@ =~= b@);
    }
    true
}

/// Whether the n-gram `g` occurs in the list `v`.
pub fn contains_gram(v: &Vec<Vec<u8>>, g: &Vec<u8>) -> (r: bool)
    ensures
        r == views(v@).contains(g@),
{
    let mut i: usize = 0;
    while i < v.len()
        invariant
            i <= v@.len(),
            forall|j: int| 0 <= j < i ==> views(v@)[j] != g@,
        decreases v@.len() - i,
    {
        if bytes_eq(&v[i], g) {
            assert(views(v@)[i as int] == g@);
            return true;
        }
        i = i + 1;
    }
    assert(forall|j: int| 0 <= j < views(v@).len() ==> views(v@)[j] != g@);
    false
}

/// Extracts all n-grams of `name`, in window order, duplicates kept.
pub fn extract_grams(kind: GramKind, name: &[u8]) -> (r: Vec<Vec<u8>>)
    ensures
        views(r@) == grams(kind, name@),
{
    let width = kind.width_bytes();
    let mut out: Vec<Vec<u8>> = Vec::new();
    if name.len() < width {
        assert(window_count(kind, name@) <= 0);
        assert(views(out@) =~= grams(kind, name@));
        return out;
    }
    let wins: usize = name.len() - width + 1;
    assert(wins == window_count(kind, name@));
    let mut i: usize = 0;
    while i < wins
        invariant
            i <= wins,
            wins == window_count(kind, name@),
            width == kind.width(),
            wins + width == name@.len() + 1,
            views(out@) == grams_upto(kind, name@, i as int),
        decreases wins - i,
    {
        let kept = match kind {
            GramKind::Digram => name[i] != 32 && name[i + 1] != 32,
            GramKind::Trigram => {
                let a = name[i];
                let b = name[i + 1];
                let c = name[i + 2];
                (65 <= a && a <= 90 || 97 <= a && a <= 122) && (65 <= b && b <= 90 || 97 <= b
                    && b <= 122) && (65 <= c && c <= 90 || 97 <= c && c <= 122)
            },
        };
        assert(kept == window_kept(kind, name@, i as int));
        if kept {
            let mut g: Vec<u8> = Vec::new();
            let mut j: usize = 0;
            while j < width
                invariant
                    j <= width,
                    width == kind.width(),
                    i + width <= name@.len(),
                    name@.len() <= usize::MAX,
                    g@.len() == j,
                    forall|k: int| 0 <= k < j ==> g@[k] == to_lower(name@[i + k]),
                decreases width - j,
            {
                g.push(lower_byte(name[i + j]));
                j = j + 1;
            }
            assert(g@ =~= window_gram(kind, name@, i as int));
            out.push(g);
            proof {
                assert(views(out@) =~= grams_upto(kind, name@, i + 1));
            }
        } else {
            proof {
                assert(views(out@) =~= grams_upto(kind, name@, i + 1));
            }
        }
        i = i + 1;
    }
    out
}

/// Whether the byte vectors of `v` are pairwise distinct.
pub fn all_distinct(v: &Vec<Vec<u8>>) -> (r: bool)
    ensures
        r == views(v@).no_duplicates(),
{
    let ghost vs = views(v@);
    let mut i: usize = 0;
    while i < v.len()
        invariant
            i <= vs.len(),
            vs == views(v@),
            forall|a: int, b: int| 0 <= a < b < vs.len() && a < i ==> vs[a] != vs[b],
        decreases vs.len() - i,
    {
        let mut j: usize = i + 1;
        while j < v.len()
            invariant
                i < j <= vs.len(),
                i < vs.len(),
                vs == views(v@),
                forall|b: int| i < b < j ==> vs[i as int] != vs[b],
            decreases vs.len() - j,
        {
            if bytes_eq(&v[i], &v[j]) {
                assert(vs[i as int] == vs[j as int]);
                return false;
            }
            j = j + 1;
        }
        i = i + 1;
    }
    proof {
        assert forall|a: int, b: int|
            0 <= a < vs.len() && 0 <= b < vs.len() && a != b implies vs[a] != vs[b] by {
            if a < b {
            } else {
                assert(vs[b] != vs[a]);
            }
        }
    }
    true
}

/// Copies the bytes `s[a..b]`.
pub fn vec_range(s: &[u8], a: usize, b: usize) -> (r: Vec<u8>)
    requires
        a <= b <= s@.len(),
    ensures
        r@ == s@.subrange(a as int, b as int),
{
    let mut out: Vec<u8> = Vec::new();
    let mut i: usize = a;
    while i < b
        invariant
            a <= i <= b <= s@.len(),
            out@.len() == i - a,
            forall|j: int| 0 <= j < i - a ==> out@[j] == s@[a + j],
        decreases b - i,
    {
        out.push(s[i]);
        i = i + 1;
    }
    proof {
        assert(out@ =~= s@.subrange(a as int, b as int));
    }
    out
}

/// Appends to `seen` the byte vectors of `gs` that it does not yet hold, in
/// order: one step of building a first-occurrence-ordered set of distinct
/// entries.
pub fn push_new(seen: &mut Vec<Vec<u8>>, gs: &Vec<Vec<u8>>)
    ensures
        views(final (seen)@) == views(gs@).remove_duplicates(views(old(seen)@)),
{
    let ghost t = views(gs@);
    let ghost seen0 = views(old(seen)@);
    proof {
        assert(t.skip(0) =~= t);
    }
    let mut j: usize = 0;
    while j < gs.len()
        invariant
            j <= t.len(),
            t == views(gs@),
            t.remove_duplicates(seen0) == t.skip(j as int).remove_duplicates(views(seen@)),
        decreases t.len() - j,
    {
        let ghost pre = views(seen@);
        let ghost rest = t.skip(j as int);
        assert(rest[0] == t[j as int]);
        assert(rest.skip(1) =~= t.skip(j + 1));
        if !contains_gram(seen, &gs[j]) {
            let src = &gs[j];
            let g = vec_range(src.as_slice(), 0, src.len());
            assert(g@ =~= gs@[j as int]@);
            seen.push(g);
            proof {
                assert(views(seen@) =~= pre + seq![t[j as int]]);
            }
        }
        j = j + 1;
    }
    proof {
        assert(t.skip(t.len() as int) =~= Seq::empty());
        assert(t.skip(t.len() as int).remove_duplicates(views(seen@)) == views(seen@));
    }
}

/// Extracts the n-gram set of `name`: distinct n-grams, first-occurrence order.
pub fn extract_gram_set(kind: GramKind, name: &[u8]) -> (r: Vec<Vec<u8>>)
    ensures
        views(r@) == gram_set(kind, name@),
{
    let all = extract_grams(kind, name);
    let mut out: Vec<Vec<u8>> = Vec::new();
    assert(views(out@) =~= Seq::<Seq<u8>>::empty());
    push_new(&mut out, &all);
    out
}

} // verus!
