//! Span names as text: the order in which names are listed, and the way
//! several names are joined into one key.

use itertools::Itertools;
use vstd::prelude::*;

verus! {

/// Lexicographic order on texts, character by character, by code point.
/// A proper prefix comes before every text that extends it.
pub open spec fn lex_less(a: Seq<char>, b: Seq<char>) -> bool
    decreases a.len(),
{
    if b.len() == 0 {
        false
    } else if a.len() == 0 {
        true
    } else if a[0] != b[0] {
        (a[0] as int) < (b[0] as int)
    } else {
        lex_less(a.drop_first(), b.drop_first())
    }
}

/// No text comes before itself.
pub proof fn lemma_lex_irreflexive(a: Seq<char>)
    ensures
        !lex_less(a, a),
    decreases a.len(),
{
    if a.len() > 0 {
        lemma_lex_irreflexive(a.drop_first());
    }
}

/// The order is transitive.
pub proof fn lemma_lex_transitive(a: Seq<char>, b: Seq<char>, c: Seq<char>)
    requires
        lex_less(a, b),
        lex_less(b, c),
    ensures
        lex_less(a, c),
    decreases a.len(),
{
    if a.len() > 0 && a[0] == b[0] && b[0] == c[0] {
        lemma_lex_transitive(a.drop_first(), b.drop_first(), c.drop_first());
    }
}

/// Two different texts are ordered one way or the other.
pub proof fn lemma_lex_total(a: Seq<char>, b: Seq<char>)
    requires
        !lex_less(a, b),
        !lex_less(b, a),
    ensures
        a == b,
    decreases a.len(),
{
    if a.len() > 0 && b.len() > 0 {
        lemma_lex_total(a.drop_first(), b.drop_first());
        assert(a =~= seq![a[0]] + a.drop_first());
        assert(b =~= seq![b[0]] + b.drop_first());
    } else {
        assert(a =~= b);
    }
}

/// The order never holds both ways.
pub proof fn lemma_lex_asymmetric(a: Seq<char>, b: Seq<char>)
    requires
        lex_less(a, b),
    ensures
        !lex_less(b, a),
{
    if lex_less(b, a) {
        lemma_lex_transitive(a, b, a);
        lemma_lex_irreflexive(a);
    }
}

/// The texts of `parts`, in order, with `sep` between each two neighbours.
pub open spec fn joined(parts: Seq<Seq<char>>, sep: Seq<char>) -> Seq<char>
    decreases parts.len(),
{
    if parts.len() == 0 {
        Seq::empty()
    } else if parts.len() == 1 {
        parts[0]
    } else {
        joined(parts.drop_last(), sep) + sep + parts.last()
    }
}

/// The texts that a list of strings holds.
pub open spec fn texts(names: Seq<String>) -> Seq<Seq<char>> {
    Seq::new(names.len(), |i: int| names[i]@)
}

/// `str`'s `<`: strings are ordered lexicographically by their bytes, which
/// for UTF-8 is the order of their code points.
#[verifier::external_body]
pub(crate) fn str_less(a: &str, b: &str) -> (less: bool)
    ensures
        less == lex_less(a@, b@),
{
    a < b
}

/// `Itertools::join`: every element written out in turn, with `sep` before
/// each element but the first. The capacity it reserves up front is the
/// separator's byte length times the number of elements left. A vector
/// holds no more strings than fit in memory, each of twelve bytes at the
/// least, so a separator of three characters, twelve bytes at the most,
/// keeps that product within what a string may reserve on any machine.
#[verifier::external_body]
pub(crate) fn join_with(names: &Vec<String>, sep: &str) -> (line: String)
    requires
        sep@.len() <= 3,
    ensures
        line@ == joined(texts(names@), sep@),
{
    names.iter().join(sep)
}

} // verus!
