//! What holds of texts: of trimming, of their order, of pieces, lines and
//! numbers.

use vstd::prelude::*;

use crate::text::{
    all_digits, before, decimal, has_text, lowered, pieces, signed_decimal, text_lines, trimmed,
    trimmed_end, trimmed_start, unsigned, Class,
};

verus! {

proof fn lemma_trims_start(a: Seq<char>, s: Seq<char>, k: Class)
    requires
        forall|i: int| 0 <= i < a.len() ==> k.has(#[trigger] a[i]),
        s.len() > 0,
        !k.has(s[0]),
    ensures
        trimmed_start(a + s, k) == s,
    decreases a.len(),
{
    if a.len() > 0 {
        let t = a.drop_first();
        assert forall|i: int| 0 <= i < t.len() implies k.has(#[trigger] t[i]) by {
            assert(t[i] == a[i + 1]);
        }
        lemma_trims_start(t, s, k);
        assert((a + s)[0] == a[0] && k.has(a[0]));
        assert((a + s).drop_first() =~= t + s);
    } else {
        assert(a + s =~= s);
    }
}

proof fn lemma_trims_end(s: Seq<char>, b: Seq<char>, k: Class)
    requires
        forall|i: int| 0 <= i < b.len() ==> k.has(#[trigger] b[i]),
        s.len() > 0,
        !k.has(s.last()),
    ensures
        trimmed_end(s + b, k) == s,
    decreases b.len(),
{
    if b.len() > 0 {
        let t = b.drop_last();
        assert forall|i: int| 0 <= i < t.len() implies k.has(#[trigger] t[i]) by {
            assert(t[i] == b[i]);
        }
        lemma_trims_end(s, t, k);
        assert((s + b).last() == b[b.len() - 1] && k.has(b[b.len() - 1]));
        assert((s + b).drop_last() =~= s + t);
    } else {
        assert(s + b =~= s);
    }
}

/// Trimming takes what is of its class at the ends, all of it, and nothing
/// else.
pub proof fn trimming_takes_the_ends(a: Seq<char>, s: Seq<char>, b: Seq<char>, k: Class)
    requires
        forall|i: int| 0 <= i < a.len() ==> k.has(#[trigger] a[i]),
        forall|i: int| 0 <= i < b.len() ==> k.has(#[trigger] b[i]),
        s.len() > 0,
        !k.has(s[0]),
        !k.has(s.last()),
    ensures
        trimmed(a + s + b, k) == s,
        trimmed_end(s + b, k) == s,
        trimmed_start(a + s, k) == s,
{
    lemma_trims_start(a, s + b, k);
    assert(a + s + b =~= a + (s + b));
    lemma_trims_end(s, b, k);
    lemma_trims_start(a, s, k);
}

/// A space, a tab and the ends of lines are white; letters, digits and marks
/// are not. Dots and brackets are what they are called.
pub proof fn classes_hold_these(c: char)
    ensures
        c == ' ' || c == '\t' || c == '\n' || c == '\r' ==> Class::White.has(c),
        '!' <= c <= '~' ==> !Class::White.has(c),
        Class::Dot.has(c) <==> c == '.',
        Class::Bracket.has(c) <==> c == '[' || c == ']',
{
}

/// Lower case changes the capitals from A to Z, to the letters from a to z, and
/// leaves everything else.
pub proof fn capitals_are_lowered(s: Seq<char>, i: int)
    requires
        0 <= i < s.len(),
    ensures
        lowered(s).len() == s.len(),
        'A' <= s[i] <= 'Z' ==> lowered(s)[i] as int - 'a' as int == s[i] as int - 'A' as int,
        !('A' <= s[i] <= 'Z') ==> lowered(s)[i] == s[i],
{
}

/// Of two texts that agree before the place `k` the one comes first that ends
/// there, or that has the lower character there.
pub proof fn the_first_difference_decides(a: Seq<char>, b: Seq<char>, k: int)
    requires
        0 <= k <= a.len(),
        k <= b.len(),
        forall|i: int| 0 <= i < k ==> a[i] == b[i],
        k < a.len() && k < b.len() ==> a[k] != b[k],
    ensures
        before(a, b) <==> k < b.len() && (k == a.len() || a[k] < b[k]),
    decreases k,
{
    if k > 0 {
        assert(a[0] == b[0]);
        let (s, t) = (a.drop_first(), b.drop_first());
        assert forall|i: int| 0 <= i < k - 1 implies s[i] == t[i] by {
            assert(a[i + 1] == b[i + 1]);
        }
        the_first_difference_decides(s, t, k - 1);
    }
}

/// A text stands in another when that is it with something before and
/// something behind.
pub proof fn texts_stand_in_others(a: Seq<char>, t: Seq<char>, b: Seq<char>, s: Seq<char>)
    ensures
        has_text(a + t + b, t),
        has_text(s, t) ==> exists|i: int|
            0 <= i && i + t.len() <= s.len() && s == #[trigger] s.take(i) + t + s.skip(
                i + t.len(),
            ),
        crate::text::ends(a + t, t),
        crate::text::ends(s, t) ==> s == s.take(s.len() - t.len()) + t,
{
    assert((a + t + b).subrange(a.len() as int, (a.len() + t.len()) as int) =~= t);
    assert(crate::text::stands_at(a + t + b, t, a.len() as int));
    if has_text(s, t) {
        let i = choose|i: int| crate::text::stands_at(s, t, i);
        assert(s =~= s.take(i) + s.subrange(i, i + t.len()) + s.skip(i + t.len()));
    }
    assert((a + t).skip(a.len() as int) =~= t);
    if crate::text::ends(s, t) {
        assert(s =~= s.take(s.len() - t.len()) + s.skip(s.len() - t.len()));
    }
}

/// The pieces of a text lack what separates them, and joined by it they are the
/// text again.
pub proof fn pieces_join_to_the_whole(s: Seq<char>, c: char, i: int)
    ensures
        crate::text::joined(pieces(s, c), seq![c]) == s,
        0 <= i < pieces(s, c).len() ==> !pieces(s, c)[i].contains(c),
    decreases s.len(),
{
    crate::spelling::lemma_pieces_join(s, c);
    let k = crate::text::first_at(s, c);
    crate::text::lemma_first_at(s, c);
    if 0 <= k < s.len() {
        let rest = pieces(s.skip(k + 1), c);
        pieces_join_to_the_whole(s.skip(k + 1), c, i - 1);
        if i == 0 {
            assert(pieces(s, c)[0] == s.take(k));
            if s.take(k).contains(c) {
                let j = s.take(k).index_of(c);
                assert(s[j] == c);
            }
        } else if 0 < i < pieces(s, c).len() {
            assert(pieces(s, c)[i] == rest[i - 1]);
        }
    }
}

/// A text is read line by line: each line ends at a line feed, loses a carriage
/// return there, and what is left over at the end is a line if it is anything.
pub proof fn texts_are_read_by_lines(a: Seq<char>, b: Seq<char>)
    requires
        !a.contains('\n'),
    ensures
        text_lines(a + seq!['\n'] + b) == seq![
            if a.len() > 0 && a.last() == '\r' {
                a.drop_last()
            } else {
                a
            },
        ] + text_lines(b),
        a.len() > 0 ==> text_lines(a) == seq![a],
        a.len() == 0 ==> text_lines(a).len() == 0,
{
    crate::text::lemma_pieces_concat(a, b, '\n');
    crate::text::lemma_pieces_whole(a, '\n');
    let p = pieces(b, '\n');
    let all = pieces(a + seq!['\n'] + b, '\n');
    assert(all =~= seq![a] + p);
    crate::spelling::lemma_pieces_join(b, '\n');
    assert(all.last() == p.last());
    let first = if a.len() > 0 && a.last() == '\r' {
        a.drop_last()
    } else {
        a
    };
    assert(text_lines(a + seq!['\n'] + b) =~= seq![first] + text_lines(b));
    assert(text_lines(a) =~= if a.len() > 0 {
        seq![a]
    } else {
        Seq::empty()
    });
}

/// A number may have a plus sign before it, and only digits otherwise.
pub proof fn numbers_are_digits(n: nat, max: nat, s: Seq<char>)
    ensures
        n <= max ==> unsigned(decimal(n), max) == Some(n),
        n <= max ==> unsigned(seq!['+'] + decimal(n), max) == Some(n),
        n > max ==> unsigned(decimal(n), max) is None,
        unsigned(s, max) is Some ==> s.len() > 0 && (all_digits(s) || (s[0] == '+' && all_digits(
            s.drop_first(),
        ))),
{
    crate::text::lemma_decimal(n);
    assert(crate::text::is_digit(decimal(n)[0]));
    assert((seq!['+'] + decimal(n)).drop_first() =~= decimal(n));
}

/// A negative number has a minus sign before its size.
pub proof fn minus_goes_before_the_size(n: nat)
    requires
        n > 0,
    ensures
        signed_decimal(n as int) == decimal(n),
        signed_decimal(-(n as int)) == "-"@ + decimal(n),
        signed_decimal(0) == "0"@,
{
    reveal_strlit("-");
    reveal_strlit("0");
    assert("-"@ =~= seq!['-']);
    assert(decimal(0) =~= "0"@);
}

} // verus!
