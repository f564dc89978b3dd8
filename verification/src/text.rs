//! Text, reasoned about as sequences of characters.
//!
//! Functions that take text apart work on slices of `char`; `chars_of` and
//! `string_of` lead in and out.

use vstd::prelude::*;
use vstd::slice::slice_subrange;

verus! {

/// `String::push` appends one character.
pub assume_specification[ String::push ](s: &mut String, c: char)
    ensures
        final(s)@ == old(s)@.push(c),
;

/// The characters of `s`.
pub fn chars_of(s: &str) -> (v: Vec<char>)
    ensures
        v@ == s@,
{
    let mut v: Vec<char> = Vec::new();
    for c in it: s.chars()
        invariant
            it.seq() == s@,
            v@ == s@.take(it.index()),
    {
        v.push(c);
    }
    v
}

/// The string holding the characters `v`.
pub fn string_of(v: &[char]) -> (s: String)
    ensures
        s@ == v@,
{
    let mut s = String::new();
    let mut i: usize = 0;
    while i < v.len()
        invariant
            i <= v.len(),
            s@ == v@.take(i as int),
        decreases v.len() - i,
    {
        s.push(v[i]);
        i += 1;
    }
    s
}

/// Append `piece` to `text`.
pub fn put(text: &mut String, piece: &str)
    ensures
        final(text)@ == old(text)@ + piece@,
{
    text.append(piece);
}

/// Are the two texts the same?
pub fn same(a: &str, b: &str) -> (r: bool)
    ensures
        r == (a@ == b@),
{
    a.to_owned() == b.to_owned()
}

// Character classes.

/// Sets of characters that get trimmed from the ends of addresses and names.
#[derive(Clone, Copy, Debug, PartialEq, Eq, Structural)]
pub enum Class {
    /// The Unicode `White_Space` property.
    White,
    /// A full stop.
    Dot,
    /// A square bracket, opening or closing.
    Bracket,
}

impl Class {
    pub open spec fn has(self, c: char) -> bool {
        match self {
            Class::White => is_white(c),
            Class::Dot => c == '.',
            Class::Bracket => c == '[' || c == ']',
        }
    }

    pub fn holds(self, c: char) -> (r: bool)
        ensures
            r == self.has(c),
    {
        match self {
            Class::White => white(c),
            Class::Dot => c == '.',
            Class::Bracket => c == '[' || c == ']',
        }
    }
}

/// The Unicode `White_Space` property.
pub open spec fn is_white(c: char) -> bool {
    let n = c as u32;
    ||| 0x09 <= n <= 0x0d
    ||| n == 0x20
    ||| n == 0x85
    ||| n == 0xa0
    ||| n == 0x1680
    ||| 0x2000 <= n <= 0x200a
    ||| n == 0x2028
    ||| n == 0x2029
    ||| n == 0x202f
    ||| n == 0x205f
    ||| n == 0x3000
}

pub fn white(c: char) -> (r: bool)
    ensures
        r == is_white(c),
{
    let n: u32 = c as u32;
    (0x09 <= n && n <= 0x0d) || n == 0x20 || n == 0x85 || n == 0xa0 || n == 0x1680 || (0x2000 <= n
        && n <= 0x200a) || n == 0x2028 || n == 0x2029 || n == 0x202f || n == 0x205f || n == 0x3000
}

pub open spec fn is_digit(c: char) -> bool {
    '0' <= c <= '9'
}

pub open spec fn is_letter(c: char) -> bool {
    'a' <= c <= 'z' || 'A' <= c <= 'Z'
}

/// The ASCII lower case of `c`.
pub open spec fn lower_char(c: char) -> char {
    if 'A' <= c <= 'Z' {
        (c as u32 + 32) as char
    } else {
        c
    }
}

/// `s` in ASCII lower case.
pub open spec fn lowered(s: Seq<char>) -> Seq<char> {
    Seq::new(s.len(), |i: int| lower_char(s[i]))
}

pub fn lower(s: &[char]) -> (v: Vec<char>)
    ensures
        v@ == lowered(s@),
{
    let mut v: Vec<char> = Vec::new();
    let mut i: usize = 0;
    while i < s.len()
        invariant
            i <= s.len(),
            v.len() == i,
            forall|j: int| 0 <= j < i ==> v[j] == lower_char(s[j]),
        decreases s.len() - i,
    {
        let c = s[i];
        if 'A' <= c && c <= 'Z' {
            v.push(((c as u8) + 32) as char);
        } else {
            v.push(c);
        }
        i += 1;
    }
    assert(v@ =~= lowered(s@));
    v
}

// Trimming.

/// `s` without the characters of class `k` at its end.
pub open spec fn trimmed_end(s: Seq<char>, k: Class) -> Seq<char>
    decreases s.len(),
{
    if s.len() > 0 && k.has(s.last()) {
        trimmed_end(s.drop_last(), k)
    } else {
        s
    }
}

/// `s` without the characters of class `k` at its start.
pub open spec fn trimmed_start(s: Seq<char>, k: Class) -> Seq<char>
    decreases s.len(),
{
    if s.len() > 0 && k.has(s[0]) {
        trimmed_start(s.drop_first(), k)
    } else {
        s
    }
}

/// `s` without the characters of class `k` at either end.
pub open spec fn trimmed(s: Seq<char>, k: Class) -> Seq<char> {
    trimmed_end(trimmed_start(s, k), k)
}

pub fn trim_end<'a>(s: &'a [char], k: Class) -> (r: &'a [char])
    ensures
        r@ == trimmed_end(s@, k),
{
    let mut n: usize = s.len();
    assert(s@.take(n as int) =~= s@);
    while n > 0 && k.holds(s[n - 1])
        invariant
            n <= s.len(),
            trimmed_end(s@, k) == trimmed_end(s@.take(n as int), k),
        decreases n,
    {
        assert(s@.take(n as int).drop_last() =~= s@.take(n - 1));
        n -= 1;
    }
    assert(s@.subrange(0, n as int) =~= s@.take(n as int));
    slice_subrange(s, 0, n)
}

pub fn trim_start<'a>(s: &'a [char], k: Class) -> (r: &'a [char])
    ensures
        r@ == trimmed_start(s@, k),
{
    let mut n: usize = 0;
    assert(s@.skip(0) =~= s@);
    while n < s.len() && k.holds(s[n])
        invariant
            n <= s.len(),
            trimmed_start(s@, k) == trimmed_start(s@.skip(n as int), k),
        decreases s.len() - n,
    {
        assert(s@.skip(n as int).drop_first() =~= s@.skip(n + 1));
        n += 1;
    }
    assert(s@.subrange(n as int, s@.len() as int) =~= s@.skip(n as int));
    slice_subrange(s, n, s.len())
}

pub fn trim<'a>(s: &'a [char], k: Class) -> (r: &'a [char])
    ensures
        r@ == trimmed(s@, k),
{
    trim_end(trim_start(s, k), k)
}

// Searching.

/// Where `c` first stands in `s`; the length of `s` when it does not.
pub open spec fn first_at(s: Seq<char>, c: char) -> int
    decreases s.len(),
{
    if s.len() == 0 || s[0] == c {
        0
    } else {
        1 + first_at(s.drop_first(), c)
    }
}

/// Where `c` last stands in `s`; -1 when it does not.
pub open spec fn last_at(s: Seq<char>, c: char) -> int
    decreases s.len(),
{
    if s.len() == 0 {
        -1
    } else if s.last() == c {
        s.len() - 1
    } else {
        last_at(s.drop_last(), c)
    }
}

/// `first_at` is the first position that holds `c`.
pub proof fn lemma_first_at(s: Seq<char>, c: char)
    ensures
        0 <= first_at(s, c) <= s.len(),
        first_at(s, c) < s.len() ==> s[first_at(s, c)] == c,
        forall|i: int| 0 <= i < first_at(s, c) ==> s[i] != c,
        s.contains(c) <==> first_at(s, c) < s.len(),
    decreases s.len(),
{
    if s.len() > 0 && s[0] != c {
        let t = s.drop_first();
        lemma_first_at(t, c);
        assert forall|i: int| 0 <= i < first_at(s, c) implies s[i] != c by {
            if i > 0 {
                assert(t[i - 1] == s[i]);
            }
        }
    }
    if s.contains(c) {
        let i = choose|i: int| 0 <= i < s.len() && s[i] == c;
        assert(s[i] == c);
    }
}

/// The position of `c` is settled by the characters up to it.
pub proof fn lemma_first_at_is(s: Seq<char>, c: char, k: int)
    requires
        0 <= k <= s.len(),
        k < s.len() ==> s[k] == c,
        forall|i: int| 0 <= i < k ==> s[i] != c,
    ensures
        first_at(s, c) == k,
{
    lemma_first_at(s, c);
    let f = first_at(s, c);
    if f < k {
        assert(s[f] != c);
    } else if k < f {
        assert(s[k] != c);
    }
}

/// `last_at` is the last position that holds `c`.
pub proof fn lemma_last_at(s: Seq<char>, c: char)
    ensures
        -1 <= last_at(s, c) < s.len(),
        last_at(s, c) >= 0 ==> s[last_at(s, c)] == c,
        forall|i: int| last_at(s, c) < i < s.len() ==> s[i] != c,
        s.contains(c) <==> last_at(s, c) >= 0,
    decreases s.len(),
{
    if s.len() > 0 && s.last() != c {
        let t = s.drop_last();
        lemma_last_at(t, c);
        assert forall|i: int| last_at(s, c) < i < s.len() implies s[i] != c by {
            if i < s.len() - 1 {
                assert(t[i] == s[i]);
            }
        }
    }
    if s.contains(c) {
        let i = choose|i: int| 0 <= i < s.len() && s[i] == c;
        assert(s[i] == c);
    }
}

pub fn find_char(s: &[char], c: char) -> (k: usize)
    ensures
        k == first_at(s@, c),
        k <= s.len(),
{
    let mut k: usize = 0;
    while k < s.len() && s[k] != c
        invariant
            k <= s.len(),
            forall|i: int| 0 <= i < k ==> s[i] != c,
        decreases s.len() - k,
    {
        k += 1;
    }
    proof {
        lemma_first_at_is(s@, c, k as int);
    }
    k
}

/// The last position of `c` plus one; 0 when it is absent.
pub fn rfind_char(s: &[char], c: char) -> (k: usize)
    ensures
        k == last_at(s@, c) + 1,
        k <= s.len(),
{
    let mut k: usize = s.len();
    assert(s@.take(k as int) =~= s@);
    while k > 0 && s[k - 1] != c
        invariant
            k <= s.len(),
            last_at(s@, c) == last_at(s@.take(k as int), c),
        decreases k,
    {
        assert(s@.take(k as int).drop_last() =~= s@.take(k - 1));
        k -= 1;
    }
    k
}

/// Does `t` stand in `s` at `i`?
pub open spec fn stands_at(s: Seq<char>, t: Seq<char>, i: int) -> bool {
    0 <= i && i + t.len() <= s.len() && s.subrange(i, i + t.len()) == t
}

/// Does `t` stand anywhere in `s`?
pub open spec fn has_text(s: Seq<char>, t: Seq<char>) -> bool {
    exists|i: int| stands_at(s, t, i)
}

pub fn test_at(s: &[char], t: &[char], i: usize) -> (r: bool)
    requires
        i <= s.len(),
    ensures
        r == stands_at(s@, t@, i as int),
{
    if t.len() > s.len() - i {
        return false;
    }
    let mut j: usize = 0;
    while j < t.len()
        invariant
            j <= t.len(),
            i + t.len() <= s.len(),
            forall|m: int| 0 <= m < j ==> s[i + m] == t[m],
        decreases t.len() - j,
    {
        if s[i + j] != t[j] {
            assert(s@.subrange(i as int, i + t@.len())[j as int] == s[i + j]);
            return false;
        }
        j += 1;
    }
    assert(s@.subrange(i as int, i + t@.len()) =~= t@);
    true
}

pub fn contains_text(s: &[char], t: &[char]) -> (r: bool)
    ensures
        r == has_text(s@, t@),
{
    let mut i: usize = 0;
    while i < s.len()
        invariant
            i <= s.len(),
            forall|m: int| 0 <= m < i ==> !stands_at(s@, t@, m),
        decreases s.len() - i,
    {
        if test_at(s, t, i) {
            return true;
        }
        i += 1;
    }
    test_at(s, t, s.len())
}

/// Does `s` end with `t`?
pub open spec fn ends(s: Seq<char>, t: Seq<char>) -> bool {
    t.len() <= s.len() && s.skip(s.len() - t.len()) == t
}

pub fn ends_with(s: &[char], t: &[char]) -> (r: bool)
    ensures
        r == ends(s@, t@),
{
    if t.len() > s.len() {
        return false;
    }
    let k: usize = s.len() - t.len();
    assert(s@.subrange(k as int, k + t@.len()) =~= s@.skip(k as int));
    test_at(s, t, k)
}

// Splitting and joining.

/// The pieces of `s` between the occurrences of `c`.
pub open spec fn pieces(s: Seq<char>, c: char) -> Seq<Seq<char>>
    decreases s.len(),
{
    let k = first_at(s, c);
    if 0 <= k < s.len() {
        seq![s.take(k)] + pieces(s.skip(k + 1), c)
    } else {
        seq![s]
    }
}

pub open spec fn views(v: Seq<Vec<char>>) -> Seq<Seq<char>> {
    Seq::new(v.len(), |i: int| v[i]@)
}

pub fn split(s: &[char], c: char) -> (v: Vec<Vec<char>>)
    ensures
        views(v@) == pieces(s@, c),
        v.len() > 0,
{
    let mut v: Vec<Vec<char>> = Vec::new();
    let mut at: usize = 0;
    assert(s@.skip(0) =~= s@);
    assert(views(v@) + pieces(s@, c) =~= pieces(s@, c));
    loop
        invariant
            at <= s.len(),
            pieces(s@, c) == views(v@) + pieces(s@.skip(at as int), c),
        decreases s.len() - at,
    {
        let rest = slice_subrange(s, at, s.len());
        assert(rest@ =~= s@.skip(at as int));
        let k: usize = find_char(rest, c);
        let ghost before = views(v@);
        let piece = slice_subrange(rest, 0, k);
        let mut own: Vec<char> = Vec::new();
        own.extend_from_slice(piece);
        assert(own@ =~= rest@.take(k as int));
        v.push(own);
        assert(views(v@) =~= before.push(rest@.take(k as int)));
        if k == rest.len() {
            assert(rest@.take(k as int) =~= rest@);
            assert(views(v@) =~= pieces(s@, c));
            return v;
        }
        assert(rest@.skip(k + 1) =~= s@.skip(at + k + 1));
        assert(before + (seq![rest@.take(k as int)] + pieces(s@.skip(at + k + 1), c)) =~= views(v@)
            + pieces(s@.skip(at + k + 1), c));
        at = at + k + 1;
    }
}

/// `parts` with `sep` between them.
pub open spec fn joined(parts: Seq<Seq<char>>, sep: Seq<char>) -> Seq<char>
    decreases parts.len(),
{
    if parts.len() == 0 {
        Seq::empty()
    } else if parts.len() == 1 {
        parts[0]
    } else {
        joined(parts.drop_last(), sep) + sep + parts.last()
    }
}

pub fn join(parts: &[String], sep: &str) -> (s: String)
    ensures
        s@ == joined(parts.deep_view(), sep@),
{
    let mut s = String::new();
    let ghost all = parts.deep_view();
    let mut i: usize = 0;
    while i < parts.len()
        invariant
            i <= parts.len(),
            all == parts.deep_view(),
            s@ == joined(all.take(i as int), sep@),
        decreases parts.len() - i,
    {
        if i > 0 {
            s.append(sep);
        }
        s.append(parts[i].as_str());
        assert(all.take(i + 1).drop_last() =~= all.take(i as int));
        assert(all.take(i + 1).last() == parts[i as int]@);
        assert(s@ =~= joined(all.take(i + 1), sep@));
        i += 1;
    }
    assert(all.take(i as int) =~= all);
    s
}

/// Text without `c` is one piece.
pub proof fn lemma_pieces_whole(s: Seq<char>, c: char)
    requires
        !s.contains(c),
    ensures
        pieces(s, c) == seq![s],
{
    lemma_first_at(s, c);
}

/// The pieces on either side of a separator are the pieces of the two sides.
pub proof fn lemma_pieces_concat(a: Seq<char>, b: Seq<char>, c: char)
    ensures
        pieces(a + seq![c] + b, c) == pieces(a, c) + pieces(b, c),
    decreases a.len(),
{
    let s = a + seq![c] + b;
    lemma_first_at(a, c);
    let k = first_at(a, c);
    assert forall|i: int| 0 <= i < k implies s[i] != c by {
        assert(s[i] == a[i]);
    }
    assert(s[k] == c);
    lemma_first_at_is(s, c, k);
    if k < a.len() {
        lemma_pieces_concat(a.skip(k + 1), b, c);
        assert(s.take(k) =~= a.take(k));
        assert(s.skip(k + 1) =~= a.skip(k + 1) + seq![c] + b);
        assert(pieces(s, c) =~= pieces(a, c) + pieces(b, c));
    } else {
        assert(s.take(k) =~= a);
        assert(s.skip(k + 1) =~= b);
    }
}

/// Joining parts that lack the separator is undone by taking the pieces.
pub proof fn lemma_pieces_joined(parts: Seq<Seq<char>>, c: char)
    requires
        parts.len() > 0,
        forall|i: int| 0 <= i < parts.len() ==> !(#[trigger] parts[i]).contains(c),
    ensures
        pieces(joined(parts, seq![c]), c) == parts,
    decreases parts.len(),
{
    lemma_pieces_whole(parts.last(), c);
    if parts.len() > 1 {
        let front = parts.drop_last();
        assert forall|i: int| 0 <= i < front.len() implies !(#[trigger] front[i]).contains(c) by {
            assert(front[i] == parts[i]);
        }
        lemma_pieces_joined(front, c);
        lemma_pieces_concat(joined(front, seq![c]), parts.last(), c);
        assert(front + seq![parts.last()] =~= parts);
    } else {
        assert(parts =~= seq![parts[0]]);
    }
}

/// Does none of `parts` hold `sep`?
pub open spec fn parts_lack(parts: Seq<Seq<char>>, sep: Seq<char>) -> bool {
    forall|i: int| 0 <= i < parts.len() ==> !has_text(#[trigger] parts[i], sep)
}

/// Where the last part is joined to those before it.
spec fn joint(parts: Seq<Seq<char>>, sep: Seq<char>) -> int {
    joined(parts.drop_last(), sep).len() as int
}

/// The separator stands at the last joint, and nowhere behind it.
proof fn lemma_joint(parts: Seq<Seq<char>>, sep: Seq<char>, i: int)
    requires
        parts.len() > 1,
        sep.len() == 2,
        sep[0] != sep[1],
        parts_lack(parts, sep),
    ensures
        stands_at(joined(parts, sep), sep, joint(parts, sep)),
        joined(parts, sep).take(joint(parts, sep)) == joined(parts.drop_last(), sep),
        joined(parts, sep).skip(joint(parts, sep) + 2) == parts.last(),
        i > joint(parts, sep) ==> !stands_at(joined(parts, sep), sep, i),
{
    let s = joined(parts, sep);
    let n = joint(parts, sep);
    assert(s.take(n) =~= joined(parts.drop_last(), sep));
    assert(s.skip(n + 2) =~= parts.last());
    assert(s.subrange(n, n + 2) =~= sep);
    if i > n && stands_at(s, sep, i) {
        assert(s.subrange(i, i + 2)[0] == sep[0]);
        if i == n + 1 {
            assert(s[i] == sep[1]);
        } else {
            let last = parts[parts.len() - 1];
            assert(last.subrange(i - n - 2, i - n) =~= s.subrange(i, i + 2));
            assert(stands_at(last, sep, i - n - 2));
        }
    }
}

proof fn lemma_front_lacks(parts: Seq<Seq<char>>, sep: Seq<char>)
    requires
        parts.len() > 0,
        parts_lack(parts, sep),
    ensures
        parts_lack(parts.drop_last(), sep),
{
    assert forall|i: int| 0 <= i < parts.drop_last().len() implies !has_text(
        #[trigger] parts.drop_last()[i],
        sep,
    ) by {
        assert(parts.drop_last()[i] == parts[i]);
    }
}

/// One part that does not hold the separator is not several that are joined.
proof fn lemma_one_is_not_several(one: Seq<Seq<char>>, more: Seq<Seq<char>>, sep: Seq<char>)
    requires
        one.len() == 1,
        more.len() > 1,
        sep.len() == 2,
        sep[0] != sep[1],
        parts_lack(one, sep),
        parts_lack(more, sep),
    ensures
        joined(one, sep) != joined(more, sep),
{
    lemma_joint(more, sep, 0);
    assert(!has_text(one[0], sep));
}

/// Parts that do not hold the separator can be told from how they are joined.
/// The separator is two different characters.
pub proof fn lemma_joined_apart(a: Seq<Seq<char>>, b: Seq<Seq<char>>, sep: Seq<char>)
    requires
        a.len() > 0,
        b.len() > 0,
        sep.len() == 2,
        sep[0] != sep[1],
        parts_lack(a, sep),
        parts_lack(b, sep),
        joined(a, sep) == joined(b, sep),
    ensures
        a == b,
    decreases a.len(),
{
    if a.len() > 1 && b.len() > 1 {
        let (x, y) = (a.drop_last(), b.drop_last());
        assert(joined(x, sep) == joined(y, sep) && a.last() == b.last()) by {
            lemma_joint(a, sep, joint(b, sep));
            lemma_joint(b, sep, joint(a, sep));
        }
        lemma_front_lacks(a, sep);
        lemma_front_lacks(b, sep);
        lemma_joined_apart(x, y, sep);
        assert(a =~= x.push(a.last()));
        assert(b =~= y.push(b.last()));
    } else if a.len() > 1 {
        lemma_one_is_not_several(b, a, sep);
    } else if b.len() > 1 {
        lemma_one_is_not_several(a, b, sep);
    } else {
        assert(a =~= seq![a[0]]);
        assert(b =~= seq![b[0]]);
    }
}

/// A character of joined text comes from the separator or from a part.
pub proof fn lemma_joined_char(parts: Seq<Seq<char>>, sep: Seq<char>, i: int) -> (j: int)
    requires
        0 <= i < joined(parts, sep).len(),
    ensures
        sep.contains(joined(parts, sep)[i]) || (0 <= j < parts.len() && parts[j].contains(
            joined(parts, sep)[i],
        )),
    decreases parts.len(),
{
    let s = joined(parts, sep);
    if parts.len() == 1 {
        assert(parts[0][i] == s[i]);
        0
    } else {
        let front = joined(parts.drop_last(), sep);
        if i < front.len() {
            let j = lemma_joined_char(parts.drop_last(), sep, i);
            assert(s[i] == front[i]);
            j
        } else if i < front.len() + sep.len() {
            assert(sep[i - front.len()] == s[i]);
            0
        } else {
            assert(parts.last()[i - front.len() - sep.len()] == s[i]);
            parts.len() - 1
        }
    }
}

/// The first word of `s`, words being separated by white space; empty when
/// there is none.
pub open spec fn first_word(s: Seq<char>) -> Seq<char> {
    head_word(trimmed_start(s, Class::White))
}

/// The characters of `s` up to the first white space.
pub open spec fn head_word(s: Seq<char>) -> Seq<char>
    decreases s.len(),
{
    if s.len() == 0 || is_white(s[0]) {
        Seq::empty()
    } else {
        seq![s[0]] + head_word(s.drop_first())
    }
}

pub fn word(s: &[char]) -> (v: Vec<char>)
    ensures
        v@ == first_word(s@),
{
    let t = trim_start(s, Class::White);
    let mut v: Vec<char> = Vec::new();
    let mut i: usize = 0;
    assert(t@.skip(0) =~= t@);
    while i < t.len() && !white(t[i])
        invariant
            i <= t.len(),
            head_word(t@) =~= v@ + head_word(t@.skip(i as int)),
        decreases t.len() - i,
    {
        assert(t@.skip(i as int).drop_first() =~= t@.skip(i + 1));
        v.push(t[i]);
        i += 1;
    }
    v
}

/// The lines of `s`: what stands before each line feed, without a carriage
/// return at its end, then what is left after the last one, if anything is.
pub open spec fn text_lines(s: Seq<char>) -> Seq<Seq<char>> {
    let p = pieces(s, '\n');
    let whole = Seq::new((p.len() - 1) as nat, |i: int| no_return(p[i]));
    if p.last().len() == 0 {
        whole
    } else {
        whole.push(p.last())
    }
}

/// `s` without the carriage return at its end.
pub open spec fn no_return(s: Seq<char>) -> Seq<char> {
    if s.len() > 0 && s.last() == '\r' {
        s.drop_last()
    } else {
        s
    }
}

pub fn lines(s: &[char]) -> (v: Vec<Vec<char>>)
    ensures
        views(v@) == text_lines(s@),
{
    let p = split(s, '\n');
    let ghost model = pieces(s@, '\n');
    let mut v: Vec<Vec<char>> = Vec::new();
    let mut i: usize = 0;
    assert(forall|m: int| 0 <= m < p.len() ==> views(p@)[m] == p[m]@);
    while i < p.len() - 1
        invariant
            0 < p.len(),
            i <= p.len() - 1,
            model.len() == p.len(),
            v.len() == i,
            forall|m: int| 0 <= m < p.len() ==> model[m] == p[m]@,
            forall|m: int| 0 <= m < i ==> (#[trigger] v[m])@ == no_return(model[m]),
        decreases p.len() - i,
    {
        let mut line = p[i].clone();
        assert(line@ =~= p[i as int]@);
        if line.len() > 0 && line[line.len() - 1] == '\r' {
            line.pop();
            assert(line@ =~= no_return(model[i as int]));
        }
        v.push(line);
        i += 1;
    }
    let last = &p[p.len() - 1];
    if last.len() > 0 {
        let line = last.clone();
        assert(line@ =~= last@);
        v.push(line);
    }
    assert(views(v@) =~= text_lines(s@));
    v
}

// Numbers.

pub open spec fn digit_char(d: int) -> char {
    ('0' as u32 + d) as char
}

/// `n` in decimal.
pub open spec fn decimal(n: nat) -> Seq<char>
    decreases n,
{
    if n < 10 {
        seq![digit_char(n as int)]
    } else {
        decimal(n / 10).push(digit_char((n % 10) as int))
    }
}

pub fn decimal_wide(n: u128) -> (v: Vec<char>)
    ensures
        v@ == decimal(n as nat),
    decreases n,
{
    if n < 10 {
        let mut v: Vec<char> = Vec::new();
        v.push((48u8 + n as u8) as char);
        assert(v@ =~= decimal(n as nat));
        v
    } else {
        let mut v = decimal_wide(n / 10);
        v.push((48u8 + (n % 10) as u8) as char);
        v
    }
}

pub fn decimal_chars(n: u64) -> (v: Vec<char>)
    ensures
        v@ == decimal(n as nat),
{
    decimal_wide(n as u128)
}

/// `n` in decimal, with a minus sign where it is negative.
pub open spec fn signed_decimal(n: int) -> Seq<char> {
    if n < 0 {
        seq!['-'] + decimal((-n) as nat)
    } else {
        decimal(n as nat)
    }
}

pub fn signed_number(n: i128) -> (s: String)
    ensures
        s@ == signed_decimal(n as int),
{
    let mut s = String::new();
    if n < 0 {
        s.push('-');
        // `-n` need not fit, but `-1 - n` does.
        let size: u128 = ((-1 - n) as u128) + 1;
        put(&mut s, string_of(decimal_wide(size).as_slice()).as_str());
        assert(s@ =~= signed_decimal(n as int));
    } else {
        put(&mut s, string_of(decimal_wide(n as u128).as_slice()).as_str());
        assert(s@ =~= signed_decimal(n as int));
    }
    s
}

/// `n` in decimal.
pub fn number(n: u64) -> (s: String)
    ensures
        s@ == decimal(n as nat),
{
    string_of(decimal_chars(n).as_slice())
}

pub open spec fn all_digits(s: Seq<char>) -> bool {
    forall|i: int| 0 <= i < s.len() ==> is_digit(s[i])
}

/// What the digits `s` stand for.
pub open spec fn digits_value(s: Seq<char>) -> nat
    decreases s.len(),
{
    if s.len() == 0 {
        0
    } else {
        digits_value(s.drop_last()) * 10 + (s.last() as u32 - '0' as u32) as nat
    }
}

/// The number that `s` writes with one or more digits and an optional plus
/// sign, when it is at most `max`.
pub open spec fn unsigned(s: Seq<char>, max: nat) -> Option<nat> {
    plain_number(
        if s.len() > 0 && s[0] == '+' {
            s.drop_first()
        } else {
            s
        },
        max,
    )
}

/// The number that `s` writes with one or more digits, when it is at most `max`.
pub open spec fn plain_number(s: Seq<char>, max: nat) -> Option<nat> {
    if s.len() > 0 && all_digits(s) && digits_value(s) <= max {
        Some(digits_value(s))
    } else {
        None
    }
}

proof fn lemma_value_grows(s: Seq<char>, k: int)
    requires
        0 <= k <= s.len(),
        all_digits(s),
    ensures
        digits_value(s.take(k)) <= digits_value(s),
    decreases s.len() - k,
{
    if k < s.len() {
        lemma_value_grows(s, k + 1);
        let t = s.take(k + 1);
        assert(t.drop_last() =~= s.take(k));
        assert(is_digit(s[k]));
    } else {
        assert(s.take(k) =~= s);
    }
}

pub fn parse_plain(s: &[char], max: u64) -> (r: Option<u64>)
    ensures
        r is Some <==> plain_number(s@, max as nat) is Some,
        r matches Some(n) ==> plain_number(s@, max as nat) == Some(n as nat),
{
    if s.len() == 0 {
        return None;
    }
    let mut i: usize = 0;
    while i < s.len()
        invariant
            i <= s.len(),
            forall|m: int| 0 <= m < i ==> is_digit(s[m]),
        decreases s.len() - i,
    {
        if !('0' <= s[i] && s[i] <= '9') {
            assert(!is_digit(s[i as int]));
            return None;
        }
        i += 1;
    }
    let mut n: u64 = 0;
    let mut j: usize = 0;
    while j < s.len()
        invariant
            j <= s.len(),
            s.len() > 0,
            all_digits(s@),
            n == digits_value(s@.take(j as int)),
            n <= max,
        decreases s.len() - j,
    {
        let ghost t = s@.take(j + 1);
        assert(t.drop_last() =~= s@.take(j as int));
        assert(is_digit(s[j as int]));
        let d: u64 = (s[j] as u32 - '0' as u32) as u64;
        let wide: u128 = (n as u128) * 10 + (d as u128);
        if wide > max as u128 {
            proof {
                lemma_value_grows(s@, j + 1);
            }
            return None;
        }
        n = wide as u64;
        j += 1;
    }
    assert(s@.take(j as int) =~= s@);
    Some(n)
}

pub fn parse_unsigned(s: &[char], max: u64) -> (r: Option<u64>)
    ensures
        r is Some <==> unsigned(s@, max as nat) is Some,
        r matches Some(n) ==> unsigned(s@, max as nat) == Some(n as nat),
{
    if s.len() > 0 && s[0] == '+' {
        let rest = slice_subrange(s, 1, s.len());
        assert(rest@ =~= s@.drop_first());
        parse_plain(rest, max)
    } else {
        parse_plain(s, max)
    }
}

/// The decimal form of `n` is made of digits and reads back as `n`.
pub proof fn lemma_decimal(n: nat)
    ensures
        decimal(n).len() > 0,
        all_digits(decimal(n)),
        digits_value(decimal(n)) == n,
        n > 0 ==> decimal(n)[0] != '0',
    decreases n,
{
    if n < 10 {
        let s = decimal(n);
        assert(s.drop_last() =~= Seq::<char>::empty());
        assert(s.last() == digit_char(n as int));
        assert(digits_value(s.drop_last()) == 0);
    } else {
        lemma_decimal(n / 10);
        let s = decimal(n);
        assert(s.drop_last() =~= decimal(n / 10));
        assert forall|i: int| 0 <= i < s.len() implies is_digit(s[i]) by {
            if i < s.len() - 1 {
                assert(s[i] == decimal(n / 10)[i]);
            }
        }
    }
}

/// A number written in decimal reads back as itself.
pub proof fn decimal_reads_back(n: nat, max: nat)
    requires
        n <= max,
    ensures
        unsigned(decimal(n), max) == Some(n),
{
    lemma_decimal(n);
    assert(is_digit(decimal(n)[0]));
}

// Order.

/// Does `a` come before `b`, character by character?
pub open spec fn before(a: Seq<char>, b: Seq<char>) -> bool
    decreases a.len(),
{
    if b.len() == 0 {
        false
    } else if a.len() == 0 {
        true
    } else if a[0] == b[0] {
        before(a.drop_first(), b.drop_first())
    } else {
        a[0] < b[0]
    }
}

pub proof fn lemma_before_irreflexive(a: Seq<char>)
    ensures
        !before(a, a),
    decreases a.len(),
{
    if a.len() > 0 {
        lemma_before_irreflexive(a.drop_first());
    }
}

pub proof fn lemma_before_transitive(a: Seq<char>, b: Seq<char>, c: Seq<char>)
    requires
        before(a, b),
        before(b, c),
    ensures
        before(a, c),
    decreases a.len(),
{
    if a.len() > 0 && a[0] == b[0] && b[0] == c[0] {
        lemma_before_transitive(a.drop_first(), b.drop_first(), c.drop_first());
    }
}

pub proof fn lemma_before_total(a: Seq<char>, b: Seq<char>)
    ensures
        before(a, b) || a == b || before(b, a),
    decreases a.len(),
{
    if a.len() == 0 && b.len() == 0 {
        assert(a =~= b);
    } else if a.len() > 0 && b.len() > 0 && a[0] == b[0] {
        lemma_before_total(a.drop_first(), b.drop_first());
        if a.drop_first() == b.drop_first() {
            assert(a =~= seq![a[0]] + a.drop_first());
            assert(b =~= seq![b[0]] + b.drop_first());
        }
    }
}

/// How one text stands to another in the order.
#[derive(Clone, Copy, Debug, PartialEq, Eq, Structural)]
pub enum Place {
    Before,
    Same,
    After,
}

/// The place of `a` relative to `b`.
pub fn place(a: &str, b: &str) -> (r: Place)
    ensures
        r == Place::Before <==> before(a@, b@),
        r == Place::Same <==> a@ == b@,
        r == Place::After <==> before(b@, a@),
{
    let x = chars_of(a);
    let y = chars_of(b);
    let mut i: usize = 0;
    proof {
        assert(x@.skip(0) =~= x@);
        assert(y@.skip(0) =~= y@);
        lemma_before_irreflexive(x@);
    }
    while i < x.len() && i < y.len() && x[i] == y[i]
        invariant
            i <= x.len(),
            i <= y.len(),
            forall|m: int| 0 <= m < i ==> x[m] == y[m],
            before(x@, y@) == before(x@.skip(i as int), y@.skip(i as int)),
            before(y@, x@) == before(y@.skip(i as int), x@.skip(i as int)),
        decreases x.len() - i,
    {
        assert(x@.skip(i as int).drop_first() =~= x@.skip(i + 1));
        assert(y@.skip(i as int).drop_first() =~= y@.skip(i + 1));
        i += 1;
    }
    if i == x.len() && i == y.len() {
        assert(x@ =~= y@);
        Place::Same
    } else if i == x.len() || (i < y.len() && x[i] < y[i]) {
        Place::Before
    } else {
        Place::After
    }
}

/// Lowering changes no character of a class, and makes none.
proof fn lemma_lower_class(c: char, k: Class)
    ensures
        k.has(lower_char(c)) == k.has(c),
{
}

proof fn lemma_trimmed_end_lowered(s: Seq<char>, k: Class)
    ensures
        lowered(trimmed_end(s, k)) == trimmed_end(lowered(s), k),
    decreases s.len(),
{
    if s.len() > 0 {
        lemma_lower_class(s.last(), k);
        assert(lowered(s).drop_last() =~= lowered(s.drop_last()));
        lemma_trimmed_end_lowered(s.drop_last(), k);
    }
    assert(lowered(trimmed_end(s, k)) =~= trimmed_end(lowered(s), k));
}

proof fn lemma_trimmed_start_lowered(s: Seq<char>, k: Class)
    ensures
        lowered(trimmed_start(s, k)) == trimmed_start(lowered(s), k),
    decreases s.len(),
{
    if s.len() > 0 {
        lemma_lower_class(s[0], k);
        assert(lowered(s).drop_first() =~= lowered(s.drop_first()));
        lemma_trimmed_start_lowered(s.drop_first(), k);
    }
    assert(lowered(trimmed_start(s, k)) =~= trimmed_start(lowered(s), k));
}

/// It is the same to lower a text and to lower what is left of it.
pub proof fn lemma_trimmed_lowered(s: Seq<char>, k: Class)
    ensures
        lowered(trimmed(s, k)) == trimmed(lowered(s), k),
        lowered(trimmed_end(s, k)) == trimmed_end(lowered(s), k),
{
    lemma_trimmed_start_lowered(s, k);
    lemma_trimmed_end_lowered(trimmed_start(s, k), k);
    lemma_trimmed_end_lowered(s, k);
}

/// Trimming the start leaves the last character where it is not all trimmed.
pub proof fn lemma_trimmed_start_push(s: Seq<char>, c: char, k: Class)
    requires
        !k.has(c),
    ensures
        trimmed_start(s.push(c), k) == trimmed_start(s, k).push(c),
    decreases s.len(),
{
    if s.len() > 0 && k.has(s[0]) {
        assert(s.push(c).drop_first() =~= s.drop_first().push(c));
        lemma_trimmed_start_push(s.drop_first(), c, k);
    }
}

/// What is left after trimming the start ends as the text does.
pub proof fn lemma_trimmed_start_last(s: Seq<char>, k: Class)
    requires
        s.len() > 0,
        !k.has(s.last()),
    ensures
        trimmed_start(s, k).len() > 0,
        trimmed_start(s, k).last() == s.last(),
    decreases s.len(),
{
    if k.has(s[0]) {
        assert(s.len() > 1);
        assert(s.drop_first().last() == s.last());
        lemma_trimmed_start_last(s.drop_first(), k);
    }
}

} // verus!
