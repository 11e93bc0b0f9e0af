//! Text as sequences of characters.
//!
//! Addresses, filter expressions and command lines are read and written as
//! text. Contracts speak of text as `Seq<char>`, the view of `str` and
//! `String`; the functions here work on `[char]`, where one position is one
//! character.

use vstd::prelude::*;

verus! {

/// `String::push` appends one character to the end of the string.
pub assume_specification[ String::push ](s: &mut String, c: char)
    ensures
        final(s)@ == old(s)@.push(c),
;

/// The texts held by a list of character vectors.
pub open spec fn texts(pieces: Seq<Vec<char>>) -> Seq<Seq<char>> {
    pieces.map_values(|p: Vec<char>| p@)
}

/// The characters of a string.
pub fn chars_of(s: &str) -> (r: Vec<char>)
    ensures
        r@ == s@,
{
    let mut out: Vec<char> = Vec::new();
    for c in it: s.chars()
        invariant
            it.seq() == s@,
            out@ == s@.take(it.index() as int),
    {
        out.push(c);
        assert(s@.take(it.index() as int).push(c) =~= s@.take(it.index() + 1));
    }
    assert(s@.take(s@.len() as int) =~= s@);
    out
}

/// The string made of the given characters.
pub fn string_of(v: &[char]) -> (r: String)
    ensures
        r@ == v@,
{
    let mut out: String = String::new();
    let mut i: usize = 0;
    while i < v.len()
        invariant
            i <= v@.len(),
            out@ == v@.take(i as int),
        decreases v@.len() - i,
    {
        out.push(v[i]);
        assert(v@.take(i as int).push(v@[i as int]) =~= v@.take(i + 1));
        i = i + 1;
    }
    assert(v@.take(v@.len() as int) =~= v@);
    out
}

/// Whether two texts are the same.
pub fn same_chars(a: &[char], b: &[char]) -> (r: bool)
    ensures
        r == (a@ == b@),
{
    if a.len() != b.len() {
        return false;
    }
    let mut i: usize = 0;
    while i < a.len()
        invariant
            i <= a@.len(),
            a@.len() == b@.len(),
            forall|j: int| 0 <= j < i ==> a@[j] == b@[j],
        decreases a@.len() - i,
    {
        if a[i] != b[i] {
            return false;
        }
        i = i + 1;
    }
    assert(a@ =~= b@);
    true
}

/// Whether a text is the given string.
pub fn same_text(a: &[char], b: &str) -> (r: bool)
    ensures
        r == (a@ == b@),
{
    let chars: Vec<char> = chars_of(b);
    same_chars(a, chars.as_slice())
}

/// Whether `c` occurs in the text.
pub fn has_char(v: &[char], c: char) -> (r: bool)
    ensures
        r == v@.contains(c),
{
    let mut i: usize = 0;
    while i < v.len()
        invariant
            i <= v@.len(),
            forall|j: int| 0 <= j < i ==> v@[j] != c,
        decreases v@.len() - i,
    {
        if v[i] == c {
            return true;
        }
        i = i + 1;
    }
    false
}

/// A copy of the characters from `from` up to, not including, `to`.
pub fn part(v: &[char], from: usize, to: usize) -> (r: Vec<char>)
    requires
        from <= to <= v@.len(),
    ensures
        r@ == v@.subrange(from as int, to as int),
{
    let mut out: Vec<char> = Vec::new();
    let mut i: usize = from;
    while i < to
        invariant
            from <= i <= to <= v@.len(),
            out@ == v@.subrange(from as int, i as int),
        decreases to - i,
    {
        out.push(v[i]);
        assert(v@.subrange(from as int, i as int).push(v@[i as int]) =~= v@.subrange(
            from as int,
            i + 1,
        ));
        i = i + 1;
    }
    out
}

/// `c` in lower case, where it is an ASCII letter.
pub open spec fn lower_char(c: char) -> char {
    if 'A' <= c <= 'Z' {
        (c as int + 32) as char
    } else {
        c
    }
}

/// `s` with its ASCII letters in lower case.
pub open spec fn lowered(s: Seq<char>) -> Seq<char> {
    s.map_values(|c: char| lower_char(c))
}

/// Make the ASCII letters of a text lower case.
pub fn lower(v: &[char]) -> (r: Vec<char>)
    ensures
        r@ == lowered(v@),
{
    let mut out: Vec<char> = Vec::new();
    let mut i: usize = 0;
    while i < v.len()
        invariant
            i <= v@.len(),
            out@ == lowered(v@.take(i as int)),
        decreases v@.len() - i,
    {
        let c: char = v[i];
        if 'A' <= c && c <= 'Z' {
            out.push((c as u8 + 32) as char);
        } else {
            out.push(c);
        }
        i = i + 1;
        assert(out@ =~= lowered(v@.take(i as int)));
    }
    assert(v@.take(v@.len() as int) =~= v@);
    out
}

// ---------------------------------------------------------------------------
// White space

/// The Unicode characters with the `White_Space` property.
pub open spec fn is_white_space(c: char) -> bool {
    ||| '\u{9}' <= c <= '\u{d}'
    ||| c == ' '
    ||| c == '\u{85}'
    ||| c == '\u{a0}'
    ||| c == '\u{1680}'
    ||| '\u{2000}' <= c <= '\u{200a}'
    ||| c == '\u{2028}'
    ||| c == '\u{2029}'
    ||| c == '\u{202f}'
    ||| c == '\u{205f}'
    ||| c == '\u{3000}'
}

/// Whether `c` is white space.
pub fn white_space(c: char) -> (r: bool)
    ensures
        r == is_white_space(c),
{
    ('\u{9}' <= c && c <= '\u{d}') || c == ' ' || c == '\u{85}' || c == '\u{a0}' || c == '\u{1680}'
        || ('\u{2000}' <= c && c <= '\u{200a}') || c == '\u{2028}' || c == '\u{2029}' || c
        == '\u{202f}' || c == '\u{205f}' || c == '\u{3000}'
}

/// `s` without the white space at its end.
pub open spec fn trimmed_end(s: Seq<char>) -> Seq<char>
    decreases s.len(),
{
    if s.len() > 0 && is_white_space(s.last()) {
        trimmed_end(s.drop_last())
    } else {
        s
    }
}

/// `s` without the white space at its start.
pub open spec fn trimmed_start(s: Seq<char>) -> Seq<char>
    decreases s.len(),
{
    if s.len() > 0 && is_white_space(s.first()) {
        trimmed_start(s.drop_first())
    } else {
        s
    }
}

/// `s` without the white space at either end.
pub open spec fn trimmed(s: Seq<char>) -> Seq<char> {
    trimmed_end(trimmed_start(s))
}

/// Remove the white space at both ends.
pub fn trim(v: &[char]) -> (r: Vec<char>)
    ensures
        r@ == trimmed(v@),
{
    let mut from: usize = 0;
    assert(v@.skip(0) =~= v@);
    while from < v.len() && white_space(v[from])
        invariant
            from <= v@.len(),
            trimmed_start(v@) == trimmed_start(v@.skip(from as int)),
        decreases v@.len() - from,
    {
        assert(v@.skip(from as int).drop_first() =~= v@.skip(from + 1));
        from = from + 1;
    }
    let ghost s = v@.skip(from as int);
    assert(trimmed_start(v@) == s);
    let mut to: usize = v.len();
    assert(v@.subrange(from as int, to as int) =~= s);
    while to > from && white_space(v[to - 1])
        invariant
            from <= to <= v@.len(),
            trimmed_end(s) == trimmed_end(v@.subrange(from as int, to as int)),
        decreases to,
    {
        assert(v@.subrange(from as int, to as int).drop_last() =~= v@.subrange(
            from as int,
            to - 1,
        ));
        to = to - 1;
    }
    part(v, from, to)
}

/// A text whose first and last characters are not white space is its own trim.
pub proof fn lemma_trimmed_unchanged(s: Seq<char>)
    requires
        s.len() > 0,
        !is_white_space(s.first()),
        !is_white_space(s.last()),
    ensures
        trimmed(s) == s,
{
}

// ---------------------------------------------------------------------------
// Splitting

/// The pieces of `s` between occurrences of `sep`: one more than there are
/// separators, and possibly empty.
pub open spec fn split(s: Seq<char>, sep: char) -> Seq<Seq<char>>
    decreases s.len(),
{
    if s.len() == 0 {
        seq![Seq::<char>::empty()]
    } else {
        let before = split(s.drop_last(), sep);
        if s.last() == sep {
            before.push(Seq::<char>::empty())
        } else {
            before.drop_last().push(before.last().push(s.last()))
        }
    }
}

/// The pieces with `sep` between each two neighbours.
pub open spec fn join(pieces: Seq<Seq<char>>, sep: char) -> Seq<char>
    decreases pieces.len(),
{
    if pieces.len() == 0 {
        Seq::empty()
    } else if pieces.len() == 1 {
        pieces[0]
    } else {
        join(pieces.drop_last(), sep).push(sep) + pieces.last()
    }
}

/// A text is never split into nothing.
pub proof fn lemma_split_nonempty(s: Seq<char>, sep: char)
    ensures
        split(s, sep).len() >= 1,
    decreases s.len(),
{
    if s.len() > 0 {
        lemma_split_nonempty(s.drop_last(), sep);
    }
}

/// A text with the separator has at least two pieces.
pub proof fn lemma_split_with(s: Seq<char>, sep: char)
    requires
        s.contains(sep),
    ensures
        split(s, sep).len() >= 2,
    decreases s.len(),
{
    let i = choose|i: int| 0 <= i < s.len() && s[i] == sep;
    if s.last() == sep {
        lemma_split_nonempty(s.drop_last(), sep);
    } else {
        assert(s.drop_last()[i] == sep);
        lemma_split_with(s.drop_last(), sep);
    }
}

/// A text without the separator is its own only piece.
pub proof fn lemma_split_without(s: Seq<char>, sep: char)
    requires
        !s.contains(sep),
    ensures
        split(s, sep) == seq![s],
    decreases s.len(),
{
    if s.len() > 0 {
        assert(s.contains(s.last()));
        assert forall|c: char| s.drop_last().contains(c) implies s.contains(c) by {
            let i = choose|i: int| 0 <= i < s.len() - 1 && s.drop_last()[i] == c;
            assert(s[i] == c);
        }
        lemma_split_without(s.drop_last(), sep);
        assert(s.drop_last().push(s.last()) =~= s);
        assert(split(s, sep) =~= seq![s]);
    } else {
        assert(s =~= Seq::<char>::empty());
    }
}

/// A character of a text that is not the separator is in one of its pieces.
pub proof fn lemma_split_keeps(s: Seq<char>, sep: char, c: char)
    requires
        s.contains(c),
        c != sep,
    ensures
        exists|i: int| 0 <= i < split(s, sep).len() && (#[trigger] split(s, sep)[i]).contains(c),
    decreases s.len(),
{
    let k = choose|k: int| 0 <= k < s.len() && s[k] == c;
    let pieces = split(s, sep);
    let before = split(s.drop_last(), sep);
    lemma_split_nonempty(s.drop_last(), sep);
    if k == s.len() - 1 {
        let l = pieces.last();
        assert(l[l.len() - 1] == c);
        assert(pieces[pieces.len() - 1].contains(c));
    } else {
        assert(s.drop_last()[k] == c);
        lemma_split_keeps(s.drop_last(), sep, c);
        let i = choose|i: int| 0 <= i < before.len() && (#[trigger] before[i]).contains(c);
        let j = choose|j: int| 0 <= j < before[i].len() && before[i][j] == c;
        assert(pieces[i][j] == c);
        assert(pieces[i].contains(c));
    }
}

/// Text behind the last separator without one is the last piece.
pub proof fn lemma_split_tail(s: Seq<char>, sep: char, t: Seq<char>)
    requires
        !t.contains(sep),
    ensures
        split(s.push(sep) + t, sep) == split(s, sep).push(t),
    decreases t.len(),
{
    let whole = s.push(sep) + t;
    if t.len() == 0 {
        assert(whole =~= s.push(sep));
        assert(s.push(sep).drop_last() =~= s);
        assert(t =~= Seq::<char>::empty());
    } else {
        let t0 = t.drop_last();
        assert(t.contains(t.last()));
        assert forall|c: char| t0.contains(c) implies t.contains(c) by {
            let i = choose|i: int| 0 <= i < t0.len() && t0[i] == c;
            assert(t[i] == c);
        }
        lemma_split_tail(s, sep, t0);
        assert(whole.drop_last() =~= s.push(sep) + t0);
        assert(t0.push(t.last()) =~= t);
        assert(split(whole, sep) =~= split(s, sep).push(t));
    }
}

/// Splitting undoes joining: pieces that do not contain the separator come
/// back as they were.
pub proof fn law_split_join(pieces: Seq<Seq<char>>, sep: char)
    requires
        pieces.len() >= 1,
        forall|i: int| 0 <= i < pieces.len() ==> !(#[trigger] pieces[i]).contains(sep),
    ensures
        split(join(pieces, sep), sep) == pieces,
    decreases pieces.len(),
{
    if pieces.len() == 1 {
        lemma_split_without(pieces[0], sep);
        assert(pieces =~= seq![pieces[0]]);
    } else {
        let before = pieces.drop_last();
        assert forall|i: int| 0 <= i < before.len() implies !(#[trigger] before[i]).contains(
            sep,
        ) by {
            assert(before[i] == pieces[i]);
        }
        law_split_join(before, sep);
        lemma_split_tail(join(before, sep), sep, pieces.last());
        assert(before.push(pieces.last()) =~= pieces);
    }
}

/// Joining undoes splitting, and no piece contains the separator.
pub proof fn law_join_split(s: Seq<char>, sep: char)
    ensures
        join(split(s, sep), sep) == s,
        forall|i: int|
            0 <= i < split(s, sep).len() ==> !(#[trigger] split(s, sep)[i]).contains(sep),
    decreases s.len(),
{
    let pieces = split(s, sep);
    if s.len() == 0 {
        assert(s =~= Seq::<char>::empty());
    } else {
        let c = s.last();
        let before = split(s.drop_last(), sep);
        lemma_split_nonempty(s.drop_last(), sep);
        law_join_split(s.drop_last(), sep);
        assert(s.drop_last().push(c) =~= s);
        if c == sep {
            assert(pieces.drop_last() =~= before);
            assert(join(pieces, sep) =~= s);
        } else {
            let grown = before.last().push(c);
            assert(pieces.drop_last() =~= before.drop_last());
            assert(pieces.last() == grown);
            if before.len() == 1 {
                assert(join(pieces, sep) =~= s);
            } else {
                assert(join(pieces, sep) =~= join(before, sep).push(c));
            }
            assert(!before[before.len() - 1].contains(sep));
            assert forall|i: int| 0 <= i < pieces.len() implies !(#[trigger] pieces[i]).contains(
                sep,
            ) by {
                if i < pieces.len() - 1 {
                    assert(pieces[i] == before[i]);
                } else if pieces[i].contains(sep) {
                    let k = choose|k: int| 0 <= k < grown.len() && grown[k] == sep;
                    assert(before.last()[k] == sep);
                }
            }
        }
    }
}

/// Split a text at every occurrence of `sep`.
pub fn split_at_char(v: &[char], sep: char) -> (r: Vec<Vec<char>>)
    ensures
        texts(r@) == split(v@, sep),
{
    let mut out: Vec<Vec<char>> = Vec::new();
    let mut cur: Vec<char> = Vec::new();
    let mut i: usize = 0;
    assert(v@.take(0) =~= Seq::<char>::empty());
    assert(texts(out@).push(cur@) =~= split(v@.take(0), sep));
    while i < v.len()
        invariant
            i <= v@.len(),
            texts(out@).push(cur@) == split(v@.take(i as int), sep),
        decreases v@.len() - i,
    {
        let c: char = v[i];
        assert(v@.take(i + 1).drop_last() =~= v@.take(i as int));
        let ghost before = texts(out@).push(cur@);
        assert(before.drop_last() =~= texts(out@));
        if c == sep {
            let ghost prior = out@;
            out.push(cur);
            assert(texts(out@) =~= texts(prior).push(cur@));
            cur = Vec::new();
        } else {
            cur.push(c);
        }
        assert(texts(out@).push(cur@) =~= split(v@.take(i + 1), sep));
        i = i + 1;
    }
    assert(v@.take(v@.len() as int) =~= v@);
    let ghost prior = out@;
    out.push(cur);
    assert(texts(out@) =~= texts(prior).push(cur@));
    out
}

/// The pieces that are not empty.
pub open spec fn without_empty(pieces: Seq<Seq<char>>) -> Seq<Seq<char>>
    decreases pieces.len(),
{
    if pieces.len() == 0 {
        Seq::empty()
    } else if pieces.last().len() == 0 {
        without_empty(pieces.drop_last())
    } else {
        without_empty(pieces.drop_last()).push(pieces.last())
    }
}

/// `s` with every white-space character made a plain space.
pub open spec fn spaced(s: Seq<char>) -> Seq<char> {
    Seq::new(
        s.len(),
        |i: int|
            if is_white_space(s[i]) {
                ' '
            } else {
                s[i]
            },
    )
}

/// The words of a text: its longest runs of characters that are not white
/// space.
pub open spec fn words(s: Seq<char>) -> Seq<Seq<char>> {
    without_empty(split(spaced(s), ' '))
}

/// Split a text into its words.
pub fn split_words(v: &[char]) -> (r: Vec<Vec<char>>)
    ensures
        texts(r@) == words(v@),
{
    let mut flat: Vec<char> = Vec::new();
    let mut i: usize = 0;
    while i < v.len()
        invariant
            i <= v@.len(),
            flat@ == spaced(v@.take(i as int)),
        decreases v@.len() - i,
    {
        if white_space(v[i]) {
            flat.push(' ');
        } else {
            flat.push(v[i]);
        }
        assert(flat@ =~= spaced(v@.take(i + 1)));
        i = i + 1;
    }
    assert(v@.take(v@.len() as int) =~= v@);
    let pieces: Vec<Vec<char>> = split_at_char(flat.as_slice(), ' ');
    let mut out: Vec<Vec<char>> = Vec::new();
    let mut k: usize = 0;
    assert(texts(out@) =~= without_empty(texts(pieces@).take(0)));
    while k < pieces.len()
        invariant
            k <= pieces@.len(),
            texts(out@) == without_empty(texts(pieces@).take(k as int)),
        decreases pieces@.len() - k,
    {
        let piece: &Vec<char> = &pieces[k];
        assert(texts(pieces@).take(k + 1).drop_last() =~= texts(pieces@).take(k as int));
        if piece.len() > 0 {
            let ghost prior = out@;
            let copy: Vec<char> = part(piece.as_slice(), 0, piece.len());
            assert(copy@ =~= piece@);
            out.push(copy);
            assert(texts(out@) =~= texts(prior).push(piece@));
        }
        k = k + 1;
    }
    assert(texts(pieces@).take(pieces@.len() as int) =~= texts(pieces@));
    out
}

// ---------------------------------------------------------------------------
// Numbers

/// What `c` stands for as a digit in base `radix`; letters of either case
/// count on from ten.
pub open spec fn digit(c: char, radix: int) -> Option<int> {
    let v = if '0' <= c <= '9' {
        c as int - '0' as int
    } else if 'a' <= c <= 'z' {
        c as int - 'a' as int + 10
    } else if 'A' <= c <= 'Z' {
        c as int - 'A' as int + 10
    } else {
        radix
    };
    if v < radix {
        Some(v)
    } else {
        None
    }
}

/// The number that a run of digits denotes; nothing where a character is no
/// digit. The empty run denotes zero.
pub open spec fn number(s: Seq<char>, radix: int) -> Option<int>
    decreases s.len(),
{
    if s.len() == 0 {
        Some(0)
    } else {
        match (number(s.drop_last(), radix), digit(s.last(), radix)) {
            (Some(v), Some(d)) => Some(v * radix + d),
            _ => None,
        }
    }
}

/// The number read from a text of an optional `+` and at least one digit,
/// where it is at most `max`.
pub open spec fn unsigned(s: Seq<char>, radix: int, max: int) -> Option<int> {
    let digits = if s.len() > 0 && s[0] == '+' {
        s.skip(1)
    } else {
        s
    };
    match number(digits, radix) {
        Some(v) if digits.len() > 0 && v <= max => Some(v),
        _ => None,
    }
}

/// The digit that `c` stands for in base `radix`.
pub fn digit_of(c: char, radix: u32) -> (r: Option<u32>)
    requires
        2 <= radix <= 36,
    ensures
        match r {
            Some(d) => digit(c, radix as int) == Some(d as int),
            None => digit(c, radix as int) is None,
        },
{
    let v: u32 = if '0' <= c && c <= '9' {
        c as u32 - '0' as u32
    } else if 'a' <= c && c <= 'z' {
        c as u32 - 'a' as u32 + 10
    } else if 'A' <= c && c <= 'Z' {
        c as u32 - 'A' as u32 + 10
    } else {
        radix
    };
    if v < radix {
        Some(v)
    } else {
        None
    }
}

/// A number only grows with further digits.
pub proof fn lemma_number_grows(s: Seq<char>, radix: int, i: int)
    requires
        2 <= radix,
        0 <= i <= s.len(),
        number(s, radix) is Some,
    ensures
        number(s.take(i), radix) is Some,
        0 <= number(s.take(i), radix)->0 <= number(s, radix)->0,
    decreases s.len() - i,
{
    if i == s.len() {
        assert(s.take(i) =~= s);
        lemma_number_natural(s, radix);
    } else {
        lemma_number_grows(s, radix, i + 1);
        assert(s.take(i + 1).drop_last() =~= s.take(i));
        lemma_number_natural(s.take(i), radix);
        let v = number(s.take(i), radix)->0;
        assert(v * radix >= v) by (nonlinear_arith)
            requires
                v >= 0,
                radix >= 2,
        ;
    }
}

/// Numbers are not negative.
pub proof fn lemma_number_natural(s: Seq<char>, radix: int)
    requires
        2 <= radix,
        number(s, radix) is Some,
    ensures
        number(s, radix)->0 >= 0,
    decreases s.len(),
{
    if s.len() > 0 {
        lemma_number_natural(s.drop_last(), radix);
        let v = number(s.drop_last(), radix)->0;
        assert(v * radix >= 0) by (nonlinear_arith)
            requires
                v >= 0,
                radix >= 2,
        ;
    }
}

/// Read an unsigned number in base `radix` that is at most `max`.
pub fn parse_unsigned(v: &[char], radix: u32, max: u32) -> (r: Option<u32>)
    requires
        2 <= radix <= 36,
    ensures
        match r {
            Some(n) => unsigned(v@, radix as int, max as int) == Some(n as int),
            None => unsigned(v@, radix as int, max as int) is None,
        },
{
    let from: usize = if v.len() > 0 && v[0] == '+' {
        1
    } else {
        0
    };
    let ghost digits = v@.skip(from as int);
    assert(v@.skip(0) =~= v@);
    if from == v.len() {
        return None;
    }
    let mut n: u64 = 0;
    let mut i: usize = from;
    assert(digits.take(0) =~= Seq::<char>::empty());
    while i < v.len()
        invariant
            from <= i <= v@.len(),
            digits == v@.skip(from as int),
            from < v@.len(),
            2 <= radix <= 36,
            from == (if v@.len() > 0 && v@[0] == '+' { 1int } else { 0int }),
            v@.skip(0) == v@,
            n <= max,
            number(digits.take(i - from), radix as int) == Some(n as int),
        decreases v@.len() - i,
    {
        let ghost head = digits.take(i - from + 1);
        assert(head.drop_last() =~= digits.take(i - from));
        assert(head.last() == v@[i as int]);
        match digit_of(v[i], radix) {
            None => {
                proof {
                    if number(digits, radix as int) is Some {
                        lemma_number_grows(digits, radix as int, i - from + 1);
                    }
                }
                return None;
            },
            Some(d) => {
                assert(n * radix <= u32::MAX * 36) by (nonlinear_arith)
                    requires
                        n <= u32::MAX,
                        radix <= 36,
                ;
                n = n * (radix as u64) + d as u64;
                if n > max as u64 {
                    proof {
                        if number(digits, radix as int) is Some {
                            lemma_number_grows(digits, radix as int, i - from + 1);
                        }
                    }
                    return None;
                }
            },
        }
        i = i + 1;
    }
    assert(digits.take(v@.len() - from) =~= digits);
    Some(n as u32)
}

/// The number read from a text of an optional sign and at least one digit,
/// where it lies between `-max - 1` and `max`.
pub open spec fn signed(s: Seq<char>, max: int) -> Option<int> {
    if s.len() > 0 && s[0] == '-' {
        match number(s.skip(1), 10) {
            Some(v) if s.len() > 1 && v <= max + 1 => Some(-v),
            _ => None,
        }
    } else {
        unsigned(s, 10, max)
    }
}

/// Read a signed 32-bit number.
pub fn parse_i32(v: &[char]) -> (r: Option<i32>)
    ensures
        match r {
            Some(n) => signed(v@, i32::MAX as int) == Some(n as int),
            None => signed(v@, i32::MAX as int) is None,
        },
{
    if v.len() > 0 && v[0] == '-' {
        let n: usize = v.len();
        let rest: Vec<char> = part(v, 1, n);
        assert(rest@ =~= v@.skip(1));
        if rest.len() > 0 && rest[0] == '+' {
            proof {
                if number(rest@, 10) is Some {
                    lemma_number_grows(rest@, 10, 1);
                    assert(rest@.take(1).last() == '+');
                }
            }
            return None;
        }
        match parse_unsigned(rest.as_slice(), 10, 0x8000_0000) {
            Some(m) => if m == 0x8000_0000 {
                Some(i32::MIN)
            } else {
                Some(-(m as i32))
            },
            None => None,
        }
    } else {
        match parse_unsigned(v, 10, 0x7fff_ffff) {
            Some(m) => Some(m as i32),
            None => None,
        }
    }
}

/// The character for the digit `d`, in lower case.
pub open spec fn digit_char(d: int) -> char {
    if d < 10 {
        ('0' as int + d) as char
    } else {
        ('a' as int + d - 10) as char
    }
}

/// The digits of `n` in base `radix`, without leading zeros.
pub open spec fn digits(n: int, radix: int) -> Seq<char>
    decreases n,
    when n >= 0 && radix >= 2
{
    if n < radix {
        seq![digit_char(n)]
    } else {
        proof {
            assert(0 <= n / radix < n) by (nonlinear_arith)
                requires
                    n >= radix,
                    radix >= 2,
            ;
        }
        digits(n / radix, radix).push(digit_char(n % radix))
    }
}

/// The decimal digits of `n`.
pub open spec fn decimal(n: int) -> Seq<char> {
    digits(n, 10)
}

/// Append the digits of `n` in base `radix`.
pub fn push_digits(out: &mut String, n: u64, radix: u64)
    requires
        2 <= radix <= 36,
    ensures
        final(out)@ == old(out)@ + digits(n as int, radix as int),
    decreases n,
{
    if n < radix {
        out.push(char_of_digit(n as u32));
        assert(out@ =~= old(out)@ + digits(n as int, radix as int));
    } else {
        assert(0 <= n / radix < n) by (nonlinear_arith)
            requires
                n >= radix,
                radix >= 2,
        ;
        assert(0 <= n % radix < radix) by (nonlinear_arith)
            requires
                radix >= 2,
        ;
        push_digits(out, n / radix, radix);
        out.push(char_of_digit((n % radix) as u32));
        assert(out@ =~= old(out)@ + digits(n as int, radix as int));
    }
}

/// The character for the digit `d`.
pub fn char_of_digit(d: u32) -> (c: char)
    requires
        d < 36,
    ensures
        c == digit_char(d as int),
{
    if d < 10 {
        ('0' as u8 + d as u8) as char
    } else {
        ('a' as u8 + (d as u8 - 10)) as char
    }
}

/// Append the decimal digits of `n`.
pub fn push_decimal(out: &mut String, n: u64)
    ensures
        final(out)@ == old(out)@ + decimal(n as int),
{
    push_digits(out, n, 10);
}

/// The decimal digits of an integer, with its sign where it is negative.
pub open spec fn integer(n: int) -> Seq<char> {
    if n < 0 {
        seq!['-'] + decimal(-n)
    } else {
        decimal(n)
    }
}

/// Append an integer.
pub fn push_integer(out: &mut String, n: i32)
    ensures
        final(out)@ == old(out)@ + integer(n as int),
{
    if n < 0 {
        out.push('-');
        push_decimal(out, (-(n as i64)) as u64);
        assert(out@ =~= old(out)@ + integer(n as int));
    } else {
        push_decimal(out, n as u64);
    }
}

/// So many spaces.
pub open spec fn spaces(n: int) -> Seq<char> {
    if n <= 0 {
        Seq::empty()
    } else {
        Seq::new(n as nat, |i: int| ' ')
    }
}

/// `s` with spaces behind it, up to a width.
pub open spec fn left_aligned(s: Seq<char>, width: int) -> Seq<char> {
    s + spaces(width - s.len())
}

/// `s` with spaces before it, up to a width.
pub open spec fn right_aligned(s: Seq<char>, width: int) -> Seq<char> {
    spaces(width - s.len()) + s
}

/// Append spaces up to a width, behind or before a text of length `len`.
pub fn push_spaces(out: &mut String, len: usize, width: usize)
    ensures
        final(out)@ == old(out)@ + spaces(width - len),
{
    let mut i: usize = len;
    assert(out@ =~= old(out)@ + spaces(0));
    while i < width
        invariant
            len <= i,
            i <= width || i == len,
            out@ == old(out)@ + spaces(i - len),
        decreases width - i,
    {
        out.push(' ');
        i = i + 1;
        assert(out@ =~= old(out)@ + spaces(i - len));
    }
    assert(spaces(width - len) =~= spaces(i - len));
}

/// Append a text, left-aligned.
pub fn push_left(out: &mut String, s: &str, width: usize)
    ensures
        final(out)@ == old(out)@ + left_aligned(s@, width as int),
{
    let chars: Vec<char> = chars_of(s);
    out.append(s);
    push_spaces(out, chars.len(), width);
    assert(out@ =~= old(out)@ + left_aligned(s@, width as int));
}

/// Append a text, right-aligned.
pub fn push_right(out: &mut String, s: &str, width: usize)
    ensures
        final(out)@ == old(out)@ + right_aligned(s@, width as int),
{
    let chars: Vec<char> = chars_of(s);
    push_spaces(out, chars.len(), width);
    out.append(s);
    assert(out@ =~= old(out)@ + right_aligned(s@, width as int));
}

/// A digit reads back as what it was written for.
pub proof fn lemma_digit_char(d: int, radix: int)
    requires
        2 <= radix <= 36,
        0 <= d < radix,
    ensures
        digit(digit_char(d), radix) == Some(d),
        digit_char(d) == '0' <==> d == 0,
        '0' <= digit_char(d) <= 'z',
{
}

/// Reading undoes writing: the digits of a number denote that number. There
/// is at least one, and the first is zero only for zero itself.
pub proof fn law_number_digits(n: int, radix: int)
    requires
        2 <= radix <= 36,
        n >= 0,
    ensures
        number(digits(n, radix), radix) == Some(n),
        digits(n, radix).len() >= 1,
        digits(n, radix)[0] == '0' <==> n == 0,
        forall|i: int|
            0 <= i < digits(n, radix).len() ==> digit(#[trigger] digits(n, radix)[i], radix) is Some,
    decreases n,
{
    let s = digits(n, radix);
    if n < radix {
        lemma_digit_char(n, radix);
        assert(s.drop_last() =~= Seq::<char>::empty());
        assert(number(Seq::<char>::empty(), radix) == Some(0int));
        assert(0 * radix == 0) by (nonlinear_arith);
    } else {
        assert(1 <= n / radix < n && n == (n / radix) * radix + n % radix && 0 <= n % radix < radix)
            by (nonlinear_arith)
            requires
                n >= radix,
                radix >= 2,
        ;
        law_number_digits(n / radix, radix);
        lemma_digit_char(n % radix, radix);
        assert(s.drop_last() =~= digits(n / radix, radix));
        assert(s[0] == digits(n / radix, radix)[0]);
        assert forall|i: int| 0 <= i < s.len() implies digit(#[trigger] s[i], radix) is Some by {
            if i < s.len() - 1 {
                assert(s[i] == digits(n / radix, radix)[i]);
            }
        }
    }
}

// ---------------------------------------------------------------------------
// Laws

/// The white-space characters, by their numbers.
pub proof fn law_white_space(c: char)
    ensures
        is_white_space(c) <==> {
            let n = c as int;
            9 <= n <= 13 || n == 32 || n == 133 || n == 160 || n == 5760 || 8192 <= n <= 8202 || n
                == 8232 || n == 8233 || n == 8239 || n == 8287 || n == 12288
        },
{
}

/// In lower case the letters from `A` to `Z` are 32 further on, and every other
/// character is as it was.
pub proof fn law_lowered(s: Seq<char>, i: int)
    requires
        0 <= i < s.len(),
    ensures
        lowered(s).len() == s.len(),
        65 <= s[i] as int <= 90 ==> lowered(s)[i] as int == s[i] as int + 32,
        !(65 <= s[i] as int <= 90) ==> lowered(s)[i] == s[i],
{
}

/// What is cut off at the start is white space, and no more of it is left there.
proof fn lemma_trimmed_start(s: Seq<char>) -> (a: Seq<char>)
    ensures
        s == a + trimmed_start(s),
        forall|i: int| 0 <= i < a.len() ==> is_white_space(#[trigger] a[i]),
        trimmed_start(s).len() > 0 ==> !is_white_space(trimmed_start(s).first()),
    decreases s.len(),
{
    if s.len() > 0 && is_white_space(s.first()) {
        let b = lemma_trimmed_start(s.drop_first());
        let a = seq![s.first()] + b;
        let t = trimmed_start(s.drop_first());
        assert(s =~= seq![s.first()] + (b + t));
        assert(a + t =~= seq![s.first()] + (b + t));
        a
    } else {
        assert(s =~= Seq::<char>::empty() + s);
        Seq::empty()
    }
}

/// What is cut off at the end is white space, and no more of it is left there.
proof fn lemma_trimmed_end(s: Seq<char>) -> (b: Seq<char>)
    ensures
        s == trimmed_end(s) + b,
        forall|i: int| 0 <= i < b.len() ==> is_white_space(#[trigger] b[i]),
        trimmed_end(s).len() > 0 ==> !is_white_space(trimmed_end(s).last()),
    decreases s.len(),
{
    if s.len() > 0 && is_white_space(s.last()) {
        let a = lemma_trimmed_end(s.drop_last());
        let b = a.push(s.last());
        let t = trimmed_end(s.drop_last());
        assert(s =~= (t + a).push(s.last()));
        assert(t + b =~= (t + a).push(s.last()));
        b
    } else {
        assert(s =~= s + Seq::<char>::empty());
        Seq::empty()
    }
}

/// Trimming cuts white space off at either end and nothing else, and leaves none
/// there.
pub proof fn law_trimmed(s: Seq<char>) -> (r: (Seq<char>, Seq<char>))
    ensures
        s == r.0 + trimmed(s) + r.1,
        forall|i: int| 0 <= i < r.0.len() ==> is_white_space(#[trigger] (r.0)[i]),
        forall|i: int| 0 <= i < r.1.len() ==> is_white_space(#[trigger] (r.1)[i]),
        trimmed(s).len() > 0 ==> !is_white_space(trimmed(s).first()) && !is_white_space(
            trimmed(s).last(),
        ),
{
    let a = lemma_trimmed_start(s);
    let t = trimmed_start(s);
    let b = lemma_trimmed_end(t);
    assert(s =~= a + trimmed(s) + b);
    if trimmed(s).len() > 0 {
        assert(trimmed(s).first() == t.first());
    }
    (a, b)
}

/// The pieces on both sides of a separator are those of each side.
pub proof fn lemma_split_both(x: Seq<char>, sep: char, y: Seq<char>)
    ensures
        split(x.push(sep) + y, sep) == split(x, sep) + split(y, sep),
    decreases y.len(),
{
    let whole = x.push(sep) + y;
    if y.len() == 0 {
        assert(whole =~= x.push(sep));
        assert(x.push(sep).drop_last() =~= x);
        assert(split(whole, sep) =~= split(x, sep) + split(y, sep));
    } else {
        let z = y.drop_last();
        lemma_split_both(x, sep, z);
        lemma_split_nonempty(z, sep);
        assert(whole.drop_last() =~= x.push(sep) + z);
        assert(split(whole, sep) =~= split(x, sep) + split(y, sep));
    }
}

/// Leaving empty pieces out works on each part of a list alone.
proof fn lemma_without_empty_both(p: Seq<Seq<char>>, q: Seq<Seq<char>>)
    ensures
        without_empty(p + q) == without_empty(p) + without_empty(q),
    decreases q.len(),
{
    if q.len() == 0 {
        assert(p + q =~= p);
        assert(without_empty(p) + without_empty(q) =~= without_empty(p));
    } else {
        lemma_without_empty_both(p, q.drop_last());
        assert((p + q).drop_last() =~= p + q.drop_last());
        assert(without_empty(p + q) =~= without_empty(p) + without_empty(q));
    }
}

/// White space parts words: the words of a text are those before it and those
/// behind it.
pub proof fn law_words_part(a: Seq<char>, c: char, b: Seq<char>)
    requires
        is_white_space(c),
    ensures
        words(a.push(c) + b) == words(a) + words(b),
{
    assert(spaced(a.push(c) + b) =~= spaced(a).push(' ') + spaced(b));
    lemma_split_both(spaced(a), ' ', spaced(b));
    lemma_without_empty_both(split(spaced(a), ' '), split(spaced(b), ' '));
}

/// A text without white space is one word, or none where it is empty.
pub proof fn law_word(w: Seq<char>)
    requires
        forall|i: int| 0 <= i < w.len() ==> !is_white_space(#[trigger] w[i]),
    ensures
        words(w) == (if w.len() == 0 {
            Seq::empty()
        } else {
            seq![w]
        }),
{
    assert(spaced(w) =~= w);
    assert(!w.contains(' ')) by {
        if w.contains(' ') {
            let i = choose|i: int| 0 <= i < w.len() && w[i] == ' ';
            assert(!is_white_space(w[i]));
        }
    }
    lemma_split_without(w, ' ');
    assert(seq![w].drop_last() =~= Seq::<Seq<char>>::empty());
    assert(seq![w].last() == w);
    reveal_with_fuel(without_empty, 2);
    assert(words(w) =~= (if w.len() == 0 {
        Seq::empty()
    } else {
        seq![w]
    }));
}

/// The digits below ten are the characters from 48 on, those above it the
/// letters of either case.
pub proof fn law_digit(c: char, radix: int, v: int)
    requires
        2 <= radix <= 36,
    ensures
        digit(c, radix) == Some(v) <==> 0 <= v < radix && (if v < 10 {
            c as int == 48 + v
        } else {
            c as int == 97 + (v - 10) || c as int == 65 + (v - 10)
        }),
        0 <= v < 36 ==> digit_char(v) as int == (if v < 10 {
            48 + v
        } else {
            97 + (v - 10)
        }),
{
}

/// A further digit makes a number the base times larger, and adds itself. What
/// is no digit makes it no number.
pub proof fn law_number_push(s: Seq<char>, c: char, radix: int)
    ensures
        number(Seq::empty(), radix) == Some(0int),
        number(s.push(c), radix) is Some <==> number(s, radix) is Some && digit(c, radix) is Some,
        number(s.push(c), radix) is Some ==> number(s.push(c), radix)->0 == number(s, radix)->0
            * radix + digit(c, radix)->0,
{
    assert(s.push(c).drop_last() =~= s);
}

/// A number is read from its digits, with or without a plus sign before them,
/// where it is not too large; there must be a digit.
pub proof fn law_unsigned(s: Seq<char>, radix: int, max: int)
    requires
        2 <= radix <= 36,
        s.len() > 0,
    ensures
        unsigned(Seq::empty(), radix, max) is None,
        unsigned(seq!['+'], radix, max) is None,
        number(s, radix) is Some && number(s, radix)->0 <= max ==> unsigned(s, radix, max) == number(
            s,
            radix,
        ) && unsigned(seq!['+'] + s, radix, max) == number(s, radix),
        number(s, radix) is Some && number(s, radix)->0 > max ==> unsigned(s, radix, max) is None
            && unsigned(seq!['+'] + s, radix, max) is None,
        number(s, radix) is None && s[0] != '+' ==> unsigned(s, radix, max) is None && unsigned(
            seq!['+'] + s,
            radix,
            max,
        ) is None,
{
    assert((seq!['+'] + s).skip(1) =~= s);
    assert(seq!['+'].skip(1) =~= Seq::<char>::empty());
    if s[0] == '+' {
        lemma_first_digit(s, radix);
    }
}

/// A number starts with a digit.
proof fn lemma_first_digit(s: Seq<char>, radix: int)
    requires
        s.len() > 0,
    ensures
        number(s, radix) is Some ==> digit(s[0], radix) is Some,
    decreases s.len(),
{
    if s.len() > 1 {
        lemma_first_digit(s.drop_last(), radix);
    }
}

/// A written integer is read as what it is, where it lies within the bounds.
pub proof fn law_signed(n: int, max: int)
    requires
        max >= 0,
    ensures
        signed(integer(n), max) == (if -max - 1 <= n <= max {
            Some(n)
        } else {
            None
        }),
{
    let m = if n < 0 {
        -n
    } else {
        n
    };
    law_number_digits(m, 10);
    let d = decimal(m);
    assert(digit(d[0], 10) is Some);
    if n < 0 {
        assert(integer(n).skip(1) =~= d);
    }
}

/// A written integer is its decimal digits, behind a minus sign where it is
/// negative.
pub proof fn law_integer(n: int)
    ensures
        n >= 0 ==> number(integer(n), 10) == Some(n),
        n < 0 ==> integer(n).len() > 1 && integer(n)[0] == '-' && number(integer(n).skip(1), 10)
            == Some(-n),
{
    if n < 0 {
        law_number_digits(-n, 10);
        assert(integer(n).skip(1) =~= decimal(-n));
    } else {
        law_number_digits(n, 10);
    }
}

/// A text that is aligned has the text at one end and spaces at the other, and
/// is as wide as asked for where the text is not wider.
pub proof fn law_aligned(s: Seq<char>, width: int)
    ensures
        left_aligned(s, width).len() == right_aligned(s, width).len() == (if s.len() < width {
            width
        } else {
            s.len() as int
        }),
        left_aligned(s, width).take(s.len() as int) == s,
        forall|i: int|
            s.len() <= i < left_aligned(s, width).len() ==> #[trigger] left_aligned(s, width)[i]
                == ' ',
        right_aligned(s, width).skip(right_aligned(s, width).len() - s.len()) == s,
        forall|i: int|
            0 <= i < right_aligned(s, width).len() - s.len() ==> #[trigger] right_aligned(
                s,
                width,
            )[i] == ' ',
{
    assert(left_aligned(s, width).take(s.len() as int) =~= s);
    assert(right_aligned(s, width).skip(right_aligned(s, width).len() - s.len()) =~= s);
}

/// The digits of a number are the only way to write it without needless zeros.
pub proof fn law_digits_only(s: Seq<char>)
    requires
        number(s, 10) is Some,
        s.len() >= 1,
        s.len() > 1 ==> s[0] != '0',
    ensures
        decimal(number(s, 10)->0) == s,
        s.len() > 1 ==> number(s, 10)->0 >= 10,
        s[0] != '0' ==> number(s, 10)->0 >= 1,
    decreases s.len(),
{
    let b = s.drop_last();
    let d = digit(s.last(), 10)->0;
    let v = number(s, 10)->0;
    if s.len() == 1 {
        assert(b =~= Seq::<char>::empty());
        assert(decimal(v) =~= s);
    } else {
        law_digits_only(b);
        let w = number(b, 10)->0;
        assert(v == w * 10 + d);
        assert(v / 10 == w && v % 10 == d);
        assert(decimal(v) =~= decimal(w).push(digit_char(d)));
        assert(b.push(s.last()) =~= s);
    }
}

/// A number holds nothing but digits.
pub proof fn lemma_number_chars(s: Seq<char>, radix: int, i: int)
    requires
        2 <= radix,
        number(s, radix) is Some,
        0 <= i < s.len(),
    ensures
        digit(s[i], radix) is Some,
{
    lemma_number_grows(s, radix, i + 1);
    assert(s.take(i + 1).last() == s[i]);
}

/// A number does not hold a character that is no digit.
pub proof fn lemma_number_lacks(s: Seq<char>, radix: int, c: char)
    requires
        2 <= radix,
        number(s, radix) is Some,
        digit(c, radix) is None,
    ensures
        !s.contains(c),
{
    if s.contains(c) {
        let i = choose|i: int| 0 <= i < s.len() && s[i] == c;
        lemma_number_chars(s, radix, i);
    }
}

/// A text that is joined from pieces starts as the first of them does, ends as
/// the last does, and has the separator in it where there are several.
pub proof fn lemma_join_ends(p: Seq<Seq<char>>, sep: char)
    requires
        p.len() > 0,
        forall|i: int| 0 <= i < p.len() ==> (#[trigger] p[i]).len() > 0,
    ensures
        join(p, sep).len() > 0,
        join(p, sep).first() == p[0].first(),
        join(p, sep).last() == p.last().last(),
        p.len() > 1 ==> join(p, sep).contains(sep),
        forall|c: char|
            c != sep && (forall|i: int| 0 <= i < p.len() ==> !(#[trigger] p[i]).contains(c))
                ==> !(#[trigger] join(p, sep).contains(c)),
    decreases p.len(),
{
    let s = join(p, sep);
    if p.len() > 1 {
        let q = p.drop_last();
        assert forall|i: int| 0 <= i < q.len() implies (#[trigger] q[i]).len() > 0 by {
            assert(q[i] == p[i]);
        }
        lemma_join_ends(q, sep);
        let h = join(q, sep);
        assert(s == h.push(sep) + p.last());
        assert(s[h.len() as int] == sep);
        assert(p.last() == p[p.len() - 1]);
        assert(s.first() == h.first());
        assert forall|c: char|
            c != sep && (forall|i: int| 0 <= i < p.len() ==> !(#[trigger] p[i]).contains(c)) implies !(
        #[trigger] s.contains(c)) by {
            assert forall|i: int| 0 <= i < q.len() implies !(#[trigger] q[i]).contains(c) by {
                assert(q[i] == p[i]);
            }
            assert(!h.contains(c));
            if s.contains(c) {
                let i = choose|i: int| 0 <= i < s.len() && s[i] == c;
                if i < h.len() {
                    assert(h[i] == c);
                } else if i > h.len() {
                    assert(p.last()[i - h.len() - 1] == c);
                }
            }
        }
    }
}

} // verus!
