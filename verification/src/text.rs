//! Reading and writing plain text: words, numbers, and pieces of messages.

use vstd::prelude::*;
use vstd::string::StringExecFns;

verus! {

/// `String::push` appends one character. Trusted: the standard library documents
/// it so, and its source is not read here.
pub assume_specification[ String::push ](s: &mut String, c: char)
    ensures
        final(s)@ == old(s)@.push(c),
;

/// The formatter that `{:?}` hands to a value.
#[verifier::external_type_specification]
#[verifier::external_body]
pub struct ExFormatter<'a>(core::fmt::Formatter<'a>);

/// The error of a formatter whose text could not be taken.
#[verifier::external_type_specification]
#[verifier::external_body]
pub struct ExFormatError(core::fmt::Error);

/// `Formatter::write_str` hands a text on to whatever the formatter writes to.
/// Trusted to be callable with any text. What becomes of the text, and whether
/// it is taken, is up to that writer, so nothing is said of either.
pub assume_specification<'a>[ core::fmt::Formatter::<'a>::write_str ](
    f: &mut core::fmt::Formatter<'a>,
    data: &str,
) -> (r: Result<(), core::fmt::Error>);

// ---------------------------------------------------------------------------
// Characters.
// ---------------------------------------------------------------------------

/// The characters of a string.
pub fn chars_of(s: &str) -> (r: Vec<char>)
    ensures
        r@ == s@,
{
    let mut r: Vec<char> = Vec::new();
    for c in it: s.chars()
        invariant
            it.seq() == s@,
            r@ == s@.take(it.index() as int),
    {
        r.push(c);
        assert(r@ =~= s@.take(it.index() + 1));
    }
    assert(r@ =~= s@);
    r
}

/// Append characters to a string.
pub fn push_chars(s: &mut String, chars: &[char])
    ensures
        final(s)@ == old(s)@ + chars@,
{
    let mut i: usize = 0;
    while i < chars.len()
        invariant
            i <= chars@.len(),
            s@ == old(s)@ + chars@.take(i as int),
        decreases chars@.len() - i,
    {
        s.push(chars[i]);
        i = i + 1;
        assert(s@ =~= old(s)@ + chars@.take(i as int));
    }
    assert(s@ =~= old(s)@ + chars@);
}

/// Append a string to a string.
pub fn push_text(s: &mut String, text: &str)
    ensures
        final(s)@ == old(s)@ + text@,
{
    s.append(text);
}

/// Are the characters those of `text`?
pub fn equals(chars: &[char], text: &str) -> (r: bool)
    ensures
        r == (chars@ == text@),
{
    let other: Vec<char> = chars_of(text);
    if chars.len() != other.len() {
        return false;
    }
    let mut i: usize = 0;
    while i < chars.len()
        invariant
            i <= chars@.len(),
            chars@.len() == other@.len(),
            other@ == text@,
            forall|j: int| 0 <= j < i ==> chars@[j] == other@[j],
        decreases chars@.len() - i,
    {
        if chars[i] != other[i] {
            return false;
        }
        i = i + 1;
    }
    assert(chars@ =~= text@);
    true
}

/// The characters with the Unicode property `White_Space`.
pub open spec fn is_whitespace_spec(c: char) -> bool {
    ||| '\u{9}' <= c <= '\u{d}'
    ||| c == '\u{20}'
    ||| c == '\u{85}'
    ||| c == '\u{a0}'
    ||| c == '\u{1680}'
    ||| '\u{2000}' <= c <= '\u{200a}'
    ||| c == '\u{2028}'
    ||| c == '\u{2029}'
    ||| c == '\u{202f}'
    ||| c == '\u{205f}'
    ||| c == '\u{3000}'
}

/// Is `c` white space?
#[verifier::when_used_as_spec(is_whitespace_spec)]
pub fn is_whitespace(c: char) -> (r: bool)
    ensures
        r == is_whitespace_spec(c),
{
    ('\u{9}' <= c && c <= '\u{d}') || c == '\u{20}' || c == '\u{85}' || c == '\u{a0}' || c
        == '\u{1680}' || ('\u{2000}' <= c && c <= '\u{200a}') || c == '\u{2028}' || c == '\u{2029}'
        || c == '\u{202f}' || c == '\u{205f}' || c == '\u{3000}'
}

// ---------------------------------------------------------------------------
// Words.
// ---------------------------------------------------------------------------

/// The first index from `i` on that is no white space.
pub open spec fn word_start(s: Seq<char>, i: int) -> int
    decreases s.len() - i,
{
    if 0 <= i < s.len() && is_whitespace(s[i]) {
        word_start(s, i + 1)
    } else {
        i
    }
}

/// The first index from `i` on that is white space, or the end.
pub open spec fn word_end(s: Seq<char>, i: int) -> int
    decreases s.len() - i,
{
    if 0 <= i < s.len() && !is_whitespace(s[i]) {
        word_end(s, i + 1)
    } else {
        i
    }
}

/// The words (runs of characters other than white space) from index `i` on.
pub open spec fn words_from(s: Seq<char>, i: int) -> Seq<Seq<char>>
    decreases s.len() - i,
    via words_from_decreases
{
    let a = word_start(s, i);
    let b = word_end(s, a);
    if 0 <= i <= a < s.len() {
        seq![s.subrange(a, b)] + words_from(s, b)
    } else {
        Seq::empty()
    }
}

#[via_fn]
proof fn words_from_decreases(s: Seq<char>, i: int) {
    if 0 <= i < s.len() {
        lemma_word_bounds(s, i);
    }
}

/// The words of a text.
pub open spec fn words(s: Seq<char>) -> Seq<Seq<char>> {
    words_from(s, 0)
}

/// The bounds of the next word.
pub proof fn lemma_word_bounds(s: Seq<char>, i: int)
    requires
        0 <= i <= s.len(),
    ensures
        i <= word_start(s, i) <= s.len(),
        word_start(s, i) < s.len() ==> !is_whitespace(s[word_start(s, i)]) && word_start(s, i)
            < word_end(s, word_start(s, i)) <= s.len(),
{
    lemma_word_start(s, i);
    if word_start(s, i) < s.len() {
        lemma_word_end(s, word_start(s, i) + 1);
    }
}

proof fn lemma_word_start(s: Seq<char>, i: int)
    requires
        0 <= i <= s.len(),
    ensures
        i <= word_start(s, i) <= s.len(),
        word_start(s, i) < s.len() ==> !is_whitespace(s[word_start(s, i)]),
    decreases s.len() - i,
{
    if i < s.len() && is_whitespace(s[i]) {
        lemma_word_start(s, i + 1);
    }
}

proof fn lemma_word_end(s: Seq<char>, i: int)
    requires
        0 <= i <= s.len(),
    ensures
        i <= word_end(s, i) <= s.len(),
    decreases s.len() - i,
{
    if i < s.len() && !is_whitespace(s[i]) {
        lemma_word_end(s, i + 1);
    }
}

/// A word without white space, followed by white space or the end, is read whole.
pub proof fn lemma_word_end_at(s: Seq<char>, i: int, n: int)
    requires
        0 <= i <= n <= s.len(),
        forall|j: int| i <= j < n ==> !is_whitespace(#[trigger] s[j]),
        n == s.len() || is_whitespace(s[n]),
    ensures
        word_end(s, i) == n,
    decreases n - i,
{
    if i < n {
        lemma_word_end_at(s, i + 1, n);
    }
}

/// The words of a list, joined by single spaces.
pub open spec fn joined(list: Seq<Seq<char>>) -> Seq<char>
    decreases list.len(),
{
    if list.len() == 0 {
        Seq::empty()
    } else if list.len() == 1 {
        list[0]
    } else {
        list[0] + seq![' '] + joined(list.drop_first())
    }
}

/// Writing the first of several words to be joined.
pub proof fn lemma_join_step(s: Seq<char>, list: Seq<Seq<char>>)
    requires
        list.len() >= 2,
    ensures
        s + joined(list) == (s + list[0]).push(' ') + joined(list.drop_first()),
{
    assert(s + joined(list) =~= (s + list[0]).push(' ') + joined(list.drop_first()));
}

/// A word: some characters, none of them white space.
pub open spec fn is_word(w: Seq<char>) -> bool {
    w.len() > 0 && forall|j: int| 0 <= j < w.len() ==> !is_whitespace(#[trigger] w[j])
}

/// Splitting inverts joining.
pub proof fn law_words_of_joined(prefix: Seq<char>, list: Seq<Seq<char>>)
    requires
        forall|k: int| 0 <= k < list.len() ==> is_word(#[trigger] list[k]),
    ensures
        words_from(prefix + joined(list), prefix.len() as int) == list,
    decreases list.len(),
{
    let s = prefix + joined(list);
    let n = prefix.len() as int;
    if list.len() == 0 {
        assert(words_from(s, n) =~= list);
    } else {
        let w = list[0];
        let rest = list.drop_first();
        assert(is_word(w));
        assert(s.subrange(n, n + w.len()) =~= w);
        assert forall|j: int| n <= j < n + w.len() implies !is_whitespace(#[trigger] s[j]) by {
            assert(s[j] == w[j - n]);
        }
        lemma_word_end_at(s, n, n + w.len());
        assert(s[n] == w[0]);
        assert(word_start(s, n) == n);
        if list.len() == 1 {
            assert(words_from(s, n + w.len()) =~= Seq::<Seq<char>>::empty());
            assert(words_from(s, n) =~= list);
        } else {
            let longer = prefix + w + seq![' '];
            assert(s =~= longer + joined(rest));
            assert forall|k: int| 0 <= k < rest.len() implies is_word(#[trigger] rest[k]) by {
                assert(rest[k] == list[k + 1]);
            }
            law_words_of_joined(longer, rest);
            let m = n + w.len();
            assert(s[m] == ' ');
            let next = rest[0];
            assert(is_word(next));
            assert(s[m + 1] == next[0]) by {
                assert(joined(rest)[0] == next[0]);
            }
            assert(word_start(s, m + 1) == m + 1);
            assert(word_start(s, m) == m + 1);
            lemma_word_bounds(s, m + 1);
            assert(words_from(s, m) == words_from(s, m + 1));
            assert(words_from(s, n) =~= seq![w] + words_from(s, m));
            assert(words_from(s, n) =~= list);
        }
    }
}

/// Split a text into its words.
pub fn split_whitespace(s: &[char]) -> (r: Vec<Vec<char>>)
    ensures
        r@.len() == words(s@).len(),
        forall|k: int| 0 <= k < r@.len() ==> (#[trigger] r@[k])@ == words(s@)[k],
{
    let mut r: Vec<Vec<char>> = Vec::new();
    let mut i: usize = 0;
    proof {
        assert(Seq::<Seq<char>>::empty() + words_from(s@, 0) =~= words(s@));
    }
    let ghost mut done: Seq<Seq<char>> = Seq::empty();
    while i < s.len()
        invariant
            i <= s@.len(),
            done.len() == r@.len(),
            forall|k: int| 0 <= k < r@.len() ==> (#[trigger] r@[k])@ == done[k],
            done + words_from(s@, i as int) == words(s@),
        decreases s@.len() - i,
    {
        if is_whitespace(s[i]) {
            proof {
                lemma_word_bounds(s@, i as int);
                lemma_word_bounds(s@, i + 1);
                assert(words_from(s@, i as int) == words_from(s@, i + 1));
            }
            i = i + 1;
        } else {
            let start: usize = i;
            let mut word: Vec<char> = Vec::new();
            proof {
                lemma_word_bounds(s@, start as int);
            }
            while i < s.len() && !is_whitespace(s[i])
                invariant
                    start <= i <= s@.len(),
                    word@ == s@.subrange(start as int, i as int),
                    word_end(s@, start as int) == word_end(s@, i as int),
                decreases s@.len() - i,
            {
                word.push(s[i]);
                i = i + 1;
                assert(word@ =~= s@.subrange(start as int, i as int));
            }
            proof {
                assert(words_from(s@, start as int) == seq![word@] + words_from(s@, i as int));
                assert(done + words_from(s@, start as int) =~= done.push(word@) + words_from(
                    s@,
                    i as int,
                ));
                done = done.push(word@);
            }
            r.push(word);
        }
    }
    proof {
        assert(words_from(s@, i as int) =~= Seq::<Seq<char>>::empty());
        assert(done =~= words(s@));
    }
    r
}

// ---------------------------------------------------------------------------
// Decimal numbers.
// ---------------------------------------------------------------------------

/// The digit `n`, for `n` below 10.
pub open spec fn digit_spec(n: int) -> char {
    (48 + n) as char
}

/// The digit `n`.
pub fn digit(n: u8) -> (r: char)
    requires
        n < 10,
    ensures
        r == digit_spec(n as int),
{
    (48 + n) as char
}

/// A decimal digit.
pub open spec fn is_digit(c: char) -> bool {
    '0' <= c <= '9'
}

/// The decimal notation of `n`, without leading zeros.
pub open spec fn decimal(n: nat) -> Seq<char>
    decreases n,
{
    if n < 10 {
        seq![digit_spec(n as int)]
    } else {
        decimal(n / 10).push(digit_spec((n % 10) as int))
    }
}

/// The number that digits denote.
pub open spec fn value(digits: Seq<char>) -> nat
    decreases digits.len(),
{
    if digits.len() == 0 {
        0
    } else {
        value(digits.drop_last()) * 10 + ((digits.last() as int) - 48) as nat
    }
}

/// One or more digits and nothing else.
pub open spec fn is_number(s: Seq<char>) -> bool {
    s.len() > 0 && forall|i: int| 0 <= i < s.len() ==> is_digit(#[trigger] s[i])
}

/// Reading inverts writing.
pub proof fn law_value_of_decimal(n: nat)
    ensures
        is_number(decimal(n)),
        value(decimal(n)) == n,
    decreases n,
{
    reveal_with_fuel(value, 2);
    if n >= 10 {
        law_value_of_decimal(n / 10);
        assert(decimal(n).drop_last() =~= decimal(n / 10));
    } else {
        assert(decimal(n).drop_last() =~= Seq::<char>::empty());
    }
}

/// Append the decimal notation of `n` to a string.
pub fn push_decimal(s: &mut String, n: u64)
    ensures
        final(s)@ == old(s)@ + decimal(n as nat),
    decreases n,
{
    if n >= 10 {
        push_decimal(s, n / 10);
    }
    s.push(digit((n % 10) as u8));
    assert(s@ =~= old(s)@ + decimal(n as nat));
}

/// The digits of an unsigned number that may be written with a plus sign.
pub open spec fn unsigned(s: Seq<char>) -> Seq<char> {
    if s.len() > 0 && s[0] == '+' {
        s.drop_first()
    } else {
        s
    }
}

/// The number below 2^16 that a text denotes, if it denotes one.
pub open spec fn u16_value(s: Seq<char>) -> Option<u16> {
    if is_number(unsigned(s)) && value(unsigned(s)) <= u16::MAX {
        Some(value(unsigned(s)) as u16)
    } else {
        None
    }
}

/// More digits never denote a smaller number.
proof fn lemma_value_monotonic(s: Seq<char>, n: int)
    requires
        0 <= n <= s.len(),
    ensures
        value(s.take(n)) <= value(s),
    decreases s.len() - n,
{
    if n < s.len() {
        lemma_value_monotonic(s, n + 1);
        assert(s.take(n + 1).drop_last() =~= s.take(n));
    } else {
        assert(s.take(n) =~= s);
    }
}

/// Read a number below 2^16: digits, with an optional plus sign in front.
pub fn parse_u16(s: &[char]) -> (r: Option<u16>)
    ensures
        r == u16_value(s@),
{
    let ghost d = unsigned(s@);
    let start: usize = if s.len() > 0 && s[0] == '+' {
        1
    } else {
        0
    };
    if s.len() == start {
        return None;
    }
    let mut total: u32 = 0;
    let mut i: usize = start;
    proof {
        assert(d.take(0) =~= Seq::<char>::empty());
    }
    while i < s.len()
        invariant
            start <= i <= s@.len(),
            d == unsigned(s@),
            start == (if s@.len() > 0 && s@[0] == '+' {
                1int
            } else {
                0int
            }),
            d.len() == s@.len() - start,
            forall|j: int| 0 <= j < d.len() ==> d[j] == s@[j + start],
            forall|j: int| 0 <= j < i - start ==> is_digit(#[trigger] d[j]),
            total == value(d.take(i - start)),
            total <= u16::MAX,
        decreases s@.len() - i,
    {
        let c: char = s[i];
        proof {
            assert(d[i - start] == c);
        }
        if !('0' <= c && c <= '9') {
            return None;
        }
        total = total * 10 + (c as u32 - 48);
        proof {
            assert(d.take(i - start + 1).drop_last() =~= d.take(i - start));
            lemma_value_monotonic(d, i - start + 1);
        }
        i = i + 1;
        if total > 65535 {
            return None;
        }
    }
    proof {
        assert(d.take(i - start) =~= d);
    }
    Some(total as u16)
}

// ---------------------------------------------------------------------------
// Hexadecimal numbers.
// ---------------------------------------------------------------------------

/// The hexadecimal digit of a number below 16, in lower case.
pub open spec fn hex_digit_spec(n: int) -> char {
    if n < 10 {
        digit_spec(n)
    } else if n == 10 {
        'a'
    } else if n == 11 {
        'b'
    } else if n == 12 {
        'c'
    } else if n == 13 {
        'd'
    } else if n == 14 {
        'e'
    } else {
        'f'
    }
}

/// The hexadecimal digit of a number below 16, in lower case.
fn hex_digit(n: u8) -> (r: char)
    requires
        n < 16,
    ensures
        r == hex_digit_spec(n as int),
{
    if n < 10 {
        digit(n)
    } else {
        match n {
            10 => 'a',
            11 => 'b',
            12 => 'c',
            13 => 'd',
            14 => 'e',
            _ => 'f',
        }
    }
}

/// The last `width` hexadecimal digits of `n`, with leading zeros.
pub open spec fn hexadecimal(n: nat, width: nat) -> Seq<char>
    decreases width,
{
    if width == 0 {
        Seq::empty()
    } else {
        hexadecimal(n / 16, (width - 1) as nat).push(hex_digit_spec((n % 16) as int))
    }
}

/// Append the last `width` hexadecimal digits of `n` to a string.
pub fn push_hexadecimal(s: &mut String, n: u64, width: u8)
    ensures
        final(s)@ == old(s)@ + hexadecimal(n as nat, width as nat),
    decreases width,
{
    if width > 0 {
        push_hexadecimal(s, n / 16, width - 1);
        s.push(hex_digit((n % 16) as u8));
    }
    assert(s@ =~= old(s)@ + hexadecimal(n as nat, width as nat));
}

// ---------------------------------------------------------------------------
// Board diagrams.
// ---------------------------------------------------------------------------

/// The first `n` cells of a rank of a diagram, each followed by a space.
pub open spec fn diagram_cells(cells: Seq<char>, rank: int, n: int) -> Seq<char>
    decreases n,
{
    if n <= 0 {
        Seq::empty()
    } else {
        diagram_cells(cells, rank, n - 1).push(cells[rank * 8 + n - 1]).push(' ')
    }
}

/// One rank of a diagram.
pub open spec fn diagram_rank(cells: Seq<char>, rank: int) -> Seq<char> {
    seq![digit_spec(rank + 1)] + " | "@ + diagram_cells(cells, rank, 8) + "|\n"@
}

/// The lowest `n` ranks of a diagram, highest first.
pub open spec fn diagram_ranks(cells: Seq<char>, n: int) -> Seq<char>
    decreases n,
{
    if n <= 0 {
        Seq::empty()
    } else {
        diagram_rank(cells, n - 1) + diagram_ranks(cells, n - 1)
    }
}

/// An 8x8 grid of cells with rank 8 on top, framed and labelled.
pub open spec fn diagram(cells: Seq<char>) -> Seq<char> {
    "  +-----------------+\n"@ + diagram_ranks(cells, 8) + "  +-----------------+\n"@
        + "    a b c d e f g h"@
}

/// Draw a board diagram.
pub fn draw(cells: &[char]) -> (r: String)
    requires
        cells@.len() == 64,
    ensures
        r@ == diagram(cells@),
{
    let mut r: String = String::new();
    push_text(&mut r, "  +-----------------+\n");
    let ghost frame = r@;
    let mut rank: usize = 8;
    proof {
        assert(frame =~= "  +-----------------+\n"@);
        assert(frame + diagram_ranks(cells@, 8) =~= r@ + diagram_ranks(cells@, 8));
    }
    while rank > 0
        invariant
            rank <= 8,
            cells@.len() == 64,
            frame + diagram_ranks(cells@, 8) == r@ + diagram_ranks(cells@, rank as int),
        decreases rank,
    {
        let ghost before = r@;
        r.push(digit(rank as u8));
        push_text(&mut r, " | ");
        let mut file: usize = 0;
        let ghost start = r@;
        while file < 8
            invariant
                file <= 8,
                1 <= rank <= 8,
                cells@.len() == 64,
                r@ == start + diagram_cells(cells@, rank - 1, file as int),
            decreases 8 - file,
        {
            r.push(cells[(rank - 1) * 8 + file]);
            r.push(' ');
            file = file + 1;
            assert(r@ =~= start + diagram_cells(cells@, rank - 1, file as int));
        }
        push_text(&mut r, "|\n");
        proof {
            assert(r@ =~= before + diagram_rank(cells@, rank - 1));
            assert(before + diagram_ranks(cells@, rank as int) =~= r@ + diagram_ranks(
                cells@,
                rank - 1,
            ));
        }
        rank = rank - 1;
    }
    push_text(&mut r, "  +-----------------+\n");
    push_text(&mut r, "    a b c d e f g h");
    proof {
        assert(r@ =~= diagram(cells@));
    }
    r
}

// ---------------------------------------------------------------------------
// What is read and written.
// ---------------------------------------------------------------------------

/// The notation of a number ends in its last decimal digit, after the notation of
/// what is left without it.
pub proof fn law_decimal_digits(n: nat)
    ensures
        n < 10 ==> decimal(n).len() == 1,
        n >= 10 ==> decimal(n).drop_last() == decimal(n / 10),
        decimal(n).len() > 0,
        decimal(n).last() as int == '0' as int + n % 10,
{
    if n >= 10 {
        assert(decimal(n).drop_last() =~= decimal(n / 10));
    }
}

/// Where the words are found, from index `i` on.
proof fn lemma_words_found(s: Seq<char>, i: int) -> (at: Seq<(int, int)>)
    requires
        0 <= i <= s.len(),
        i == 0 || i == s.len() || is_whitespace(s[i]),
    ensures
        at.len() == words_from(s, i).len(),
        forall|k: int|
            #![trigger at[k]]
            0 <= k < at.len() ==> {
                &&& i <= at[k].0 < at[k].1 <= s.len()
                &&& words_from(s, i)[k] == s.subrange(at[k].0, at[k].1)
                &&& at[k].1 == s.len() || is_whitespace(s[at[k].1])
                &&& at[k].0 == 0 || is_whitespace(s[at[k].0 - 1])
                &&& forall|j: int| at[k].0 <= j < at[k].1 ==> !is_whitespace(#[trigger] s[j])
            },
        forall|k: int, l: int|
            #![trigger at[k], at[l]]
            0 <= k < l < at.len() ==> at[k].1 < at[l].0,
        forall|j: int|
            i <= j < s.len() && !is_whitespace(#[trigger] s[j]) ==> exists|k: int|
                0 <= k < at.len() && (#[trigger] at[k]).0 <= j < at[k].1,
    decreases s.len() - i,
{
    lemma_word_bounds(s, i);
    let a = word_start(s, i);
    lemma_blank_before(s, i);
    if a < s.len() {
        let b = word_end(s, a);
        lemma_solid_before(s, a);
        let rest = lemma_words_found(s, b);
        let at = seq![(a, b)] + rest;
        let found = words_from(s, i);
        assert(found == seq![s.subrange(a, b)] + words_from(s, b));
        assert forall|k: int| #![trigger at[k]] 0 <= k < at.len() implies {
            &&& i <= at[k].0 < at[k].1 <= s.len()
            &&& found[k] == s.subrange(at[k].0, at[k].1)
            &&& at[k].1 == s.len() || is_whitespace(s[at[k].1])
            &&& at[k].0 == 0 || is_whitespace(s[at[k].0 - 1])
            &&& forall|j: int| at[k].0 <= j < at[k].1 ==> !is_whitespace(#[trigger] s[j])
        } by {
            if k > 0 {
                assert(at[k] == rest[k - 1]);
                assert(found[k] == words_from(s, b)[k - 1]);
            }
        }
        assert forall|k: int, l: int|
            #![trigger at[k], at[l]]
            0 <= k < l < at.len() implies at[k].1 < at[l].0 by {
            assert(at[l] == rest[l - 1]);
            if k > 0 {
                assert(at[k] == rest[k - 1]);
            } else {
                assert(b <= rest[l - 1].0);
                assert(!is_whitespace(s[rest[l - 1].0]));
            }
        }
        assert forall|j: int|
            i <= j < s.len() && !is_whitespace(#[trigger] s[j]) implies exists|k: int|
            0 <= k < at.len() && (#[trigger] at[k]).0 <= j < at[k].1 by {
            if j < b {
                assert(at[0] == (a, b));
            } else {
                let k = choose|k: int| 0 <= k < rest.len() && (#[trigger] rest[k]).0 <= j < rest[k].1;
                assert(at[k + 1] == rest[k]);
            }
        }
        at
    } else {
        Seq::empty()
    }
}

/// Everything before the next word is white space.
proof fn lemma_blank_before(s: Seq<char>, i: int)
    requires
        0 <= i <= s.len(),
    ensures
        i <= word_start(s, i) <= s.len(),
        forall|j: int| i <= j < word_start(s, i) ==> is_whitespace(#[trigger] s[j]),
    decreases s.len() - i,
{
    if i < s.len() && is_whitespace(s[i]) {
        lemma_blank_before(s, i + 1);
    }
}

/// Nothing before the end of a word is white space.
proof fn lemma_solid_before(s: Seq<char>, i: int)
    requires
        0 <= i <= s.len(),
    ensures
        i <= word_end(s, i) <= s.len(),
        forall|j: int| i <= j < word_end(s, i) ==> !is_whitespace(#[trigger] s[j]),
        word_end(s, i) == s.len() || is_whitespace(s[word_end(s, i)]),
    decreases s.len() - i,
{
    if i < s.len() && !is_whitespace(s[i]) {
        lemma_solid_before(s, i + 1);
    }
}

/// The words of a text are its longest stretches without white space, in order, and
/// all of them.
pub proof fn law_words(s: Seq<char>) -> (at: Seq<(int, int)>)
    ensures
        at.len() == words(s).len(),
        forall|k: int|
            #![trigger at[k]]
            0 <= k < at.len() ==> {
                &&& 0 <= at[k].0 < at[k].1 <= s.len()
                &&& words(s)[k] == s.subrange(at[k].0, at[k].1)
                &&& at[k].1 == s.len() || is_whitespace(s[at[k].1])
                &&& at[k].0 == 0 || is_whitespace(s[at[k].0 - 1])
                &&& forall|j: int| at[k].0 <= j < at[k].1 ==> !is_whitespace(#[trigger] s[j])
            },
        forall|k: int, l: int|
            #![trigger at[k], at[l]]
            0 <= k < l < at.len() ==> at[k].1 < at[l].0,
        forall|j: int|
            0 <= j < s.len() && !is_whitespace(#[trigger] s[j]) ==> exists|k: int|
                0 <= k < at.len() && (#[trigger] at[k]).0 <= j < at[k].1,
{
    lemma_words_found(s, 0)
}

proof fn lemma_diagram_cells(cells: Seq<char>, rank: int, n: int)
    requires
        0 <= n <= 8,
    ensures
        diagram_cells(cells, rank, n).len() == 2 * n,
        forall|f: int|
            0 <= f < n ==> diagram_cells(cells, rank, n)[#[trigger] (2 * f)] == cells[rank * 8 + f],
    decreases n,
{
    if n > 0 {
        lemma_diagram_cells(cells, rank, n - 1);
    }
}

proof fn lemma_diagram_ranks(cells: Seq<char>, n: int, rank: int, f: int)
    requires
        0 <= rank < n <= 8,
        0 <= f < 8,
    ensures
        diagram_ranks(cells, n).len() == 22 * n,
        diagram_ranks(cells, n)[(n - 1 - rank) * 22 + 4 + 2 * f] == cells[rank * 8 + f],
        diagram_ranks(cells, n)[(n - 1 - rank) * 22] as int == '1' as int + rank,
    decreases n,
{
    reveal_strlit(" | ");
    reveal_strlit("|\n");
    lemma_diagram_cells(cells, n - 1, 8);
    let line = diagram_rank(cells, n - 1);
    assert(line.len() == 22);
    let rest = diagram_ranks(cells, n - 1);
    assert(diagram_ranks(cells, n) == line + rest);
    if n > 1 {
        lemma_diagram_ranks(cells, n - 1, if rank < n - 1 { rank } else { 0 }, f);
    }
    if rank == n - 1 {
        assert(line[4 + 2 * f] == diagram_cells(cells, n - 1, 8)[2 * f]);
        assert(line[0] == digit_spec(n));
    }
}

/// In a diagram of 22 characters to a line, the eight ranks stand below the frame,
/// the eighth on top, each after its number, and the files go from left to right.
pub proof fn law_diagram_cells(cells: Seq<char>, file: int, rank: int)
    requires
        0 <= file < 8,
        0 <= rank < 8,
    ensures
        diagram(cells)[(8 - rank) * 22 + 4 + 2 * file] == cells[rank * 8 + file],
        diagram(cells)[(8 - rank) * 22] as int == '1' as int + rank,
        diagram(cells).len() == 239,
{
    reveal_strlit("  +-----------------+\n");
    reveal_strlit("    a b c d e f g h");
    lemma_diagram_ranks(cells, 8, rank, file);
    let at = (7 - rank) * 22;
    let body = diagram_ranks(cells, 8);
    let frame = "  +-----------------+\n"@;
    assert(frame.len() == 22);
    assert(diagram(cells)[22 + at + 4 + 2 * file] == body[at + 4 + 2 * file]);
    assert(diagram(cells)[22 + at] == body[at]);
}

} // verus!
