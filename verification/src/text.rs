//! Words, substrings and decimal numbers in text.
use vstd::prelude::*;

verus! {

/// The characters with the Unicode property `White_Space`.
pub open spec fn is_white_space(c: char) -> bool {
    ||| 0x9 <= c as u32 <= 0xD
    ||| c as u32 == 0x20
    ||| c as u32 == 0x85
    ||| c as u32 == 0xA0
    ||| c as u32 == 0x1680
    ||| 0x2000 <= c as u32 <= 0x200A
    ||| c as u32 == 0x2028
    ||| c as u32 == 0x2029
    ||| c as u32 == 0x202F
    ||| c as u32 == 0x205F
    ||| c as u32 == 0x3000
}

/// Whether the character is white space.
fn white_space(c: char) -> (result: bool)
    ensures
        result == is_white_space(c),
{
    let code: u32 = c as u32;
    0x9 <= code && code <= 0xD || code == 0x20 || code == 0x85 || code == 0xA0 || code == 0x1680
        || 0x2000 <= code && code <= 0x200A || code == 0x2028 || code == 0x2029 || code == 0x202F
        || code == 0x205F || code == 0x3000
}

/// The first place from `from` on that does not hold white space.
pub open spec fn word_start(s: Seq<char>, from: int) -> int
    decreases s.len() - from,
{
    if from >= s.len() {
        s.len() as int
    } else if is_white_space(s[from]) {
        word_start(s, from + 1)
    } else {
        from
    }
}

/// The first place from `from` on that holds white space.
pub open spec fn word_end(s: Seq<char>, from: int) -> int
    decreases s.len() - from,
{
    if from >= s.len() {
        s.len() as int
    } else if is_white_space(s[from]) {
        from
    } else {
        word_end(s, from + 1)
    }
}

/// The words of `s` from place `from` on: the longest runs without white space.
pub open spec fn words(s: Seq<char>, from: int) -> Seq<Seq<char>>
    decreases s.len() - from,
        when 0 <= from <= s.len()
{
    proof {
        lemma_word_bounds(s, from);
        lemma_word_bounds(s, word_start(s, from));
    }
    let start = word_start(s, from);
    let end = word_end(s, start);
    if start >= s.len() {
        Seq::empty()
    } else {
        seq![s.subrange(start, end)] + words(s, end)
    }
}

/// A word starts and ends within the text.
pub proof fn lemma_word_bounds(s: Seq<char>, from: int)
    requires
        0 <= from <= s.len(),
    ensures
        from <= word_start(s, from) <= s.len(),
        word_start(s, from) < s.len() ==> !is_white_space(s[word_start(s, from)]),
        from <= word_end(s, from) <= s.len(),
        from < s.len() && !is_white_space(s[from]) ==> from < word_end(s, from),
    decreases s.len() - from,
{
    if from < s.len() {
        lemma_word_bounds(s, from + 1);
    }
}

/// The first place from `from` on that does not hold white space.
fn find_word_start(s: &str, from: usize, len: usize) -> (place: usize)
    requires
        from <= len == s@.len(),
    ensures
        place == word_start(s@, from as int),
{
    let mut place: usize = from;
    while place < len && white_space(s.get_char(place))
        invariant
            from <= place <= len == s@.len(),
            word_start(s@, place as int) == word_start(s@, from as int),
        decreases len - place,
    {
        place = place + 1;
    }
    place
}

/// The first place from `from` on that holds white space.
fn find_word_end(s: &str, from: usize, len: usize) -> (place: usize)
    requires
        from <= len == s@.len(),
    ensures
        place == word_end(s@, from as int),
{
    let mut place: usize = from;
    while place < len && !white_space(s.get_char(place))
        invariant
            from <= place <= len == s@.len(),
            word_end(s@, place as int) == word_end(s@, from as int),
        decreases len - place,
    {
        place = place + 1;
    }
    place
}

/// The second word of `s`.
pub fn second_word(s: &str) -> (word: Option<&str>)
    ensures
        match word {
            Some(word) => words(s@, 0).len() >= 2 && word@ == words(s@, 0)[1],
            None => words(s@, 0).len() < 2,
        },
{
    let len: usize = s.unicode_len();
    let first: usize = find_word_start(s, 0, len);
    proof {
        reveal_with_fuel(words, 3);
        lemma_word_bounds(s@, 0);
        lemma_word_bounds(s@, first as int);
    }
    if first == len {
        return None;
    }
    let gap: usize = find_word_end(s, first, len);
    let second: usize = find_word_start(s, gap, len);
    proof {
        lemma_word_bounds(s@, gap as int);
        lemma_word_bounds(s@, second as int);
    }
    if second == len {
        return None;
    }
    let end: usize = find_word_end(s, second, len);
    Some(s.substring_char(second, end))
}

/// `pattern` occurs in `s` at `place`.
pub open spec fn occurs_at(s: Seq<char>, pattern: Seq<char>, place: int) -> bool {
    &&& 0 <= place
    &&& place + pattern.len() <= s.len()
    &&& s.subrange(place, place + pattern.len()) == pattern
}

/// `pattern` occurs somewhere in `s`.
pub open spec fn occurs(s: Seq<char>, pattern: Seq<char>) -> bool {
    exists|place: int| occurs_at(s, pattern, place)
}

/// Whether `pattern` occurs somewhere in `s`.
pub fn contains(s: &str, pattern: &str) -> (result: bool)
    ensures
        result == occurs(s@, pattern@),
{
    let len: usize = s.unicode_len();
    let width: usize = pattern.unicode_len();
    if width > len {
        return false;
    }
    let mut place: usize = 0;
    while place <= len - width
        invariant
            place <= len - width + 1,
            width <= len == s@.len(),
            width == pattern@.len(),
            forall|p: int| 0 <= p < place ==> !occurs_at(s@, pattern@, p),
        decreases len - place + 1,
    {
        let mut matched: usize = 0;
        while matched < width && s.get_char(place + matched) == pattern.get_char(matched)
            invariant
                place <= len - width,
                width <= len == s@.len(),
                width == pattern@.len(),
                matched <= width,
                forall|q: int| 0 <= q < matched ==> s@[place + q] == #[trigger] pattern@[q],
            decreases width - matched,
        {
            matched = matched + 1;
        }
        if matched == width {
            assert(s@.subrange(place as int, place + width) =~= pattern@);
            assert(occurs_at(s@, pattern@, place as int));
            return true;
        }
        assert(s@.subrange(place as int, place + width)[matched as int] == s@[place + matched]);
        place = place + 1;
    }
    false
}

/// The character of a decimal digit.
pub open spec fn digit_char(digit: nat) -> char {
    (48 + digit) as char
}

/// `n` in decimal.
pub open spec fn decimal(n: nat) -> Seq<char>
    decreases n,
{
    if n < 10 {
        seq![digit_char(n)]
    } else {
        decimal(n / 10).push(digit_char(n % 10))
    }
}

/// A decimal digit as text.
fn digit_str(digit: usize) -> (text: &'static str)
    requires
        digit < 10,
    ensures
        text@ == seq![digit_char(digit as nat)],
{
    proof {
        reveal_strlit("0");
        reveal_strlit("1");
        reveal_strlit("2");
        reveal_strlit("3");
        reveal_strlit("4");
        reveal_strlit("5");
        reveal_strlit("6");
        reveal_strlit("7");
        reveal_strlit("8");
        reveal_strlit("9");
    }
    match digit {
        0 => "0",
        1 => "1",
        2 => "2",
        3 => "3",
        4 => "4",
        5 => "5",
        6 => "6",
        7 => "7",
        8 => "8",
        _ => "9",
    }
}

/// Appends `n` in decimal.
pub fn push_decimal(out: &mut String, n: usize)
    ensures
        final(out)@ == old(out)@ + decimal(n as nat),
    decreases n,
{
    if n >= 10 {
        push_decimal(out, n / 10);
    }
    let ghost before = out@;
    out.append(digit_str(n % 10));
    assert(before + seq![digit_char((n % 10) as nat)] =~= before.push(digit_char((n % 10) as nat)));
}

/// The number that decimal digits write.
pub open spec fn denoted(digits: Seq<char>) -> int
    decreases digits.len(),
{
    if digits.len() == 0 {
        0
    } else {
        10 * denoted(digits.drop_last()) + (digits.last() as int - '0' as int)
    }
}

/// A number is written in decimal digits that denote it, without a zero in front.
pub proof fn law_decimal_denotes_the_number(n: nat)
    ensures
        decimal(n).len() > 0,
        forall|i: int| 0 <= i < decimal(n).len() ==> '0' <= #[trigger] decimal(n)[i] <= '9',
        denoted(decimal(n)) == n,
        n > 0 ==> decimal(n)[0] != '0',
        n == 0 ==> decimal(n).len() == 1,
    decreases n,
{
    reveal_with_fuel(denoted, 2);
    let digit = digit_char(n % 10);
    assert(digit as int == 48 + n % 10);
    if n < 10 {
        assert(decimal(n).drop_last() =~= Seq::empty());
    } else {
        law_decimal_denotes_the_number(n / 10);
        let front = decimal(n / 10);
        assert(decimal(n).drop_last() =~= front);
        assert forall|i: int| 0 <= i < decimal(n).len() implies '0' <= #[trigger] decimal(n)[i]
            <= '9' by {
            if i < front.len() {
                assert(decimal(n)[i] == front[i]);
            }
        }
    }
}

/// [`push_decimal`] appends digits that denote the number, and keeps what stands
/// before them.
pub proof fn law_appended_digits_denote_the_number(out: &mut String, n: usize)
    requires
        call_ensures(push_decimal, (out, n), ()),
    ensures
        final(out)@.len() > old(out)@.len(),
        final(out)@.take(old(out)@.len() as int) == old(out)@,
        ({
            let digits = final(out)@.skip(old(out)@.len() as int);
            &&& forall|i: int| 0 <= i < digits.len() ==> '0' <= #[trigger] digits[i] <= '9'
            &&& denoted(digits) == n
            &&& n > 0 ==> digits[0] != '0'
            &&& n == 0 ==> digits.len() == 1
        }),
{
    law_decimal_denotes_the_number(n as nat);
    assert(final(out)@.take(old(out)@.len() as int) =~= old(out)@);
    assert(final(out)@.skip(old(out)@.len() as int) =~= decimal(n as nat));
}

/// The text has a run of white space up to `a`, a word up to `b`, white space up to
/// `c` and a word up to `d`, which the text or more white space ends.
pub open spec fn has_second_word(s: Seq<char>, a: int, b: int, c: int, d: int) -> bool {
    &&& 0 <= a < b < c < d <= s.len()
    &&& forall|i: int| 0 <= i < a ==> is_white_space(#[trigger] s[i])
    &&& forall|i: int| a <= i < b ==> !is_white_space(#[trigger] s[i])
    &&& forall|i: int| b <= i < c ==> is_white_space(#[trigger] s[i])
    &&& forall|i: int| c <= i < d ==> !is_white_space(#[trigger] s[i])
    &&& d < s.len() ==> is_white_space(s[d])
}

/// White space fills the way to the start of a word, and none stands in the word.
proof fn lemma_word_runs(s: Seq<char>, from: int)
    requires
        0 <= from <= s.len(),
    ensures
        forall|i: int| from <= i < word_start(s, from) ==> is_white_space(#[trigger] s[i]),
        forall|i: int| from <= i < word_end(s, from) ==> !is_white_space(#[trigger] s[i]),
        word_end(s, from) < s.len() ==> is_white_space(s[word_end(s, from)]),
    decreases s.len() - from,
{
    if from < s.len() {
        lemma_word_runs(s, from + 1);
    }
}

/// Where a word starts and ends is fixed by the runs of white space.
proof fn lemma_runs_fix_word(s: Seq<char>, from: int, place: int)
    requires
        0 <= from <= place <= s.len(),
    ensures
        (forall|i: int| from <= i < place ==> is_white_space(#[trigger] s[i])) && place < s.len()
            && !is_white_space(s[place]) ==> word_start(s, from) == place,
        (forall|i: int| from <= i < place ==> !is_white_space(#[trigger] s[i])) && (place < s.len()
            ==> is_white_space(s[place])) ==> word_end(s, from) == place,
    decreases place - from,
{
    if from < place {
        lemma_runs_fix_word(s, from + 1, place);
    }
}

/// The second word is what stands between the second and the third run of white
/// space, where a run in front counts as the first even if it is empty.
pub proof fn law_second_word_stands_second(s: &str, word: Option<&str>)
    requires
        call_ensures(second_word, (s,), word),
    ensures
        match word {
            Some(text) => exists|a: int, b: int, c: int, d: int| #[trigger]
                has_second_word(s@, a, b, c, d) && text@ == s@.subrange(c, d),
            None => forall|a: int, b: int, c: int, d: int| !#[trigger]
                has_second_word(s@, a, b, c, d),
        },
{
    reveal_with_fuel(words, 3);
    let a = word_start(s@, 0);
    lemma_word_bounds(s@, 0);
    lemma_word_runs(s@, 0);
    let b = word_end(s@, a);
    lemma_word_bounds(s@, a);
    lemma_word_runs(s@, a);
    let c = word_start(s@, b);
    lemma_word_bounds(s@, b);
    lemma_word_runs(s@, b);
    let d = word_end(s@, c);
    lemma_word_bounds(s@, c);
    lemma_word_runs(s@, c);
    if word is Some {
        assert(has_second_word(s@, a, b, c, d));
    } else {
        assert forall|e: int, f: int, g: int, h: int| !#[trigger] has_second_word(
            s@,
            e,
            f,
            g,
            h,
        ) by {
            if has_second_word(s@, e, f, g, h) {
                lemma_runs_fix_word(s@, 0, e);
                lemma_runs_fix_word(s@, e, f);
                lemma_runs_fix_word(s@, f, g);
                lemma_runs_fix_word(s@, g, h);
            }
        }
    }
}

/// One text contains another if it is made of something, the other and something.
pub proof fn law_contained_text_stands_within(s: &str, pattern: &str, result: bool)
    requires
        call_ensures(contains, (s, pattern), result),
    ensures
        result <==> exists|before: Seq<char>, after: Seq<char>|
            s@ == #[trigger] (before + pattern@ + after),
{
    if result {
        let place = choose|place: int| occurs_at(s@, pattern@, place);
        let before = s@.take(place);
        let after = s@.skip(place + pattern@.len());
        assert(s@ =~= before + pattern@ + after);
    }
    if exists|before: Seq<char>, after: Seq<char>| s@ == #[trigger] (before + pattern@ + after) {
        let (before, after) = choose|before: Seq<char>, after: Seq<char>|
            s@ == #[trigger] (before + pattern@ + after);
        assert(s@.subrange(before.len() as int, (before.len() + pattern@.len()) as int)
            =~= pattern@);
        assert(occurs_at(s@, pattern@, before.len() as int));
    }
}

/// White space is the tab and the four characters behind it, the space, the next
/// line, the no-break space, and what Unicode has beyond: the Ogham space, the eleven
/// spaces from the en quad on, both separators, the narrow no-break space, the
/// mathematical space and the ideographic space.
pub proof fn law_white_space_characters(c: char)
    ensures
        is_white_space(c) <==> {
            ||| '\u{9}' <= c <= '\u{d}'
            ||| c == ' '
            ||| c == '\u{85}'
            ||| c == '\u{a0}'
            ||| c == '\u{1680}'
            ||| '\u{2000}' <= c <= '\u{200a}'
            ||| c == '\u{2028}'
            ||| c == '\u{2029}'
            ||| c == '\u{202f}'
            ||| c == '\u{205f}'
            ||| c == '\u{3000}'
        },
{
}

} // verus!
