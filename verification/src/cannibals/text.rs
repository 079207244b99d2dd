//! Plain text: white space, words and decimal numerals.

use vstd::prelude::*;
use vstd::string::*;

verus! {

/// White space, as `char::is_whitespace` has it.
pub open spec fn is_space(c: char) -> bool {
    let code = c as u32;
    ||| 0x09 <= code <= 0x0D
    ||| code == 0x20
    ||| code == 0x85
    ||| code == 0xA0
    ||| code == 0x1680
    ||| 0x2000 <= code <= 0x200A
    ||| code == 0x2028
    ||| code == 0x2029
    ||| code == 0x202F
    ||| code == 0x205F
    ||| code == 0x3000
}

/// A word: at least one character, none of them white space.
pub open spec fn is_word(word: Seq<char>) -> bool {
    &&& word.len() > 0
    &&& forall|i: int| 0 <= i < word.len() ==> !is_space(#[trigger] word[i])
}

/// The words of `text`: its maximal runs of characters that are not white
/// space, read from left to right. A character that is not white space
/// extends the word of the character before it, or opens a new word.
pub open spec fn words(text: Seq<char>) -> Seq<Seq<char>>
    decreases text.len(),
{
    if text.len() == 0 {
        seq![]
    } else {
        let before = words(text.drop_last());
        let c = text.last();
        if is_space(c) {
            before
        } else if text.len() >= 2 && !is_space(text[text.len() - 2]) && before.len() > 0 {
            before.drop_last().push(before.last().push(c))
        } else {
            before.push(seq![c])
        }
    }
}

/// The parts in a row, with `separator` between each two of them.
pub open spec fn join(parts: Seq<Seq<char>>, separator: Seq<char>) -> Seq<char>
    decreases parts.len(),
{
    if parts.len() == 0 {
        seq![]
    } else if parts.len() == 1 {
        parts[0]
    } else {
        join(parts.drop_last(), separator) + separator + parts.last()
    }
}

/// The words with one blank between each two of them.
pub open spec fn join_words(words: Seq<Seq<char>>) -> Seq<char> {
    join(words, seq![' '])
}

/// The text with its white space normalised: no white space at either end,
/// one blank between words.
pub open spec fn normalize(text: Seq<char>) -> Seq<char> {
    join_words(words(text))
}

/// The text without the white space at its start.
pub open spec fn trim_start(text: Seq<char>) -> Seq<char>
    decreases text.len(),
{
    if text.len() > 0 && is_space(text[0]) {
        trim_start(text.drop_first())
    } else {
        text
    }
}

/// The text without the white space at its end.
pub open spec fn trim_end(text: Seq<char>) -> Seq<char>
    decreases text.len(),
{
    if text.len() > 0 && is_space(text.last()) {
        trim_end(text.drop_last())
    } else {
        text
    }
}

/// The text without the white space at its two ends.
pub open spec fn trim(text: Seq<char>) -> Seq<char> {
    trim_end(trim_start(text))
}

/// The character that stands for the decimal digit `d`.
pub open spec fn digit_char(d: int) -> char {
    (48 + d) as u8 as char
}

/// Whether `c` is a decimal digit.
pub open spec fn is_digit(c: char) -> bool {
    48 <= c as u32 <= 57
}

/// The number that the digit `c` stands for.
pub open spec fn digit_value(c: char) -> nat {
    (c as u32 - 48) as nat
}

/// `n` in decimal, without a sign or leading zeros.
pub open spec fn decimal(n: nat) -> Seq<char>
    decreases n,
{
    if n < 10 {
        seq![digit_char(n as int)]
    } else {
        decimal(n / 10).push(digit_char((n % 10) as int))
    }
}

/// At least one character, all of them decimal digits.
pub open spec fn is_numeral(digits: Seq<char>) -> bool {
    &&& digits.len() > 0
    &&& forall|i: int| 0 <= i < digits.len() ==> is_digit(#[trigger] digits[i])
}

/// The number that a run of decimal digits stands for.
pub open spec fn numeral_value(digits: Seq<char>) -> nat
    decreases digits.len(),
{
    if digits.len() == 0 {
        0
    } else {
        10 * numeral_value(digits.drop_last()) + digit_value(digits.last())
    }
}

/// The word without a plus sign at its start.
pub open spec fn unsigned_part(word: Seq<char>) -> Seq<char> {
    if word.len() > 0 && word[0] == '+' {
        word.drop_first()
    } else {
        word
    }
}

/// The count that `word` spells: decimal digits, after at most one plus
/// sign, that stand for a number up to 255. Leading zeros are accepted.
pub open spec fn parse_count(word: Seq<char>) -> Option<u8> {
    let digits = unsigned_part(word);
    if is_numeral(digits) && numeral_value(digits) <= u8::MAX {
        Some(numeral_value(digits) as u8)
    } else {
        None
    }
}

/// A numeral as `decimal` writes it: no sign, and no zero before another digit.
pub open spec fn is_plain_numeral(word: Seq<char>) -> bool {
    &&& is_numeral(word)
    &&& word.len() > 1 ==> word[0] != '0'
}

/// The texts that the vectors hold.
pub open spec fn texts_of(words: Seq<Vec<char>>) -> Seq<Seq<char>> {
    words.map_values(|word: Vec<char>| word@)
}

/// Whether `c` is white space.
pub fn is_whitespace(c: char) -> (space: bool)
    ensures
        space == is_space(c),
{
    let code: u32 = c as u32;
    (0x09 <= code && code <= 0x0D) || code == 0x20 || code == 0x85 || code == 0xA0 || code
        == 0x1680 || (0x2000 <= code && code <= 0x200A) || code == 0x2028 || code == 0x2029
        || code == 0x202F || code == 0x205F || code == 0x3000
}

/// The characters of `text`, in order.
pub fn chars_of(text: &str) -> (chars: Vec<char>)
    ensures
        chars@ == text@,
{
    let mut chars: Vec<char> = Vec::new();
    for c in it: text.chars()
        invariant
            chars@ == it.seq().take(it.index() as int),
            it.seq() == text@,
    {
        chars.push(c);
    }
    chars
}

/// Whether `chars` spell exactly `text`.
pub fn spells(chars: &Vec<char>, text: &str) -> (same: bool)
    ensures
        same == (chars@ == text@),
{
    let other = chars_of(text);
    if chars.len() != other.len() {
        return false;
    }
    let mut i: usize = 0;
    while i < chars.len()
        invariant
            chars.len() == other.len(),
            i <= chars.len(),
            other@ == text@,
            forall|j: int| 0 <= j < i ==> chars@[j] == other@[j],
        decreases chars.len() - i,
    {
        if chars[i] != other[i] {
            return false;
        }
        i = i + 1;
    }
    assert(chars@ =~= text@);
    true
}

/// The words of `text`, from left to right.
pub fn split_words(text: &str) -> (found: Vec<Vec<char>>)
    ensures
        texts_of(found@) == words(text@),
{
    let chars = chars_of(text);
    let mut found: Vec<Vec<char>> = Vec::new();
    let mut open: Vec<char> = Vec::new();
    let mut i: usize = 0;
    proof {
        assert(chars@.take(0) =~= Seq::<char>::empty());
        assert(texts_of(found@) =~= words(chars@.take(0)));
    }
    while i < chars.len()
        invariant
            i <= chars.len(),
            chars@ == text@,
            open@.len() > 0 <==> (i > 0 && !is_space(chars@[i - 1])),
            open@.len() > 0 ==> words(chars@.take(i as int)) == texts_of(found@).push(open@),
            open@.len() == 0 ==> words(chars@.take(i as int)) == texts_of(found@),
        decreases chars.len() - i,
    {
        let c = chars[i];
        proof {
            let now = chars@.take(i as int + 1);
            assert(now.drop_last() =~= chars@.take(i as int));
            assert(now.last() == c);
            if i > 0 {
                assert(now[now.len() - 2] == chars@[i - 1]);
            }
        }
        if is_whitespace(c) {
            if open.len() > 0 {
                let ghost closed = texts_of(found@).push(open@);
                found.push(open);
                open = Vec::new();
                assert(texts_of(found@) =~= closed);
            }
        } else {
            let ghost before = words(chars@.take(i as int));
            let ghost was_open = open@;
            open.push(c);
            proof {
                let now = chars@.take(i as int + 1);
                if was_open.len() > 0 {
                    assert(before.drop_last() =~= texts_of(found@));
                    assert(before.last() == was_open);
                    assert(words(now) == before.drop_last().push(before.last().push(c)));
                } else {
                    assert(open@ =~= seq![c]);
                    assert(words(now) == before.push(seq![c]));
                }
            }
        }
        i = i + 1;
    }
    assert(chars@.take(i as int) =~= chars@);
    if open.len() > 0 {
        let ghost closed = texts_of(found@).push(open@);
        found.push(open);
        assert(texts_of(found@) =~= closed);
    }
    found
}

/// The text of one decimal digit.
fn digit_text(d: u8) -> (text: &'static str)
    requires
        d < 10,
    ensures
        text@ == seq![digit_char(d as int)],
{
    proof {
        reveal_strlit("0");
        reveal_strlit("1");
        reveal_strlit("2");
        reveal_strlit("3");
        reveal_strlit("4");
        reveal_strlit("5");
        reveal_strlit("6");
        reveal_strlit("7");
        reveal_strlit("8");
        reveal_strlit("9");
    }
    let text = if d == 0 {
        "0"
    } else if d == 1 {
        "1"
    } else if d == 2 {
        "2"
    } else if d == 3 {
        "3"
    } else if d == 4 {
        "4"
    } else if d == 5 {
        "5"
    } else if d == 6 {
        "6"
    } else if d == 7 {
        "7"
    } else if d == 8 {
        "8"
    } else {
        "9"
    };
    assert(text@ =~= seq![digit_char(d as int)]);
    text
}

/// `n` written in decimal.
pub fn render_count(n: u8) -> (text: String)
    ensures
        text@ == decimal(n as nat),
{
    let mut text = String::new();
    if n >= 100 {
        text.append(digit_text(n / 100));
    }
    if n >= 10 {
        text.append(digit_text((n / 10) % 10));
    }
    text.append(digit_text(n % 10));
    proof {
        let v = n as nat;
        reveal_with_fuel(decimal, 3);
        if v >= 100 {
            assert(v / 10 / 10 == v / 100);
            assert(text@ =~= decimal(v));
        } else if v >= 10 {
            assert(text@ =~= decimal(v));
        } else {
            assert(text@ =~= decimal(v));
        }
    }
    text
}

/// A numeral that is cut short stands for no more than the whole.
pub proof fn lemma_numeral_value_grows(digits: Seq<char>, n: int)
    requires
        0 <= n <= digits.len(),
    ensures
        numeral_value(digits.take(n)) <= numeral_value(digits),
    decreases digits.len() - n,
{
    if n < digits.len() {
        lemma_numeral_value_grows(digits, n + 1);
        assert(digits.take(n + 1).drop_last() =~= digits.take(n));
    } else {
        assert(digits.take(n) =~= digits);
    }
}

/// The count that `word` spells, if it spells one.
pub fn read_count(word: &Vec<char>) -> (count: Option<u8>)
    ensures
        count == parse_count(word@),
{
    let start: usize = if word.len() > 0 && word[0] == '+' {
        1
    } else {
        0
    };
    let ghost digits = unsigned_part(word@);
    assert(digits =~= word@.subrange(start as int, word@.len() as int));
    if start == word.len() {
        return None;
    }
    let mut value: u16 = 0;
    let mut i: usize = start;
    assert(digits.take(0) =~= Seq::<char>::empty());
    while i < word.len()
        invariant
            start <= i <= word.len(),
            digits == unsigned_part(word@),
            digits == word@.subrange(start as int, word@.len() as int),
            forall|j: int| 0 <= j < i - start ==> is_digit(#[trigger] digits[j]),
            value == numeral_value(digits.take(i - start)),
            value <= u8::MAX,
        decreases word.len() - i,
    {
        let code: u32 = word[i] as u32;
        assert(digits[i - start] == word@[i as int]);
        if code < 48 || code > 57 {
            assert(!is_digit(digits[i - start]));
            return None;
        }
        let digit: u16 = (code - 48) as u16;
        proof {
            assert(digits.take(i - start + 1).drop_last() =~= digits.take(i - start));
            assert(digits.take(i - start + 1).last() == word@[i as int]);
        }
        value = 10 * value + digit;
        if value > 255 {
            proof {
                lemma_numeral_value_grows(digits, i - start + 1);
            }
            assert(numeral_value(digits) > u8::MAX);
            return None;
        }
        i = i + 1;
    }
    assert(digits.take(i - start) =~= digits);
    Some(value as u8)
}

/// The parts in a row, with `separator` between each two of them.
pub fn join_texts(parts: &Vec<String>, separator: &str) -> (text: String)
    ensures
        text@ == join(parts.deep_view(), separator@),
{
    let mut text = String::new();
    let mut i: usize = 0;
    assert(parts.deep_view().take(0) =~= Seq::<Seq<char>>::empty());
    while i < parts.len()
        invariant
            i <= parts.len(),
            text@ == join(parts.deep_view().take(i as int), separator@),
        decreases parts.len() - i,
    {
        proof {
            let now = parts.deep_view().take(i as int + 1);
            assert(now.drop_last() =~= parts.deep_view().take(i as int));
            assert(now.last() == parts[i as int]@);
        }
        if i > 0 {
            text.append(separator);
        }
        text.append(parts[i].as_str());
        proof {
            let now = parts.deep_view().take(i as int + 1);
            if i == 0 {
                assert(text@ =~= now[0]);
            }
        }
        i = i + 1;
    }
    assert(parts.deep_view().take(i as int) =~= parts.deep_view());
    text
}

/// The text without the white space at its two ends.
pub fn trimmed(chars: &Vec<char>) -> (kept: Vec<char>)
    ensures
        kept@ == trim(chars@),
{
    let n = chars.len();
    let mut a: usize = 0;
    assert(chars@.subrange(0, n as int) =~= chars@);
    while a < n && is_whitespace(chars[a])
        invariant
            a <= n,
            n == chars.len(),
            trim_start(chars@) == trim_start(chars@.subrange(a as int, n as int)),
        decreases n - a,
    {
        assert(chars@.subrange(a as int, n as int).drop_first() =~= chars@.subrange(
            a as int + 1,
            n as int,
        ));
        a = a + 1;
    }
    assert(trim_start(chars@) == chars@.subrange(a as int, n as int));
    let mut b: usize = n;
    while b > a && is_whitespace(chars[b - 1])
        invariant
            a <= b <= n,
            n == chars.len(),
            trim(chars@) == trim_end(chars@.subrange(a as int, b as int)),
        decreases b,
    {
        assert(chars@.subrange(a as int, b as int).drop_last() =~= chars@.subrange(
            a as int,
            b as int - 1,
        ));
        b = b - 1;
    }
    assert(trim(chars@) == chars@.subrange(a as int, b as int));
    let mut kept: Vec<char> = Vec::new();
    let mut i: usize = a;
    while i < b
        invariant
            a <= i <= b <= chars.len(),
            kept@ == chars@.subrange(a as int, i as int),
        decreases b - i,
    {
        kept.push(chars[i]);
        assert(kept@ =~= chars@.subrange(a as int, i as int + 1));
        i = i + 1;
    }
    kept
}

/// A word has no white space to trim.
pub proof fn lemma_trim_word(word: Seq<char>)
    requires
        is_word(word),
    ensures
        trim(word) == word,
{
    assert(!is_space(word[0]));
    assert(!is_space(word[word.len() - 1]));
}

/// Every word of a text is a word: it holds a character, and no white space.
pub proof fn lemma_words_are_words(text: Seq<char>)
    ensures
        forall|i: int| 0 <= i < words(text).len() ==> is_word(#[trigger] words(text)[i]),
        text.len() > 0 && !is_space(text.last()) ==> words(text).len() > 0,
    decreases text.len(),
{
    if text.len() > 0 {
        lemma_words_are_words(text.drop_last());
        let before = words(text.drop_last());
        let c = text.last();
        if is_space(c) {
        } else if text.len() >= 2 && !is_space(text[text.len() - 2]) && before.len() > 0 {
            let grown = before.last().push(c);
            assert(is_word(before.last()));
            assert forall|j: int| 0 <= j < grown.len() implies !is_space(#[trigger] grown[j]) by {
                if j < grown.len() - 1 {
                    assert(grown[j] == before.last()[j]);
                }
            }
            assert(is_word(grown));
            assert forall|i: int| 0 <= i < words(text).len() implies is_word(
                #[trigger] words(text)[i],
            ) by {
                if i < words(text).len() - 1 {
                    assert(words(text)[i] == before[i]);
                }
            }
        } else {
            assert(is_word(seq![c]));
            assert forall|i: int| 0 <= i < words(text).len() implies is_word(
                #[trigger] words(text)[i],
            ) by {
                if i < words(text).len() - 1 {
                    assert(words(text)[i] == before[i]);
                }
            }
        }
    }
}

/// Behind a text that is empty or ends in white space, the start of a word
/// is a word of its own.
pub proof fn lemma_words_grow(base: Seq<char>, word: Seq<char>, n: int)
    requires
        base.len() == 0 || is_space(base.last()),
        is_word(word),
        1 <= n <= word.len(),
    ensures
        words(base + word.take(n)) == words(base).push(word.take(n)),
    decreases n,
{
    let text = base + word.take(n);
    assert(text.last() == word[n - 1]);
    assert(!is_space(word[n - 1]));
    if n == 1 {
        assert(text.drop_last() =~= base);
        assert(word.take(1) =~= seq![word[0]]);
        if text.len() >= 2 {
            assert(text[text.len() - 2] == base.last());
        }
    } else {
        lemma_words_grow(base, word, n - 1);
        assert(text.drop_last() =~= base + word.take(n - 1));
        assert(text[text.len() - 2] == word[n - 2]);
        assert(!is_space(word[n - 2]));
        let before = words(text.drop_last());
        assert(before.drop_last() =~= words(base));
        assert(before.last().push(word[n - 1]) =~= word.take(n));
    }
}

/// The words of words that were joined are those words.
pub proof fn lemma_words_of_joined(parts: Seq<Seq<char>>)
    requires
        forall|i: int| 0 <= i < parts.len() ==> is_word(#[trigger] parts[i]),
    ensures
        words(join_words(parts)) == parts,
    decreases parts.len(),
{
    if parts.len() == 0 {
        assert(words(join_words(parts)) =~= parts);
    } else {
        let last = parts.last();
        assert(is_word(last));
        assert(last.take(last.len() as int) =~= last);
        if parts.len() == 1 {
            let empty = Seq::<char>::empty();
            lemma_words_grow(empty, last, last.len() as int);
            assert(empty + last =~= last);
            assert(words(empty) =~= Seq::<Seq<char>>::empty());
            assert(words(join_words(parts)) =~= parts);
        } else {
            let front = parts.drop_last();
            lemma_words_of_joined(front);
            let base = join_words(front) + seq![' '];
            assert(is_space(' '));
            assert(base.last() == ' ');
            assert(base.drop_last() =~= join_words(front));
            assert(words(base) == front);
            lemma_words_grow(base, last, last.len() as int);
            assert(join_words(parts) =~= base + last);
            assert(front.push(last) =~= parts);
        }
    }
}

/// What `decimal` writes is a plain numeral that stands for the number
/// written, and a word.
pub proof fn lemma_decimal(n: nat)
    ensures
        is_plain_numeral(decimal(n)),
        is_word(decimal(n)),
        numeral_value(decimal(n)) == n,
        n > 0 ==> decimal(n)[0] != '0',
        decimal(n)[0] != '+',
    decreases n,
{
    let text = decimal(n);
    if n < 10 {
        assert(text.drop_last() =~= Seq::<char>::empty());
        assert(numeral_value(text.drop_last()) == 0);
    } else {
        lemma_decimal(n / 10);
        let front = decimal(n / 10);
        assert(text.drop_last() =~= front);
        assert(text[0] == front[0]);
        assert forall|i: int| 0 <= i < text.len() implies is_digit(#[trigger] text[i]) && !is_space(
            text[i],
        ) by {
            if i < text.len() - 1 {
                assert(text[i] == front[i]);
                assert(is_digit(front[i]));
            }
        }
    }
}

/// A digit is the character of the number it stands for, and a number
/// below ten is what its character stands for.
pub proof fn lemma_digits(c: char, d: nat)
    ensures
        is_digit(c) ==> digit_value(c) < 10 && digit_char(digit_value(c) as int) == c,
        is_digit(c) && c != '0' ==> digit_value(c) >= 1,
        d < 10 ==> is_digit(digit_char(d as int)) && digit_value(digit_char(d as int)) == d,
{
    if is_digit(c) {
        let x = (48 + digit_value(c)) as u8;
        assert(x as u32 == c as u32);
        assert(x as char as u32 == x as u32);
        assert(x as char == c);
    }
    if d < 10 {
        let x = (48 + d) as u8;
        assert(x as char as u32 == x as u32);
    }
}

/// A numeral whose first digit is not zero stands for a number that is not zero.
pub proof fn lemma_numeral_positive(digits: Seq<char>)
    requires
        is_numeral(digits),
        digits[0] != '0',
    ensures
        numeral_value(digits) >= 1,
    decreases digits.len(),
{
    assert(is_digit(digits[0]));
    lemma_digits(digits[0], 0);
    if digits.len() > 1 {
        let front = digits.drop_last();
        assert forall|i: int| 0 <= i < front.len() implies is_digit(#[trigger] front[i]) by {
            assert(front[i] == digits[i]);
        }
        lemma_numeral_positive(front);
    } else {
        assert(digits.drop_last() =~= Seq::<char>::empty());
        assert(numeral_value(digits.drop_last()) == 0);
    }
}

/// A plain numeral is what `decimal` writes for the number it stands for.
pub proof fn lemma_plain_numeral(digits: Seq<char>)
    requires
        is_plain_numeral(digits),
    ensures
        decimal(numeral_value(digits)) == digits,
    decreases digits.len(),
{
    let last = digits.last();
    assert(is_digit(last));
    lemma_digits(last, 0);
    if digits.len() == 1 {
        assert(digits.drop_last() =~= Seq::<char>::empty());
        assert(numeral_value(digits.drop_last()) == 0);
        assert(decimal(numeral_value(digits)) =~= digits);
    } else {
        let front = digits.drop_last();
        assert forall|i: int| 0 <= i < front.len() implies is_digit(#[trigger] front[i]) by {
            assert(front[i] == digits[i]);
        }
        assert(front[0] == digits[0]);
        lemma_numeral_positive(front);
        lemma_plain_numeral(front);
        let v = numeral_value(digits);
        assert(v == 10 * numeral_value(front) + digit_value(last));
        assert(v / 10 == numeral_value(front));
        assert(v % 10 == digit_value(last));
        assert(digit_char(digit_value(last) as int) == last);
        assert(decimal(v) =~= digits);
    }
}

} // verus!

