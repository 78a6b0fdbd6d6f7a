//! Searching in text, replacing parts of it, and reading numbers from it.
use vstd::prelude::*;
use crate::text;
use crate::text::Text;

verus! {

/// The needle stands in the text at a place.
pub open spec fn matches_at(content: Text, needle: Text, i: int) -> bool {
    0 <= i && i + needle.len() <= content.len() && content.subrange(i, i + needle.len()) == needle
}

/// The needle stands somewhere in the text.
pub open spec fn occurs(content: Text, needle: Text) -> bool {
    exists|i: int| #[trigger] matches_at(content, needle, i)
}

fn stands_at(content: &Vec<char>, needle: &Vec<char>, i: usize) -> (r: bool)
    requires
        i <= content@.len(),
    ensures
        r == matches_at(content@, needle@, i as int),
{
    if needle.len() > content.len() - i {
        return false;
    }
    let total: usize = content.len();
    let mut k: usize = 0;
    while k < needle.len()
        invariant
            total == content@.len(),
            i <= total,
            k <= needle@.len() <= total - i,
            forall|j: int| 0 <= j < k ==> content@[i + j] == needle@[j],
        decreases needle@.len() - k,
    {
        if content[i + k] != needle[k] {
            assert(content@.subrange(i as int, i + needle@.len())[k as int] != needle@[k as int]);
            return false;
        }
        k = k + 1;
    }
    assert(content@.subrange(i as int, i + needle@.len()) =~= needle@);
    true
}

/// Whether a needle stands in a text.
pub fn contains(content: &str, needle: &str) -> (r: bool)
    ensures
        r == occurs(content@, needle@),
{
    let whole = text::chars_of(content);
    let part = text::chars_of(needle);
    let mut i: usize = 0;
    while i < whole.len()
        invariant
            i <= whole@.len(),
            whole@ == content@,
            part@ == needle@,
            forall|j: int| 0 <= j < i ==> !#[trigger] matches_at(content@, needle@, j),
        decreases whole@.len() - i,
    {
        if stands_at(&whole, &part, i) {
            return true;
        }
        i = i + 1;
    }
    let last = stands_at(&whole, &part, i);
    proof {
        if occurs(content@, needle@) {
            let j = choose|j: int| #[trigger] matches_at(content@, needle@, j);
            assert(j == i);
        }
    }
    last
}

/// The text with every occurrence of the needle replaced, from the left,
/// without overlap.
pub open spec fn replaced(content: Text, needle: Text, with: Text) -> Text
    decreases content.len(),
{
    if needle.len() == 0 || content.len() == 0 {
        content
    } else if matches_at(content, needle, 0) {
        with + replaced(content.skip(needle.len() as int), needle, with)
    } else {
        seq![content[0]] + replaced(content.skip(1), needle, with)
    }
}

/// Replaces every occurrence of a needle that is not empty.
pub fn replace(content: &str, needle: &str, with: &str) -> (r: String)
    ensures
        r@ == replaced(content@, needle@, with@),
{
    let whole = text::chars_of(content);
    let part = text::chars_of(needle);
    if part.len() == 0 {
        return content.to_owned();
    }
    let mut out = String::new();
    let mut i: usize = 0;
    assert(whole@.skip(0) =~= whole@);
    while i < whole.len()
        invariant
            i <= whole@.len(),
            whole@ == content@,
            part@ == needle@,
            part@.len() > 0,
            replaced(content@, needle@, with@) == out@ + replaced(
                whole@.skip(i as int),
                needle@,
                with@,
            ),
        decreases whole@.len() - i,
    {
        let ghost rest = whole@.skip(i as int);
        let ghost before = out@;
        proof {
            assert(matches_at(rest, needle@, 0) == matches_at(whole@, needle@, i as int)) by {
                if i + needle@.len() <= whole@.len() {
                    assert(rest.subrange(0, needle@.len() as int) =~= whole@.subrange(
                        i as int,
                        i + needle@.len(),
                    ));
                }
            }
        }
        if stands_at(&whole, &part, i) {
            out.append(with);
            proof {
                let after = whole@.skip(i + part@.len());
                assert(rest.skip(needle@.len() as int) =~= after);
                assert(before + (with@ + replaced(after, needle@, with@)) =~= (before + with@)
                    + replaced(after, needle@, with@));
            }
            i = i + part.len();
        } else {
            out.push(whole[i]);
            proof {
                let after = whole@.skip(i + 1);
                assert(rest.skip(1) =~= after);
                assert(before + (seq![rest[0]] + replaced(after, needle@, with@)) =~= before.push(
                    rest[0],
                ) + replaced(after, needle@, with@));
            }
            i = i + 1;
        }
    }
    proof {
        assert(whole@.skip(i as int) =~= Seq::<char>::empty());
        assert(out@ + Seq::<char>::empty() =~= out@);
    }
    out
}

/// The place of the first such character.
pub open spec fn first_char(content: Text, c: char) -> Option<int>
    decreases content.len(),
{
    if content.len() == 0 {
        None
    } else {
        match first_char(content.drop_last(), c) {
            Some(i) => Some(i),
            None => if content.last() == c {
                Some(content.len() - 1)
            } else {
                None
            },
        }
    }
}

/// The parts before and after the first such character; the whole text and
/// nothing where it has none.
pub open spec fn cut(content: Text, c: char) -> (Text, Text) {
    match first_char(content, c) {
        Some(i) => (content.take(i), content.skip(i + 1)),
        None => (content, Seq::empty()),
    }
}

proof fn lemma_first_char(content: Text, c: char, i: int)
    requires
        0 <= i < content.len(),
        content[i] == c,
        forall|j: int| 0 <= j < i ==> content[j] != c,
    ensures
        first_char(content, c) == Some(i),
    decreases content.len(),
{
    if i == content.len() - 1 {
        lemma_no_char(content.drop_last(), c);
    } else {
        lemma_first_char(content.drop_last(), c, i);
    }
}

proof fn lemma_no_char(content: Text, c: char)
    requires
        forall|j: int| 0 <= j < content.len() ==> content[j] != c,
    ensures
        first_char(content, c) is None,
    decreases content.len(),
{
    if content.len() > 0 {
        lemma_no_char(content.drop_last(), c);
    }
}

/// Cuts a text at the first such character.
pub fn cut_at(content: &str, c: char) -> (r: (String, String))
    ensures
        r.0@ == cut(content@, c).0,
        r.1@ == cut(content@, c).1,
{
    let whole = text::chars_of(content);
    let mut i: usize = 0;
    while i < whole.len()
        invariant
            i <= whole@.len(),
            whole@ == content@,
            forall|j: int| 0 <= j < i ==> whole@[j] != c,
        decreases whole@.len() - i,
    {
        if whole[i] == c {
            proof {
                lemma_first_char(content@, c, i as int);
            }
            let length: usize = content.unicode_len();
            let before = content.substring_char(0, i);
            let after = content.substring_char(i + 1, length);
            assert(content@.subrange(0, i as int) =~= content@.take(i as int));
            assert(content@.subrange(i + 1, length as int) =~= content@.skip(i + 1));
            return (before.to_owned(), after.to_owned());
        }
        i = i + 1;
    }
    proof {
        lemma_no_char(content@, c);
    }
    (content.to_owned(), String::new())
}

/// A decimal digit.
pub open spec fn is_digit(c: char) -> bool {
    '0' <= c <= '9'
}

/// The number that decimal digits spell.
pub open spec fn digits_value(digits: Text) -> nat
    decreases digits.len(),
{
    if digits.len() == 0 {
        0
    } else {
        digits_value(digits.drop_last()) * 10 + (digits.last() as nat - '0' as nat) as nat
    }
}

proof fn lemma_digits_grow(digits: Text, i: int)
    requires
        0 <= i <= digits.len(),
    ensures
        digits_value(digits.take(i)) <= digits_value(digits),
    decreases digits.len(),
{
    if i < digits.len() {
        lemma_digits_grow(digits.drop_last(), i);
        assert(digits.drop_last().take(i) =~= digits.take(i));
    } else {
        assert(digits.take(i) =~= digits);
    }
}

/// The number without a sign that a text spells: decimal digits, after a plus
/// sign or none, of a number that is not over the limit.
pub open spec fn parsed(content: Text, limit: nat) -> Option<nat> {
    let digits = without_plus(content);
    if digits.len() > 0 && all_digits(digits) && digits_value(digits) <= limit {
        Some(digits_value(digits))
    } else {
        None
    }
}

/// The text after a plus sign at its start, if it has one.
pub open spec fn without_plus(content: Text) -> Text {
    if content.len() > 0 && content[0] == '+' {
        content.skip(1)
    } else {
        content
    }
}

pub open spec fn all_digits(content: Text) -> bool {
    forall|i: int| 0 <= i < content.len() ==> is_digit(#[trigger] content[i])
}

/// Reads a number without a sign.
pub fn parse(content: &str, limit: u64) -> (r: Option<u64>)
    ensures
        match parsed(content@, limit as nat) {
            Some(n) => r is Some && r->Some_0 == n,
            None => r is None,
        },
{
    let whole = text::chars_of(content);
    let start: usize = if whole.len() > 0 && whole[0] == '+' {
        1
    } else {
        0
    };
    let ghost digits = whole@.skip(start as int);
    assert(start == 0 ==> digits =~= whole@);
    if start == whole.len() {
        return None;
    }
    let mut value: u64 = 0;
    let mut i: usize = start;
    assert(digits.take(0) =~= Seq::<char>::empty());
    while i < whole.len()
        invariant
            start <= i <= whole@.len(),
            digits == whole@.skip(start as int),
            value == digits_value(digits.take(i - start)),
            value <= limit,
            forall|j: int| 0 <= j < i - start ==> is_digit(#[trigger] digits[j]),
            digits.len() > 0,
            digits == without_plus(content@),
        decreases whole@.len() - i,
    {
        let c = whole[i];
        assert(c == digits[i - start]);
        if !('0' <= c && c <= '9') {
            return None;
        }
        let digit: u64 = (c as u32 - '0' as u32) as u64;
        proof {
            let next = digits.take(i - start + 1);
            assert(next.drop_last() =~= digits.take(i - start));
            assert(digits_value(next) == value * 10 + digit);
            lemma_digits_grow(digits, i - start + 1);
        }
        if value > limit / 10 {
            assert(value * 10 > limit) by (nonlinear_arith)
                requires
                    value > limit / 10,
            ;
            return None;
        }
        assert(value * 10 <= limit) by (nonlinear_arith)
            requires
                value <= limit / 10,
        ;
        let tens: u64 = value * 10;
        if digit > limit - tens {
            return None;
        }
        value = tens + digit;
        i = i + 1;
    }
    assert(digits.take(i - start) =~= digits);
    Some(value)
}

/// A text is cut at the first such character: the part before it has none, and
/// the two parts with the character between them are the text. A text without
/// one is whole before the cut.
pub proof fn law_cut_is_at_the_first(content: Text, c: char)
    ensures
        content.contains(c) ==> !cut(content, c).0.contains(c) && cut(content, c).0.push(c) + cut(
            content,
            c,
        ).1 == content,
        !content.contains(c) ==> cut(content, c) == (content, Seq::<char>::empty()),
{
    if content.contains(c) {
        lemma_least(content, c);
        let i = choose|i: int|
            0 <= i < content.len() && content[i] == c && forall|j: int|
                0 <= j < i ==> #[trigger] content[j] != c;
        lemma_first_char(content, c, i);
        let (before, after) = cut(content, c);
        if before.contains(c) {
            let j = choose|j: int| 0 <= j < before.len() && before[j] == c;
            assert(content[j] == c);
        }
        assert(before.push(c) + after =~= content);
    } else {
        assert forall|j: int| 0 <= j < content.len() implies content[j] != c by {
            if content[j] == c {
                assert(content.contains(c));
            }
        }
        lemma_no_char(content, c);
    }
}

proof fn lemma_least(content: Text, c: char)
    requires
        content.contains(c),
    ensures
        exists|i: int|
            0 <= i < content.len() && content[i] == c && forall|j: int|
                0 <= j < i ==> #[trigger] content[j] != c,
    decreases content.len(),
{
    let shorter = content.drop_last();
    if shorter.contains(c) {
        lemma_least(shorter, c);
        let i = choose|i: int|
            0 <= i < shorter.len() && shorter[i] == c && forall|j: int|
                0 <= j < i ==> #[trigger] shorter[j] != c;
        assert(content[i] == c);
        assert forall|j: int| 0 <= j < i implies #[trigger] content[j] != c by {
            assert(shorter[j] != c);
        }
    } else {
        let i = content.len() - 1;
        assert forall|j: int| 0 <= j < i implies #[trigger] content[j] != c by {
            if content[j] == c {
                assert(shorter[j] == c);
            }
        }
        let k = choose|k: int| 0 <= k < content.len() && content[k] == c;
        assert(k == i);
    }
}

/// A text that does not hold the needle stays as it is; one that does has the
/// replacement in place of the leftmost occurrence, and what comes after it is
/// treated alike.
pub proof fn law_leftmost_occurrence_is_replaced(
    content: Text,
    needle: Text,
    with: Text,
    i: int,
)
    requires
        needle.len() > 0,
    ensures
        !occurs(content, needle) ==> replaced(content, needle, with) == content,
        matches_at(content, needle, i) && (forall|j: int|
            0 <= j < i ==> !#[trigger] matches_at(content, needle, j)) ==> replaced(
            content,
            needle,
            with,
        ) == content.take(i) + with + replaced(content.skip(i + needle.len()), needle, with),
    decreases content.len(),
{
    if content.len() > 0 {
        let rest = content.skip(1);
        law_leftmost_occurrence_is_replaced(rest, needle, with, i - 1);
        assert forall|j: int| 0 <= j implies #[trigger] matches_at(rest, needle, j) == matches_at(
            content,
            needle,
            j + 1,
        ) by {
            if 0 <= j && j + needle.len() <= rest.len() {
                assert(rest.subrange(j, j + needle.len()) =~= content.subrange(
                    j + 1,
                    j + 1 + needle.len(),
                ));
            }
        }
        if !occurs(content, needle) {
            assert(!occurs(rest, needle)) by {
                if occurs(rest, needle) {
                    let j = choose|j: int| #[trigger] matches_at(rest, needle, j);
                    assert(matches_at(content, needle, j + 1));
                }
            }
            assert(!matches_at(content, needle, 0));
            assert(seq![content[0]] + rest =~= content);
        }
        if matches_at(content, needle, i) && (forall|j: int|
            0 <= j < i ==> !#[trigger] matches_at(content, needle, j)) {
            if i == 0 {
                assert(content.take(0) + with =~= with);
            } else {
                assert(!matches_at(content, needle, 0));
                assert(matches_at(rest, needle, i - 1));
                assert forall|j: int| 0 <= j < i - 1 implies !#[trigger] matches_at(
                    rest,
                    needle,
                    j,
                ) by {
                    assert(!matches_at(content, needle, j + 1));
                }
                assert(rest.skip(i - 1 + needle.len()) =~= content.skip(i + needle.len()));
                assert(seq![content[0]] + (rest.take(i - 1) + with + replaced(
                    content.skip(i + needle.len()),
                    needle,
                    with,
                )) =~= content.take(i) + with + replaced(
                    content.skip(i + needle.len()),
                    needle,
                    with,
                ));
            }
        }
    } else {
        assert(!matches_at(content, needle, i));
    }
}

/// Another digit makes a number ten times as large and adds the digit; nothing
/// but digits spells a number, and none over the limit is taken.
pub proof fn law_digits_spell_numbers(digits: Text, c: char, limit: nat)
    ensures
        is_digit(c) ==> digits_value(digits.push(c)) == digits_value(digits) * 10 + (c as int
            - '0' as int),
        parsed(digits, limit) is Some ==> parsed(digits, limit)->Some_0 <= limit,
        parsed(Seq::empty(), limit) is None,
        digits.len() > 0 && digits[0] != '+' && !is_digit(digits[0]) ==> parsed(digits, limit)
            is None,
        digits.len() > 0 && (forall|i: int|
            0 <= i < digits.len() ==> '0' <= #[trigger] digits[i] <= '9') && digits_value(digits)
            <= limit ==> parsed(digits, limit) == Some(digits_value(digits)),
        is_digit(c) <==> '0' <= c <= '9',
{
    assert(digits.push(c).drop_last() =~= digits);
}

/// A number that is written in decimal is read back as the same number.
pub proof fn law_decimal_round_trip(n: nat, limit: nat)
    requires
        n <= limit,
    ensures
        parsed(text::decimal(n), limit) == Some(n),
{
    lemma_decimal_digits(n);
}

proof fn lemma_decimal_digits(n: nat)
    ensures
        text::decimal(n).len() > 0,
        all_digits(text::decimal(n)),
        digits_value(text::decimal(n)) == n,
    decreases n,
{
    let all = text::decimal(n);
    if n < 10 {
        assert(all.drop_last() =~= Seq::<char>::empty());
        assert(digits_value(all.drop_last()) == 0);
        assert(all.last() == text::digit(n));
    } else {
        let before = text::decimal(n / 10);
        lemma_decimal_digits(n / 10);
        assert(all.drop_last() =~= before);
        assert(n == (n / 10) * 10 + n % 10);
        assert forall|i: int| 0 <= i < all.len() implies is_digit(#[trigger] all[i]) by {
            if i < before.len() {
                assert(all[i] == before[i]);
            }
        }
    }
}

} // verus!
