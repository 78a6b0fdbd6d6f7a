//! Text helpers: equality, byte order, concatenation and scanning.
//!
//! Text is modelled by the sequence of its characters. The order of paths and
//! timestamps is the order of their UTF-8 bytes.
use vstd::prelude::*;
use vstd::utf8::*;

verus! {

/// The mathematical value of a piece of text.
pub type Text = Seq<char>;

/// `String::push` appends one character.
pub assume_specification[ std::string::String::push ](string: &mut String, ch: char)
    ensures
        final(string)@ == old(string)@.push(ch),
;

/// Two texts are the same exactly when they hold the same characters.
pub fn same(a: &str, b: &str) -> (r: bool)
    ensures
        r == (a@ == b@),
{
    a.to_owned() == b.to_owned()
}

pub fn concat2(a: &str, b: &str) -> (r: String)
    ensures
        r@ == a@ + b@,
{
    let mut out = a.to_owned();
    out.append(b);
    out
}

pub fn concat3(a: &str, b: &str, c: &str) -> (r: String)
    ensures
        r@ == a@ + b@ + c@,
{
    let mut out = a.to_owned();
    out.append(b);
    out.append(c);
    out
}

/// `a` comes strictly before `b` in the lexicographic order of bytes.
pub open spec fn bytes_less(a: Seq<u8>, b: Seq<u8>) -> bool
    decreases a.len(),
{
    if b.len() == 0 {
        false
    } else if a.len() == 0 {
        true
    } else if a[0] != b[0] {
        a[0] < b[0]
    } else {
        bytes_less(a.drop_first(), b.drop_first())
    }
}

/// `a` comes strictly before `b` in the order of UTF-8 bytes.
pub open spec fn text_less(a: Text, b: Text) -> bool {
    bytes_less(encode_utf8(a), encode_utf8(b))
}

pub proof fn lemma_bytes_less_irreflexive(a: Seq<u8>)
    ensures
        !bytes_less(a, a),
    decreases a.len(),
{
    if a.len() > 0 {
        lemma_bytes_less_irreflexive(a.drop_first());
    }
}

pub proof fn lemma_bytes_less_transitive(a: Seq<u8>, b: Seq<u8>, c: Seq<u8>)
    requires
        bytes_less(a, b),
        bytes_less(b, c),
    ensures
        bytes_less(a, c),
    decreases a.len(),
{
    if a.len() > 0 && a[0] == b[0] && b[0] == c[0] {
        lemma_bytes_less_transitive(a.drop_first(), b.drop_first(), c.drop_first());
    }
}

pub proof fn lemma_bytes_less_total(a: Seq<u8>, b: Seq<u8>)
    ensures
        bytes_less(a, b) || bytes_less(b, a) || a == b,
    decreases a.len(),
{
    if a.len() > 0 && b.len() > 0 {
        if a[0] == b[0] {
            lemma_bytes_less_total(a.drop_first(), b.drop_first());
            if a.drop_first() == b.drop_first() {
                assert(a =~= seq![a[0]] + a.drop_first());
                assert(b =~= seq![b[0]] + b.drop_first());
            }
        }
    } else {
        assert(a.len() == 0 && b.len() == 0 ==> a =~= b);
    }
}

/// UTF-8 encoding loses nothing.
pub proof fn lemma_encode_injective(a: Text, b: Text)
    requires
        encode_utf8(a) == encode_utf8(b),
    ensures
        a == b,
{
    encode_utf8_decode_utf8(a);
    encode_utf8_decode_utf8(b);
}

pub proof fn lemma_text_less_irreflexive(a: Text)
    ensures
        !text_less(a, a),
{
    lemma_bytes_less_irreflexive(encode_utf8(a));
}

pub proof fn lemma_text_less_transitive(a: Text, b: Text, c: Text)
    requires
        text_less(a, b),
        text_less(b, c),
    ensures
        text_less(a, c),
{
    lemma_bytes_less_transitive(encode_utf8(a), encode_utf8(b), encode_utf8(c));
}

pub proof fn lemma_text_less_total(a: Text, b: Text)
    ensures
        text_less(a, b) || text_less(b, a) || a == b,
{
    lemma_bytes_less_total(encode_utf8(a), encode_utf8(b));
    if encode_utf8(a) == encode_utf8(b) {
        lemma_encode_injective(a, b);
    }
}

pub proof fn lemma_text_less_asymmetric(a: Text, b: Text)
    requires
        text_less(a, b),
    ensures
        !text_less(b, a),
        a != b,
{
    if text_less(b, a) {
        lemma_text_less_transitive(a, b, a);
    }
    lemma_text_less_irreflexive(a);
}

/// Compares two texts by their UTF-8 bytes.
pub fn less(a: &str, b: &str) -> (r: bool)
    ensures
        r == text_less(a@, b@),
{
    let left: &[u8] = a.as_bytes();
    let right: &[u8] = b.as_bytes();
    let mut i: usize = 0;
    assert(left@.skip(0) =~= left@);
    assert(right@.skip(0) =~= right@);
    while i < left.len() && i < right.len()
        invariant
            i <= left@.len(),
            i <= right@.len(),
            left@ == encode_utf8(a@),
            right@ == encode_utf8(b@),
            bytes_less(left@, right@) == bytes_less(left@.skip(i as int), right@.skip(i as int)),
        decreases left@.len() - i,
    {
        let x: u8 = left[i];
        let y: u8 = right[i];
        proof {
            assert(left@.skip(i as int)[0] == x);
            assert(right@.skip(i as int)[0] == y);
            assert(left@.skip(i as int).drop_first() =~= left@.skip(i as int + 1));
            assert(right@.skip(i as int).drop_first() =~= right@.skip(i as int + 1));
        }
        if x != y {
            return x < y;
        }
        i = i + 1;
    }
    i < right.len()
}

/// The characters of a text.
pub fn chars_of(text: &str) -> (r: Vec<char>)
    ensures
        r@ == text@,
{
    let mut out: Vec<char> = Vec::new();
    for c in it: text.chars()
        invariant
            out@ =~= text@.take(it.index() as int),
            it.seq() == text@,
    {
        out.push(c);
    }
    out
}

/// The text that a slice of characters spells.
pub fn text_of(chars: &[char]) -> (r: String)
    ensures
        r@ == chars@,
{
    let mut out = String::new();
    let mut i: usize = 0;
    while i < chars.len()
        invariant
            i <= chars@.len(),
            out@ =~= chars@.take(i as int),
        decreases chars@.len() - i,
    {
        out.push(chars[i]);
        i = i + 1;
    }
    out
}

/// A copy of optional text.
pub fn copy_option(value: &Option<String>) -> (r: Option<String>)
    ensures
        r.deep_view() == value.deep_view(),
{
    match value {
        Some(text) => Some(text.clone()),
        None => None,
    }
}

/// Two optional texts are the same exactly when both are absent or both hold
/// the same characters.
pub fn same_option(a: &Option<String>, b: &Option<String>) -> (r: bool)
    ensures
        r == (a.deep_view() == b.deep_view()),
{
    match (a, b) {
        (Some(x), Some(y)) => *x == *y,
        (None, None) => true,
        _ => false,
    }
}

/// Two lists of texts hold the same texts in the same order.
pub fn same_list(a: &Vec<String>, b: &Vec<String>) -> (r: bool)
    ensures
        r == (a.deep_view() == b.deep_view()),
{
    if a.len() != b.len() {
        assert(a.deep_view().len() != b.deep_view().len());
        return false;
    }
    let mut i: usize = 0;
    while i < a.len()
        invariant
            i <= a@.len(),
            a@.len() == b@.len(),
            forall|j: int| 0 <= j < i ==> (#[trigger] a@[j])@ == b@[j]@,
        decreases a@.len() - i,
    {
        if a[i] != b[i] {
            assert(a.deep_view()[i as int] != b.deep_view()[i as int]);
            return false;
        }
        i = i + 1;
    }
    assert(a.deep_view() =~= b.deep_view());
    true
}

/// `needle` is one of the texts.
pub fn list_contains(items: &Vec<String>, needle: &str) -> (r: bool)
    ensures
        r == items.deep_view().contains(needle@),
{
    let mut i: usize = 0;
    while i < items.len()
        invariant
            i <= items@.len(),
            forall|j: int| 0 <= j < i ==> (#[trigger] items@[j])@ != needle@,
        decreases items@.len() - i,
    {
        if same(items[i].as_str(), needle) {
            assert(items.deep_view()[i as int] == needle@);
            return true;
        }
        i = i + 1;
    }
    assert forall|j: int| 0 <= j < items.deep_view().len() implies items.deep_view()[j]
        != needle@ by {
        assert(items@[j]@ != needle@);
    }
    false
}

pub fn copy_list(items: &Vec<String>) -> (r: Vec<String>)
    ensures
        r.deep_view() == items.deep_view(),
{
    let mut out: Vec<String> = Vec::new();
    let mut i: usize = 0;
    while i < items.len()
        invariant
            i <= items@.len(),
            out@.len() == i,
            forall|j: int| 0 <= j < i ==> (#[trigger] out@[j])@ == items@[j]@,
        decreases items@.len() - i,
    {
        out.push(items[i].clone());
        i = i + 1;
    }
    assert(out.deep_view() =~= items.deep_view());
    out
}

/// The decimal digit of a number below ten.
pub open spec fn digit(n: nat) -> char {
    if n == 0 {
        '0'
    } else if n == 1 {
        '1'
    } else if n == 2 {
        '2'
    } else if n == 3 {
        '3'
    } else if n == 4 {
        '4'
    } else if n == 5 {
        '5'
    } else if n == 6 {
        '6'
    } else if n == 7 {
        '7'
    } else if n == 8 {
        '8'
    } else {
        '9'
    }
}

/// A natural number in decimal, without leading zeros.
pub open spec fn decimal(n: nat) -> Text
    decreases n,
{
    if n < 10 {
        seq![digit(n)]
    } else {
        decimal(n / 10).push(digit(n % 10))
    }
}

/// An integer in decimal.
pub open spec fn decimal_int(n: int) -> Text {
    if n < 0 {
        seq!['-'] + decimal((-n) as nat)
    } else {
        decimal(n as nat)
    }
}

fn digit_of(n: u64) -> (r: char)
    requires
        n < 10,
    ensures
        r == digit(n as nat),
{
    match n {
        0 => '0',
        1 => '1',
        2 => '2',
        3 => '3',
        4 => '4',
        5 => '5',
        6 => '6',
        7 => '7',
        8 => '8',
        _ => '9',
    }
}

pub fn number(n: u64) -> (r: String)
    ensures
        r@ == decimal(n as nat),
    decreases n,
{
    if n < 10 {
        let mut out = String::new();
        out.push(digit_of(n));
        assert(out@ =~= seq![digit(n as nat)]);
        out
    } else {
        let mut out = number(n / 10);
        out.push(digit_of(n % 10));
        out
    }
}

pub fn number_i64(n: i64) -> (r: String)
    ensures
        r@ == decimal_int(n as int),
{
    if n < 0 {
        let magnitude: u64 = if n == i64::MIN {
            9223372036854775808u64
        } else {
            (-n) as u64
        };
        let mut sign = String::new();
        sign.push('-');
        assert(sign@ =~= seq!['-']);
        concat2(sign.as_str(), number(magnitude).as_str())
    } else {
        number(n as u64)
    }
}

/// The parts of a text between the separators: one more than it has
/// separators.
pub open spec fn split(text: Text, separator: char) -> Seq<Text>
    decreases text.len(),
{
    if text.len() == 0 {
        seq![Seq::<char>::empty()]
    } else {
        let before = split(text.drop_last(), separator);
        if text.last() == separator {
            before.push(Seq::empty())
        } else {
            before.drop_last().push(before.last().push(text.last()))
        }
    }
}

pub proof fn lemma_split_nonempty(text: Text, separator: char)
    ensures
        split(text, separator).len() > 0,
    decreases text.len(),
{
    if text.len() > 0 {
        lemma_split_nonempty(text.drop_last(), separator);
    }
}

pub fn split_on(text: &str, separator: char) -> (r: Vec<String>)
    ensures
        r.deep_view() == split(text@, separator),
{
    let chars = chars_of(text);
    let mut done: Vec<String> = Vec::new();
    let mut current = String::new();
    let mut i: usize = 0;
    proof {
        assert(text@.take(0) =~= Seq::<char>::empty());
        assert(done.deep_view().push(current@) =~= seq![Seq::<char>::empty()]);
    }
    while i < chars.len()
        invariant
            i <= chars@.len(),
            chars@ == text@,
            done.deep_view().push(current@) == split(text@.take(i as int), separator),
        decreases chars@.len() - i,
    {
        let c = chars[i];
        let ghost done_before = done.deep_view();
        let ghost current_before = current@;
        proof {
            assert(text@.take(i as int + 1).drop_last() =~= text@.take(i as int));
            assert(text@.take(i as int + 1).last() == c);
        }
        if c == separator {
            done.push(current);
            current = String::new();
            proof {
                assert(done.deep_view() =~= done_before.push(current_before));
            }
        } else {
            current.push(c);
            proof {
                assert(done_before.push(current_before).drop_last() =~= done_before);
                assert(done_before.push(current_before).last() == current_before);
            }
        }
        i = i + 1;
    }
    let ghost done_before = done.deep_view();
    let ghost current_before = current@;
    done.push(current);
    proof {
        assert(text@.take(i as int) =~= text@);
        assert(done.deep_view() =~= done_before.push(current_before));
    }
    done
}

/// The texts one after another, with a separator between each two.
pub open spec fn joined(items: Seq<Text>, separator: Text) -> Text
    decreases items.len(),
{
    if items.len() == 0 {
        Seq::empty()
    } else if items.len() == 1 {
        items[0]
    } else {
        joined(items.drop_last(), separator) + separator + items.last()
    }
}

pub fn join(items: &Vec<String>, separator: &str) -> (r: String)
    ensures
        r@ == joined(items.deep_view(), separator@),
{
    let mut out = String::new();
    let mut i: usize = 0;
    let ghost all = items.deep_view();
    proof {
        assert(all.take(0) =~= Seq::empty());
    }
    while i < items.len()
        invariant
            i <= items@.len(),
            all == items.deep_view(),
            out@ == joined(all.take(i as int), separator@),
        decreases items@.len() - i,
    {
        proof {
            assert(all.take(i as int + 1).drop_last() =~= all.take(i as int));
            assert(all.take(i as int + 1).last() == items@[i as int]@);
        }
        if i > 0 {
            out.append(separator);
        }
        out.append(items[i].as_str());
        proof {
            if i == 0 {
                assert(out@ =~= items@[0]@);
            }
        }
        i = i + 1;
    }
    proof {
        assert(all.take(i as int) =~= all);
    }
    out
}

/// `text` starts with `prefix`.
pub open spec fn has_prefix(text: Text, prefix: Text) -> bool {
    prefix.len() <= text.len() && text.take(prefix.len() as int) == prefix
}

pub fn starts_with(text: &str, prefix: &str) -> (r: bool)
    ensures
        r == has_prefix(text@, prefix@),
{
    let whole = chars_of(text);
    let start = chars_of(prefix);
    if start.len() > whole.len() {
        return false;
    }
    let mut i: usize = 0;
    while i < start.len()
        invariant
            i <= start@.len() <= whole@.len(),
            whole@ == text@,
            start@ == prefix@,
            forall|j: int| 0 <= j < i ==> whole@[j] == start@[j],
        decreases start@.len() - i,
    {
        if whole[i] != start[i] {
            assert(text@.take(prefix@.len() as int)[i as int] != prefix@[i as int]);
            return false;
        }
        i = i + 1;
    }
    assert(text@.take(prefix@.len() as int) =~= prefix@);
    true
}

/// `text` holds the character.
pub fn has_char(text: &str, c: char) -> (r: bool)
    ensures
        r == text@.contains(c),
{
    let whole = chars_of(text);
    let mut i: usize = 0;
    while i < whole.len()
        invariant
            i <= whole@.len(),
            whole@ == text@,
            forall|j: int| 0 <= j < i ==> whole@[j] != c,
        decreases whole@.len() - i,
    {
        if whole[i] == c {
            assert(text@[i as int] == c);
            return true;
        }
        i = i + 1;
    }
    false
}

/// The characters with the Unicode property White_Space.
pub open spec fn white_space(c: char) -> bool {
    let n = c as u32;
    ||| 0x9 <= n <= 0xd
    ||| n == 0x20
    ||| n == 0x85
    ||| n == 0xa0
    ||| n == 0x1680
    ||| 0x2000 <= n <= 0x200a
    ||| n == 0x2028
    ||| n == 0x2029
    ||| n == 0x202f
    ||| n == 0x205f
    ||| n == 0x3000
}

fn is_white_space(c: char) -> (r: bool)
    ensures
        r == white_space(c),
{
    let n: u32 = c as u32;
    (0x9 <= n && n <= 0xd) || n == 0x20 || n == 0x85 || n == 0xa0 || n == 0x1680 || (0x2000 <= n
        && n <= 0x200a) || n == 0x2028 || n == 0x2029 || n == 0x202f || n == 0x205f || n == 0x3000
}

/// The text without the white space at its start.
pub open spec fn trim_start(text: Text) -> Text
    decreases text.len(),
{
    if text.len() > 0 && white_space(text[0]) {
        trim_start(text.drop_first())
    } else {
        text
    }
}

/// The text without the white space at its end.
pub open spec fn trim_end(text: Text) -> Text
    decreases text.len(),
{
    if text.len() > 0 && white_space(text.last()) {
        trim_end(text.drop_last())
    } else {
        text
    }
}

/// The text without the white space at both of its ends.
pub open spec fn trimmed(text: Text) -> Text {
    trim_end(trim_start(text))
}

pub fn trim(text: &str) -> (r: String)
    ensures
        r@ == trimmed(text@),
{
    let whole = chars_of(text);
    let mut low: usize = 0;
    proof {
        assert(text@.skip(0) =~= text@);
    }
    while low < whole.len() && is_white_space(whole[low])
        invariant
            low <= whole@.len(),
            whole@ == text@,
            trim_start(text@) == trim_start(text@.skip(low as int)),
        decreases whole@.len() - low,
    {
        assert(text@.skip(low as int).drop_first() =~= text@.skip(low as int + 1));
        low = low + 1;
    }
    let ghost rest = text@.skip(low as int);
    assert(trim_start(text@) == rest);
    let mut high: usize = whole.len();
    assert(rest.take(high - low) =~= rest);
    while high > low && is_white_space(whole[high - 1])
        invariant
            low <= high <= whole@.len(),
            whole@ == text@,
            rest == text@.skip(low as int),
            trim_end(rest) == trim_end(rest.take(high - low)),
        decreases high,
    {
        assert(rest.take(high - low).drop_last() =~= rest.take(high - low - 1));
        high = high - 1;
    }
    let mut out: Vec<char> = Vec::new();
    let mut i: usize = low;
    while i < high
        invariant
            low <= i <= high <= whole@.len(),
            whole@ == text@,
            out@ =~= text@.subrange(low as int, i as int),
        decreases high - i,
    {
        out.push(whole[i]);
        i = i + 1;
    }
    assert(rest.take(high - low) =~= out@);
    text_of(out.as_slice())
}

/// An ASCII capital as the small letter; every other character as it is.
pub open spec fn ascii_lower(c: char) -> char {
    if 'A' <= c <= 'Z' {
        ((c as u8 + 32) as u8) as char
    } else {
        c
    }
}

/// The texts are the same but for the case of ASCII letters.
pub open spec fn same_but_case(a: Text, b: Text) -> bool {
    a.map_values(|c: char| ascii_lower(c)) == b.map_values(|c: char| ascii_lower(c))
}

fn lower(c: char) -> (r: char)
    ensures
        r == ascii_lower(c),
{
    if 'A' <= c && c <= 'Z' {
        let n: u8 = c as u8;
        (n + 32) as char
    } else {
        c
    }
}

pub fn same_ignoring_case(a: &str, b: &str) -> (r: bool)
    ensures
        r == same_but_case(a@, b@),
{
    let left = chars_of(a);
    let right = chars_of(b);
    let ghost f = |c: char| ascii_lower(c);
    if left.len() != right.len() {
        assert(a@.map_values(f).len() != b@.map_values(f).len());
        return false;
    }
    let mut i: usize = 0;
    while i < left.len()
        invariant
            i <= left@.len(),
            left@.len() == right@.len(),
            left@ == a@,
            right@ == b@,
            f == |c: char| ascii_lower(c),
            forall|j: int| 0 <= j < i ==> ascii_lower(left@[j]) == ascii_lower(right@[j]),
        decreases left@.len() - i,
    {
        if lower(left[i]) != lower(right[i]) {
            assert(a@.map_values(f)[i as int] != b@.map_values(f)[i as int]);
            return false;
        }
        i = i + 1;
    }
    assert(a@.map_values(f) =~= b@.map_values(f));
    true
}

/// What the `Debug` form of a text is.
pub uninterp spec fn quoted(text: Text) -> Text;

/// The `Debug` form of `str`, in double quotes with escapes. The contract only
/// names what std's formatter writes.
#[verifier::external_body]
pub(crate) fn quote(text: &str) -> (r: String)
    ensures
        r@ == quoted(text@),
{
    format!("{text:?}")
}

/// Every character is an ASCII one.
pub open spec fn all_ascii(text: Text) -> bool {
    forall|i: int| 0 <= i < text.len() ==> ((#[trigger] text[i]) as int) < 128
}

/// What `str::to_lowercase` gives of a text with characters beyond ASCII.
pub uninterp spec fn unicode_lowercased(text: Text) -> Text;

/// A text in lower case.
pub open spec fn lowercased(text: Text) -> Text {
    if all_ascii(text) {
        text.map_values(|c: char| ascii_lower(c))
    } else {
        unicode_lowercased(text)
    }
}

/// `str::to_lowercase`, the Unicode lower-case form. Of an ASCII text it is the
/// text with small letters in place of the capitals. Of any other text the
/// contract only names what std's tables give.
#[verifier::external_body]
pub(crate) fn lowercase(text: &str) -> (r: String)
    ensures
        all_ascii(text@) ==> r@ == text@.map_values(|c: char| ascii_lower(c)),
        !all_ascii(text@) ==> r@ == unicode_lowercased(text@),
{
    text.to_lowercase()
}

/// The parts of a text hold no separator, and with the separator between them
/// they are the text again.
pub proof fn law_parts_make_the_text(text: Text, separator: char)
    ensures
        joined(split(text, separator), seq![separator]) == text,
        forall|i: int|
            0 <= i < split(text, separator).len() ==> !(#[trigger] split(text, separator)[i]).contains(
                separator,
            ),
    decreases text.len(),
{
    let parts = split(text, separator);
    if text.len() == 0 {
        assert(text =~= Seq::empty());
        assert(parts[0] =~= Seq::<char>::empty());
    } else {
        let shorter = text.drop_last();
        let before = split(shorter, separator);
        law_parts_make_the_text(shorter, separator);
        lemma_split_nonempty(shorter, separator);
        if text.last() == separator {
            assert(parts.drop_last() =~= before);
            assert(joined(parts, seq![separator]) =~= text);
            assert forall|i: int| 0 <= i < parts.len() implies !(#[trigger] parts[i]).contains(
                separator,
            ) by {
                if i < before.len() {
                    assert(parts[i] == before[i]);
                }
            }
        } else {
            let part = before.last().push(text.last());
            assert(parts.drop_last() =~= before.drop_last());
            assert(parts.last() == part);
            assert(before[before.len() - 1] == before.last());
            assert(joined(parts, seq![separator]) =~= joined(before, seq![separator]).push(
                text.last(),
            )) by {
                if before.len() == 1 {
                    assert(parts[0] == part);
                }
            }
            assert(shorter.push(text.last()) =~= text);
            assert forall|i: int| 0 <= i < parts.len() implies !(#[trigger] parts[i]).contains(
                separator,
            ) by {
                if i < before.len() - 1 {
                    assert(parts[i] == before[i]);
                } else if parts[i].contains(separator) {
                    let k = choose|k: int| 0 <= k < part.len() && part[k] == separator;
                    assert(before.last()[k] == separator);
                    assert(before.last().contains(separator));
                }
            }
        }
    }
}

/// A trimmed text has no white space at either end, and is what stands between
/// the white space of the text.
pub proof fn law_trimmed_text_has_no_margin(text: Text)
    ensures
        trimmed(text).len() > 0 ==> !white_space(trimmed(text)[0]) && !white_space(
            trimmed(text).last(),
        ),
        exists|i: int, j: int|
            {
                &&& 0 <= i <= j <= text.len()
                &&& trimmed(text) == #[trigger] text.subrange(i, j)
                &&& forall|k: int|
                    0 <= k < i || j <= k < text.len() ==> white_space(#[trigger] text[k])
            },
        white_space(' ') && white_space('\t') && white_space('\n') && white_space('\r'),
        !white_space('#') && !white_space('!') && !white_space('/') && !white_space('a'),
{
    let rest = trim_start(text);
    let i = text.len() - rest.len();
    lemma_trim_start(text);
    lemma_trim_end(rest);
    let j = i + trimmed(text).len();
    assert(trimmed(text) =~= text.subrange(i, j));
    assert forall|k: int| 0 <= k < i || j <= k < text.len() implies white_space(
        #[trigger] text[k],
    ) by {
        if j <= k {
            assert(rest[k - i] == text[k]);
        }
    }
}

proof fn lemma_trim_start(text: Text)
    ensures
        trim_start(text).len() <= text.len(),
        trim_start(text) == text.skip(text.len() - trim_start(text).len()),
        trim_start(text).len() > 0 ==> !white_space(trim_start(text)[0]),
        forall|k: int|
            0 <= k < text.len() - trim_start(text).len() ==> white_space(#[trigger] text[k]),
    decreases text.len(),
{
    if text.len() > 0 && white_space(text[0]) {
        let rest = text.drop_first();
        lemma_trim_start(rest);
        let n = text.len() - trim_start(text).len();
        assert(rest.skip(n - 1) =~= text.skip(n));
        assert forall|k: int| 0 <= k < n implies white_space(#[trigger] text[k]) by {
            if k > 0 {
                assert(rest[k - 1] == text[k]);
            }
        }
    } else {
        assert(text.skip(0) =~= text);
    }
}

proof fn lemma_trim_end(text: Text)
    ensures
        trim_end(text).len() <= text.len(),
        trim_end(text) == text.take(trim_end(text).len() as int),
        trim_end(text).len() > 0 ==> !white_space(trim_end(text).last()),
        forall|k: int| trim_end(text).len() <= k < text.len() ==> white_space(#[trigger] text[k]),
    decreases text.len(),
{
    if text.len() > 0 && white_space(text.last()) {
        let shorter = text.drop_last();
        lemma_trim_end(shorter);
        let n = trim_end(text).len() as int;
        assert(shorter.take(n) =~= text.take(n));
        assert forall|k: int| n <= k < text.len() implies white_space(#[trigger] text[k]) by {
            if k < shorter.len() {
                assert(shorter[k] == text[k]);
            }
        }
    } else {
        assert(text.take(text.len() as int) =~= text);
    }
}

/// Texts are ordered by their bytes, and two texts are the same but for case
/// where they are in small letters: an ASCII capital is the letter 32 places
/// after it, and every other ASCII character is itself.
pub proof fn law_small_letters(text: Text)
    requires
        all_ascii(text),
    ensures
        lowercased(text).len() == text.len(),
        forall|i: int|
            0 <= i < text.len() ==> #[trigger] lowercased(text)[i] as int == (if 'A' <= text[i]
                <= 'Z' {
                text[i] as int + 32
            } else {
                text[i] as int
            }),
{
}

} // verus!
