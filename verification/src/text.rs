//! Text as sequences of characters: order, joining, and the pieces of std that the parsers use.
use vstd::prelude::*;

verus! {

broadcast use vstd::string::group_string_axioms;

/// The texts of a sequence of strings.
pub open spec fn texts(strings: Seq<String>) -> Seq<Seq<char>> {
    strings.map_values(|s: String| s@)
}

/// Whether `a` comes before `b`: character by character, a prefix before what extends it.
pub open spec fn before(a: Seq<char>, b: Seq<char>) -> bool
    decreases a.len(),
{
    if a.len() == 0 || b.len() == 0 {
        a.len() < b.len()
    } else if a[0] == b[0] {
        before(a.skip(1), b.skip(1))
    } else {
        (a[0] as int) < (b[0] as int)
    }
}

/// The parts one after the other, with `separator` between two of them.
pub open spec fn joined(parts: Seq<Seq<char>>, separator: Seq<char>) -> Seq<char>
    decreases parts.len(),
{
    if parts.len() == 0 {
        Seq::empty()
    } else if parts.len() == 1 {
        parts[0]
    } else {
        joined(parts.drop_last(), separator) + separator + parts.last()
    }
}

/// Whether `text` begins with `prefix`.
pub open spec fn has_prefix(text: Seq<char>, prefix: Seq<char>) -> bool {
    prefix.len() <= text.len() && text.take(prefix.len() as int) == prefix
}

/// The name of the pair of a base and a quote currency.
pub open spec fn pair_text(base: Seq<char>, quote: Seq<char>) -> Seq<char> {
    base + seq!['/'] + quote
}

/// Whether all characters are ASCII.
pub open spec fn plain(text: Seq<char>) -> bool {
    forall|i: int| 0 <= i < text.len() ==> (#[trigger] text[i] as int) < 128
}

/// An ASCII letter in lower case, any other character as it is.
pub open spec fn lower_letter(c: char) -> char {
    if 'A' as int <= c as int <= 'Z' as int {
        (c as int - 'A' as int + 'a' as int) as char
    } else {
        c
    }
}

/// An ASCII letter in upper case, any other character as it is.
pub open spec fn upper_letter(c: char) -> char {
    if 'a' as int <= c as int <= 'z' as int {
        (c as int - 'a' as int + 'A' as int) as char
    } else {
        c
    }
}

/// A text with other than ASCII characters in lower case.
pub uninterp spec fn unicode_lower_case(text: Seq<char>) -> Seq<char>;

/// The text in lower case: letter by letter where all characters are ASCII.
pub open spec fn lower_case(text: Seq<char>) -> Seq<char> {
    if plain(text) {
        text.map_values(|c: char| lower_letter(c))
    } else {
        unicode_lower_case(text)
    }
}

/// `str::to_lowercase`: letter by letter in a text of ASCII characters. What becomes of any other text
/// depends on the text alone; it is named, not described.
pub assume_specification[ str::to_lowercase ](s: &str) -> (r: String)
    ensures
        plain(s@) ==> r@ == s@.map_values(|c: char| lower_letter(c)),
        !plain(s@) ==> r@ == unicode_lower_case(s@),
;

/// A text with other than ASCII characters in upper case.
pub uninterp spec fn unicode_upper_case(text: Seq<char>) -> Seq<char>;

/// The text in upper case: letter by letter where all characters are ASCII.
pub open spec fn upper_case(text: Seq<char>) -> Seq<char> {
    if plain(text) {
        text.map_values(|c: char| upper_letter(c))
    } else {
        unicode_upper_case(text)
    }
}

/// `str::to_uppercase`: letter by letter in a text of ASCII characters. What becomes of any other text
/// depends on the text alone; it is named, not described.
pub assume_specification[ str::to_uppercase ](s: &str) -> (r: String)
    ensures
        plain(s@) ==> r@ == s@.map_values(|c: char| upper_letter(c)),
        !plain(s@) ==> r@ == unicode_upper_case(s@),
;

/// White space: the characters with the Unicode property of that name.
pub open spec fn is_white(c: char) -> bool {
    let n = c as int;
    ||| 0x9 <= n <= 0xd
    ||| n == 0x20
    ||| n == 0x85
    ||| n == 0xa0
    ||| n == 0x1680
    ||| 0x2000 <= n <= 0x200a
    ||| n == 0x2028
    ||| n == 0x2029
    ||| n == 0x202f
    ||| n == 0x205f
    ||| n == 0x3000
}

/// The text without the white space at both ends.
pub open spec fn trimmed(text: Seq<char>) -> Seq<char>
    decreases text.len(),
{
    if text.len() == 0 {
        text
    } else if is_white(text[0]) {
        trimmed(text.skip(1))
    } else if is_white(text.last()) {
        trimmed(text.drop_last())
    } else {
        text
    }
}

/// `str::trim`: the text without the white space at both ends.
pub assume_specification[ str::trim ](s: &str) -> (r: &str)
    ensures
        r@ == trimmed(s@),
;

/// The words of a text, those between white space.
pub open spec fn words_of(text: Seq<char>) -> Seq<Seq<char>>
    decreases text.len(),
{
    if text.len() == 0 {
        Seq::empty()
    } else {
        let words = words_of(text.drop_last());
        if is_white(text.last()) {
            words
        } else if text.len() == 1 || is_white(text[text.len() - 2]) {
            words.push(seq![text.last()])
        } else {
            words.drop_last().push(words.last().push(text.last()))
        }
    }
}

/// `str::split_whitespace`, its items as strings: the words of the text.
#[verifier::external_body]
pub(crate) fn split_words(text: &str) -> (r: Vec<String>)
    ensures
        texts(r@) == words_of(text@),
{
    text.split_whitespace().map(String::from).collect()
}

/// The number that decimal digits stand for; none where a character is no digit.
pub open spec fn digits_value(digits: Seq<char>) -> Option<nat>
    decreases digits.len(),
{
    if digits.len() == 0 {
        Some(0)
    } else {
        match digits_value(digits.drop_last()) {
            Some(v) => if '0' as int <= digits.last() as int <= '9' as int {
                Some((v * 10 + (digits.last() as int - '0' as int)) as nat)
            } else {
                None
            },
            None => None,
        }
    }
}

/// The number that a text without a sign stands for: at least one digit, and digits alone.
pub open spec fn whole_number(digits: Seq<char>) -> Option<nat> {
    if digits.len() == 0 {
        None
    } else {
        digits_value(digits)
    }
}

/// The `u64` that a text stands for: digits, with or without a plus sign before them.
pub open spec fn parsed_u64(text: Seq<char>) -> Option<u64> {
    let digits = if text.len() > 0 && text[0] == '+' {
        text.skip(1)
    } else {
        text
    };
    match whole_number(digits) {
        Some(v) => if v <= u64::MAX {
            Some(v as u64)
        } else {
            None
        },
        None => None,
    }
}

/// The `i64` that a text stands for: digits, with or without a sign before them.
pub open spec fn parsed_i64(text: Seq<char>) -> Option<i64> {
    if text.len() > 0 && text[0] == '-' {
        match whole_number(text.skip(1)) {
            Some(v) => if -(v as int) >= i64::MIN {
                Some((-(v as int)) as i64)
            } else {
                None
            },
            None => None,
        }
    } else {
        match parsed_u64(text) {
            Some(v) => if v <= i64::MAX {
                Some(v as i64)
            } else {
                None
            },
            None => None,
        }
    }
}

/// Further digits make no number smaller.
proof fn lemma_digits_value(digits: Seq<char>, i: int)
    requires
        0 <= i <= digits.len(),
    ensures
        digits_value(digits) matches Some(v) ==> digits_value(digits.take(i)) is Some
            && digits_value(digits.take(i))->0 <= v,
    decreases digits.len(),
{
    if i == digits.len() {
        assert(digits.take(i) == digits);
    } else {
        lemma_digits_value(digits.drop_last(), i);
        assert(digits.drop_last().take(i) == digits.take(i));
    }
}

/// The number that the characters from a place on stand for, if it is a `u64`.
fn parse_digits(chars: &Vec<char>, from: usize) -> (r: Option<u64>)
    requires
        from <= chars@.len(),
    ensures
        match r {
            Some(v) => whole_number(chars@.skip(from as int)) == Some(v as nat),
            None => match whole_number(chars@.skip(from as int)) {
                Some(v) => v > u64::MAX,
                None => true,
            },
        },
{
    let ghost digits = chars@.skip(from as int);
    if from == chars.len() {
        return None;
    }
    let mut value: u64 = 0;
    let mut i: usize = from;
    assert(digits.take(0) == Seq::<char>::empty());
    while i < chars.len()
        invariant
            from <= i <= chars@.len(),
            digits == chars@.skip(from as int),
            digits_value(digits.take(i - from)) == Some(value as nat),
        decreases chars.len() - i,
    {
        let c: char = chars[i];
        let ghost next = digits.take(i + 1 - from);
        proof {
            assert(next.drop_last() == digits.take(i - from));
            assert(next.last() == c);
            lemma_digits_value(digits, i + 1 - from);
        }
        if !('0' <= c && c <= '9') {
            return None;
        }
        let digit: u64 = (c as u32 - 48) as u64;
        if value > (0xffff_ffff_ffff_ffff - digit) / 10 {
            return None;
        }
        value = value * 10 + digit;
        i = i + 1;
    }
    assert(digits.take(digits.len() as int) == digits);
    Some(value)
}

/// The `u64` that a text stands for.
pub(crate) fn parse_u64(text: &str) -> (r: Option<u64>)
    ensures
        r == parsed_u64(text@),
{
    let chars: Vec<char> = characters(text);
    if chars.len() > 0 && chars[0] == '+' {
        parse_digits(&chars, 1)
    } else {
        assert(chars@.skip(0) == chars@);
        parse_digits(&chars, 0)
    }
}

/// The `i64` that a text stands for.
pub(crate) fn parse_i64(text: &str) -> (r: Option<i64>)
    ensures
        r == parsed_i64(text@),
{
    let chars: Vec<char> = characters(text);
    if chars.len() > 0 && chars[0] == '-' {
        match parse_digits(&chars, 1) {
            Some(v) => if v <= 0x7fff_ffff_ffff_ffff {
                Some(-(v as i64))
            } else if v == 0x8000_0000_0000_0000 {
                Some(i64::MIN)
            } else {
                None
            },
            None => None,
        }
    } else {
        match parse_u64(text) {
            Some(v) => if v <= 0x7fff_ffff_ffff_ffff {
                Some(v as i64)
            } else {
                None
            },
            None => None,
        }
    }
}

/// The decimal digits of a number.
pub open spec fn number_text(n: nat) -> Seq<char>
    decreases n,
{
    if n < 10 {
        seq![(n + '0' as int) as char]
    } else {
        number_text(n / 10).push((n % 10 + '0' as int) as char)
    }
}

/// The digit of a number below ten.
fn digit_text(d: u64) -> (r: &'static str)
    requires
        d < 10,
    ensures
        r@ == seq![(d + '0' as int) as char],
{
    proof {
        reveal_strlit("0");
        reveal_strlit("1");
        reveal_strlit("2");
        reveal_strlit("3");
        reveal_strlit("4");
        reveal_strlit("5");
        reveal_strlit("6");
        reveal_strlit("7");
        reveal_strlit("8");
        reveal_strlit("9");
    }
    let r: &'static str = if d == 0 {
        "0"
    } else if d == 1 {
        "1"
    } else if d == 2 {
        "2"
    } else if d == 3 {
        "3"
    } else if d == 4 {
        "4"
    } else if d == 5 {
        "5"
    } else if d == 6 {
        "6"
    } else if d == 7 {
        "7"
    } else if d == 8 {
        "8"
    } else {
        "9"
    };
    assert(r@ =~= seq![(d + '0' as int) as char]);
    r
}

/// The decimal digits of a number.
pub fn format_u64(n: u64) -> (r: String)
    ensures
        r@ == number_text(n as nat),
    decreases n,
{
    if n < 10 {
        digit_text(n).to_owned()
    } else {
        let mut r: String = format_u64(n / 10);
        let ghost head = r@;
        r.append(digit_text(n % 10));
        assert(r@ =~= head.push((n % 10 + '0' as int) as char));
        r
    }
}

/// The decimal digits of a whole number, with a sign before those of a negative one.
pub open spec fn signed_text(n: int) -> Seq<char> {
    if n < 0 {
        seq!['-'] + number_text((-n) as nat)
    } else {
        number_text(n as nat)
    }
}

/// The decimal digits of a whole number.
pub fn format_i64(n: i64) -> (r: String)
    ensures
        r@ == signed_text(n as int),
{
    if n < 0 {
        proof {
            reveal_strlit("-");
            assert("-"@ =~= seq!['-']);
        }
        let mut r: String = "-".to_owned();
        let digits: String = format_u64((-(n as i128)) as u64);
        r.append(digits.as_str());
        r
    } else {
        format_u64(n as u64)
    }
}

/// The digits of a number stand for it.
pub proof fn lemma_number_text(n: nat)
    ensures
        digits_value(number_text(n)) == Some(n),
        number_text(n).len() > 0,
        '0' as int <= number_text(n)[0] as int <= '9' as int,
    decreases n,
{
    let t = number_text(n);
    if n < 10 {
        assert(t.drop_last() =~= Seq::<char>::empty());
        assert(digits_value(t.drop_last()) == Some(0nat));
    } else {
        lemma_number_text(n / 10);
        assert(t.drop_last() =~= number_text(n / 10));
    }
}

/// What stands for a number is made of digits.
pub proof fn lemma_all_digits(digits: Seq<char>)
    requires
        digits_value(digits) is Some,
    ensures
        forall|i: int|
            0 <= i < digits.len() ==> '0' as int <= (#[trigger] digits[i]) as int <= '9' as int,
    decreases digits.len(),
{
    if digits.len() > 0 {
        lemma_all_digits(digits.drop_last());
        assert forall|i: int| 0 <= i < digits.len() implies '0' as int <= (
        #[trigger] digits[i]) as int <= '9' as int by {
            if i < digits.len() - 1 {
                assert(digits.drop_last()[i] == digits[i]);
            }
        }
    }
}

/// A number that was written is read back.
pub proof fn lemma_number_read_back(n: u64)
    ensures
        parsed_u64(number_text(n as nat)) == Some(n),
{
    lemma_number_text(n as nat);
}

/// A whole number that was written is read back.
pub proof fn lemma_signed_read_back(n: i64)
    ensures
        parsed_i64(signed_text(n as int)) == Some(n),
{
    if n < 0 {
        let digits = number_text((-n) as nat);
        lemma_number_text((-n) as nat);
        assert(signed_text(n as int).skip(1) =~= digits);
    } else {
        lemma_number_text(n as nat);
    }
}

/// The `usize` that a text stands for.
pub open spec fn parsed_usize(text: Seq<char>) -> Option<usize> {
    match parsed_u64(text) {
        Some(v) => if v <= usize::MAX {
            Some(v as usize)
        } else {
            None
        },
        None => None,
    }
}

/// The `usize` that a text stands for.
pub(crate) fn parse_usize(text: &str) -> (r: Option<usize>)
    ensures
        r == parsed_usize(text@),
{
    match parse_u64(text) {
        Some(v) => if v <= usize::MAX as u64 {
            Some(v as usize)
        } else {
            None
        },
        None => None,
    }
}

/// The parts of a text between the places where `separator` stands.
pub open spec fn split_by(text: Seq<char>, separator: char) -> Seq<Seq<char>>
    decreases text.len(),
{
    if text.len() == 0 {
        seq![Seq::empty()]
    } else {
        let rest = split_by(text.drop_last(), separator);
        if text.last() == separator {
            rest.push(Seq::empty())
        } else {
            rest.drop_last().push(rest.last().push(text.last()))
        }
    }
}

proof fn lemma_split_by(text: Seq<char>, separator: char)
    ensures
        split_by(text, separator).len() > 0,
    decreases text.len(),
{
    if text.len() > 0 {
        lemma_split_by(text.drop_last(), separator);
    }
}

/// The parts of a text between the places where `separator` stands.
pub(crate) fn split_at_char(text: &str, separator: char) -> (r: Vec<String>)
    ensures
        texts(r@) == split_by(text@, separator),
{
    let chars: Vec<char> = characters(text);
    let mut r: Vec<String> = Vec::new();
    let mut from: usize = 0;
    let mut i: usize = 0;
    proof {
        assert(chars@.take(0) == Seq::<char>::empty());
        assert(texts(r@).push(Seq::<char>::empty()) == seq![Seq::<char>::empty()]);
        assert(chars@.subrange(0, 0) == Seq::<char>::empty());
    }
    while i < chars.len()
        invariant
            from <= i <= chars.len(),
            chars@ == text@,
            texts(r@).push(chars@.subrange(from as int, i as int)) == split_by(
                chars@.take(i as int),
                separator,
            ),
        decreases chars.len() - i,
    {
        let ghost head = chars@.take(i + 1);
        let ghost parts = texts(r@);
        let ghost part = chars@.subrange(from as int, i as int);
        proof {
            assert(head.drop_last() == chars@.take(i as int) && head.last() == chars@[i as int]);
            assert(parts.push(part).drop_last() == parts);
            lemma_split_by(chars@.take(i as int), separator);
        }
        if chars[i] == separator {
            r.push(text.substring_char(from, i).to_owned());
            from = i + 1;
            proof {
                assert(texts(r@) == parts.push(part));
                assert(chars@.subrange(from as int, i + 1) == Seq::<char>::empty());
            }
        } else {
            assert(chars@.subrange(from as int, i + 1) == part.push(chars@[i as int]));
        }
        i = i + 1;
    }
    let ghost parts = texts(r@);
    let n: usize = chars.len();
    r.push(text.substring_char(from, n).to_owned());
    proof {
        assert(chars@.take(n as int) == chars@);
        assert(texts(r@) == parts.push(chars@.subrange(from as int, n as int)));
    }
    r
}

/// Equality of `str`: the same characters.
pub assume_specification[ <str as PartialEq<str>>::eq ](a: &str, b: &str) -> (r: bool)
    ensures
        r == (a@ == b@),
;

/// The characters of a text.
pub(crate) fn characters(text: &str) -> (r: Vec<char>)
    ensures
        r@ == text@,
{
    let mut r: Vec<char> = Vec::new();
    for c in it: text.chars()
        invariant
            r@ == it.seq().take(it.index() as int),
            it.seq() == text@,
    {
        r.push(c);
        assert(it.seq().take(it.index() + 1) == it.seq().take(it.index() as int).push(c));
    }
    assert(text@.take(text@.len() as int) == text@);
    r
}

/// `before` looks at the two texts from the first place on at which they differ.
proof fn lemma_before_from(a: Seq<char>, b: Seq<char>, i: int)
    requires
        0 <= i <= a.len(),
        i <= b.len(),
        a.take(i) == b.take(i),
    ensures
        before(a, b) == before(a.skip(i), b.skip(i)),
    decreases i,
{
    if i == 0 {
        assert(a.skip(0) == a && b.skip(0) == b);
    } else {
        assert(a[0] == a.take(i)[0] && b[0] == b.take(i)[0]);
        assert(a.skip(1).take(i - 1) == a.take(i).skip(1));
        assert(b.skip(1).take(i - 1) == b.take(i).skip(1));
        lemma_before_from(a.skip(1), b.skip(1), i - 1);
        assert(a.skip(1).skip(i - 1) == a.skip(i));
        assert(b.skip(1).skip(i - 1) == b.skip(i));
    }
}

/// Whether `a` comes before `b`.
pub(crate) fn is_before(a: &str, b: &str) -> (r: bool)
    ensures
        r == before(a@, b@),
{
    let x: Vec<char> = characters(a);
    let y: Vec<char> = characters(b);
    let mut i: usize = 0;
    assert(x@.take(0) == y@.take(0));
    while i < x.len() && i < y.len() && x[i] == y[i]
        invariant
            x@ == a@,
            y@ == b@,
            i <= x.len(),
            i <= y.len(),
            x@.take(i as int) == y@.take(i as int),
        decreases x.len() - i,
    {
        assert(x@.take(i + 1) == x@.take(i as int).push(x@[i as int]));
        assert(y@.take(i + 1) == y@.take(i as int).push(y@[i as int]));
        i = i + 1;
    }
    proof {
        lemma_before_from(a@, b@, i as int);
        assert(i < x.len() ==> a@.skip(i as int)[0] == x@[i as int]);
        assert(i < y.len() ==> b@.skip(i as int)[0] == y@[i as int]);
    }
    if i == x.len() || i == y.len() {
        x.len() < y.len()
    } else {
        x[i] < y[i]
    }
}

/// Nothing comes before itself.
pub proof fn lemma_before_irreflexive(a: Seq<char>)
    ensures
        !before(a, a),
    decreases a.len(),
{
    if a.len() > 0 {
        lemma_before_irreflexive(a.skip(1));
    }
}

/// Of two texts one comes before the other unless they are the same.
pub proof fn lemma_before_total(a: Seq<char>, b: Seq<char>)
    ensures
        before(a, b) || before(b, a) || a == b,
    decreases a.len(),
{
    if a.len() > 0 && b.len() > 0 && a[0] == b[0] {
        lemma_before_total(a.skip(1), b.skip(1));
        if a.skip(1) == b.skip(1) {
            assert(a == seq![a[0]] + a.skip(1));
            assert(b == seq![b[0]] + b.skip(1));
        }
    } else if a.len() == 0 && b.len() == 0 {
        assert(a == b);
    }
}

/// What comes before a text comes before all that the text comes before.
pub proof fn lemma_before_transitive(a: Seq<char>, b: Seq<char>, c: Seq<char>)
    requires
        before(a, b),
        before(b, c),
    ensures
        before(a, c),
    decreases a.len(),
{
    if a.len() > 0 && b.len() > 0 && c.len() > 0 && a[0] == b[0] && b[0] == c[0] {
        lemma_before_transitive(a.skip(1), b.skip(1), c.skip(1));
    }
}

/// Whether `text` begins with `prefix`.
pub(crate) fn starts_with(text: &str, prefix: &str) -> (r: bool)
    ensures
        r == has_prefix(text@, prefix@),
{
    let t: Vec<char> = characters(text);
    let p: Vec<char> = characters(prefix);
    if p.len() > t.len() {
        return false;
    }
    let mut i: usize = 0;
    while i < p.len()
        invariant
            t@ == text@,
            p@ == prefix@,
            i <= p.len() <= t.len(),
            forall|j: int| 0 <= j < i ==> t@[j] == p@[j],
        decreases p.len() - i,
    {
        if t[i] != p[i] {
            assert(text@.take(prefix@.len() as int)[i as int] != prefix@[i as int]);
            return false;
        }
        i = i + 1;
    }
    assert(text@.take(prefix@.len() as int) == prefix@);
    true
}

/// The name of the pair of a base and a quote currency.
pub fn pair_name(base: &str, quote: &str) -> (r: String)
    ensures
        r@ == pair_text(base@, quote@),
{
    let mut r: String = base.to_owned();
    r.append("/");
    r.append(quote);
    proof {
        reveal_strlit("/");
        assert("/"@ == seq!['/']);
    }
    r
}

/// The parts one after the other, with `separator` between two of them.
pub fn join(parts: &Vec<String>, separator: &str) -> (r: String)
    ensures
        r@ == joined(texts(parts@), separator@),
{
    let mut r: String = String::new();
    let ghost all = texts(parts@);
    let mut i: usize = 0;
    assert(all.take(0) == Seq::<Seq<char>>::empty());
    while i < parts.len()
        invariant
            i <= parts.len(),
            all == texts(parts@),
            r@ == joined(all.take(i as int), separator@),
        decreases parts.len() - i,
    {
        let ghost head = all.take(i + 1);
        assert(head.drop_last() == all.take(i as int) && head.last() == parts@[i as int]@);
        if i > 0 {
            r.append(separator);
        }
        r.append(parts[i].as_str());
        assert(r@ == joined(head, separator@));
        i = i + 1;
    }
    assert(all.take(all.len() as int) == all);
    r
}

/// Whether a list holds the text.
pub(crate) fn contains_text(strings: &Vec<String>, text: &str) -> (r: bool)
    ensures
        r == texts(strings@).contains(text@),
{
    let mut i: usize = 0;
    while i < strings.len()
        invariant
            i <= strings.len(),
            forall|j: int| 0 <= j < i ==> texts(strings@)[j] != text@,
        decreases strings.len() - i,
    {
        if *strings[i].as_str() == *text {
            assert(texts(strings@)[i as int] == text@);
            return true;
        }
        assert(texts(strings@)[i as int] != text@);
        i = i + 1;
    }
    false
}

} // verus!
