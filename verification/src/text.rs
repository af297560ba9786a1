//! Text as sequences of characters: decimal numbers, words and trimming.

use vstd::prelude::*;
use vstd::string::StringExecFns;

verus! {

/// Why a text is not a number that fits.
#[derive(Clone, Copy, Debug, PartialEq, Eq, Structural)]
pub enum NumberError {
    /// There is no text at all.
    Empty,
    /// A character that is no digit, or a sign with nothing behind it.
    InvalidDigit,
    /// The digits stand for a number above the limit.
    TooLarge,
}

impl NumberError {
    /// The reason in words.
    pub open spec fn message_text(self) -> Seq<char> {
        match self {
            NumberError::Empty => "cannot parse integer from empty string"@,
            NumberError::InvalidDigit => "invalid digit found in string"@,
            NumberError::TooLarge => "number too large to fit in target type"@,
        }
    }

    /// The reason in words.
    pub fn message(self) -> (text: &'static str)
        ensures
            text@ == self.message_text(),
    {
        match self {
            NumberError::Empty => "cannot parse integer from empty string",
            NumberError::InvalidDigit => "invalid digit found in string",
            NumberError::TooLarge => "number too large to fit in target type",
        }
    }
}

/// Whether `c` is one of the ASCII digits.
pub open spec fn is_digit(c: char) -> bool {
    '0' <= c && c <= '9'
}

/// Whether `c` has the Unicode property `White_Space`.
pub open spec fn is_space(c: char) -> bool {
    ||| '\u{9}' <= c && c <= '\u{d}'
    ||| c == '\u{20}'
    ||| c == '\u{85}'
    ||| c == '\u{a0}'
    ||| c == '\u{1680}'
    ||| '\u{2000}' <= c && c <= '\u{200a}'
    ||| c == '\u{2028}'
    ||| c == '\u{2029}'
    ||| c == '\u{202f}'
    ||| c == '\u{205f}'
    ||| c == '\u{3000}'
}

/// The number that the digit `c` stands for.
pub open spec fn digit_value(c: char) -> nat {
    (c as int - '0' as int) as nat
}

/// The digit that stands for the number `d`.
pub open spec fn digit_char(d: nat) -> char {
    ('0' as int + d) as char
}

/// The decimal text of `n`, without leading zeros.
pub open spec fn decimal(n: nat) -> Seq<char>
    decreases n,
{
    if n < 10 {
        seq![digit_char(n)]
    } else {
        decimal(n / 10).push(digit_char(n % 10))
    }
}

/// The number that a run of digits stands for.
pub open spec fn value(s: Seq<char>) -> nat
    decreases s.len(),
{
    if s.len() == 0 {
        0
    } else {
        value(s.drop_last()) * 10 + digit_value(s.last())
    }
}

/// The length of the longest prefix of `s` whose characters all satisfy `pred`.
pub open spec fn prefix_len(s: Seq<char>, pred: spec_fn(char) -> bool) -> nat
    decreases s.len(),
{
    if s.len() > 0 && pred(s[0]) {
        1 + prefix_len(s.drop_first(), pred)
    } else {
        0
    }
}

/// `s` without a leading plus sign.
pub open spec fn unsigned_part(s: Seq<char>) -> Seq<char> {
    if s.len() > 0 && s[0] == '+' {
        s.drop_first()
    } else {
        s
    }
}

/// The digits at the front of `s`.
pub open spec fn leading_digits(s: Seq<char>) -> Seq<char> {
    s.take(prefix_len(s, |c: char| is_digit(c)) as int)
}

/// What `s` reads as: an optional plus sign, then decimal digits and nothing else, for a number
/// of at most `max`.
pub open spec fn parse_number(s: Seq<char>, max: nat) -> Result<nat, NumberError> {
    let body = unsigned_part(s);
    let digits = leading_digits(body);
    if s.len() == 0 {
        Err(NumberError::Empty)
    } else if value(digits) > max {
        Err(NumberError::TooLarge)
    } else if digits.len() == 0 || digits.len() < body.len() {
        Err(NumberError::InvalidDigit)
    } else {
        Ok(value(digits))
    }
}

/// `s` without the white space at its front.
pub open spec fn trim_front(s: Seq<char>) -> Seq<char> {
    s.skip(prefix_len(s, |c: char| is_space(c)) as int)
}

/// `s` without the white space at its back.
pub open spec fn trim_back(s: Seq<char>) -> Seq<char>
    decreases s.len(),
{
    if s.len() > 0 && is_space(s.last()) {
        trim_back(s.drop_last())
    } else {
        s
    }
}

/// `s` without the white space at either end.
pub open spec fn trimmed(s: Seq<char>) -> Seq<char> {
    trim_back(trim_front(s))
}

/// The length of the first word of a text that starts with it.
pub open spec fn word_len(s: Seq<char>) -> nat {
    prefix_len(s, |c: char| !is_space(c))
}

/// The first word of `s` (a longest run without white space), empty where there is none.
pub open spec fn first_word(s: Seq<char>) -> Seq<char> {
    trim_front(s).take(word_len(trim_front(s)) as int)
}

/// What follows the first word of `s`.
pub open spec fn after_first_word(s: Seq<char>) -> Seq<char> {
    trim_front(s).skip(word_len(trim_front(s)) as int)
}

/// The digits of `s`, in order, with everything else left out.
pub open spec fn only_digits(s: Seq<char>) -> Seq<char> {
    s.filter(|c: char| is_digit(c))
}

/// The characters of each text of a list.
pub open spec fn views(v: Seq<String>) -> Seq<Seq<char>> {
    v.map_values(|s: String| s@)
}

/// A text behind a list of texts.
pub proof fn lemma_views_push(v: Seq<String>, s: String)
    ensures
        views(v.push(s)) == views(v).push(s@),
{
    assert(views(v.push(s)) =~= views(v).push(s@));
}

proof fn lemma_digit_char(d: nat)
    requires
        d < 10,
    ensures
        is_digit(digit_char(d)),
        digit_value(digit_char(d)) == d,
{
}

/// `k` is the prefix length if every character before `k` satisfies `pred` and the one at `k`,
/// if any, does not.
pub proof fn lemma_prefix_len_is(s: Seq<char>, pred: spec_fn(char) -> bool, k: int)
    requires
        0 <= k <= s.len(),
        forall|i: int| 0 <= i < k ==> pred(#[trigger] s[i]),
        k < s.len() ==> !pred(s[k]),
    ensures
        prefix_len(s, pred) == k,
    decreases s.len(),
{
    if k > 0 {
        let rest = s.drop_first();
        assert forall|i: int| 0 <= i < k - 1 implies pred(#[trigger] rest[i]) by {
            assert(rest[i] == s[i + 1]);
        }
        lemma_prefix_len_is(rest, pred, k - 1);
    }
}

/// A prefix length fits its text, holds for what lies before it and stops at what lies behind.
pub proof fn lemma_prefix_len(s: Seq<char>, pred: spec_fn(char) -> bool)
    ensures
        prefix_len(s, pred) <= s.len(),
        forall|i: int| 0 <= i < prefix_len(s, pred) ==> pred(#[trigger] s[i]),
        prefix_len(s, pred) < s.len() ==> !pred(s[prefix_len(s, pred) as int]),
    decreases s.len(),
{
    if s.len() > 0 && pred(s[0]) {
        let rest = s.drop_first();
        lemma_prefix_len(rest, pred);
        assert forall|i: int| 0 <= i < prefix_len(s, pred) implies pred(#[trigger] s[i]) by {
            if i > 0 {
                assert(rest[i - 1] == s[i]);
            }
        }
    }
}

/// More digits never stand for a smaller number.
proof fn lemma_value_grows(s: Seq<char>, k: int)
    requires
        0 <= k <= s.len(),
    ensures
        value(s.take(k)) <= value(s),
    decreases s.len(),
{
    if k == s.len() {
        assert(s.take(k) == s);
    } else {
        lemma_value_grows(s.drop_last(), k);
        assert(s.drop_last().take(k) == s.take(k));
    }
}

/// The first `k` characters are the leading digits if they are digits and no digit follows.
proof fn lemma_leading_digits_are(s: Seq<char>, k: int)
    requires
        0 <= k <= s.len(),
        forall|i: int| 0 <= i < k ==> is_digit(#[trigger] s[i]),
        k < s.len() ==> !is_digit(s[k]),
    ensures
        leading_digits(s) == s.take(k),
{
    lemma_prefix_len_is(s, |c: char| is_digit(c), k);
}

/// Some of the leading digits never stand for more than all of them.
proof fn lemma_value_of_leading_digits(s: Seq<char>, k: int)
    requires
        0 <= k <= s.len(),
        forall|i: int| 0 <= i < k ==> is_digit(#[trigger] s[i]),
    ensures
        value(s.take(k)) <= value(leading_digits(s)),
{
    let pred = |c: char| is_digit(c);
    lemma_prefix_len(s, pred);
    let p = prefix_len(s, pred) as int;
    assert(k <= p) by {
        if p < k {
            assert(pred(s[p]));
        }
    }
    lemma_value_grows(leading_digits(s), k);
    assert(leading_digits(s).take(k) == s.take(k));
}

/// The decimal text of a number is digits only, and they stand for that number.
pub proof fn lemma_decimal(n: nat)
    ensures
        decimal(n).len() > 0,
        forall|i: int| 0 <= i < decimal(n).len() ==> is_digit(#[trigger] decimal(n)[i]),
        value(decimal(n)) == n,
    decreases n,
{
    lemma_digit_char(n % 10);
    if n >= 10 {
        lemma_decimal(n / 10);
        assert(decimal(n).drop_last() == decimal(n / 10));
    } else {
        assert(decimal(n).drop_last() == Seq::<char>::empty());
        assert(value(Seq::<char>::empty()) == 0);
    }
}

/// A number that fits reads back from its decimal text.
pub proof fn law_decimal_reads_back(n: nat, max: nat)
    requires
        n <= max,
    ensures
        parse_number(decimal(n), max) == Ok::<nat, NumberError>(n),
{
    let s = decimal(n);
    lemma_decimal(n);
    assert(is_digit(s[0]));
    assert(unsigned_part(s) == s);
    lemma_prefix_len_is(s, |c: char| is_digit(c), s.len() as int);
    assert(leading_digits(s) == s);
}

/// The characters of a text, one by one.
pub fn chars_of(s: &str) -> (v: Vec<char>)
    ensures
        v@ == s@,
{
    let mut v: Vec<char> = Vec::new();
    for c in it: s.chars()
        invariant
            v@ == s@.take(it.index() as int),
            it.seq() == s@,
    {
        v.push(c);
        assert(v@ == s@.take(it.index() as int + 1));
    }
    v
}

/// Whether two texts hold the same characters.
pub fn same_chars(a: &Vec<char>, b: &Vec<char>) -> (same: bool)
    ensures
        same == (a@ == b@),
{
    if a.len() != b.len() {
        return false;
    }
    let mut i: usize = 0;
    while i < a.len()
        invariant
            i <= a.len(),
            a.len() == b.len(),
            forall|j: int| 0 <= j < i ==> a@[j] == b@[j],
        decreases a.len() - i,
    {
        if a[i] != b[i] {
            return false;
        }
        i = i + 1;
    }
    assert(a@ =~= b@);
    true
}

/// Whether a character is white space.
pub fn is_space_char(c: char) -> (b: bool)
    ensures
        b == is_space(c),
{
    ('\u{9}' <= c && c <= '\u{d}') || c == '\u{20}' || c == '\u{85}' || c == '\u{a0}' || c
        == '\u{1680}' || ('\u{2000}' <= c && c <= '\u{200a}') || c == '\u{2028}' || c == '\u{2029}'
        || c == '\u{202f}' || c == '\u{205f}' || c == '\u{3000}'
}

/// Reads a number of at most `max`.
pub fn read_number(v: &Vec<char>, max: u64) -> (r: Result<u64, NumberError>)
    ensures
        match r {
            Ok(n) => parse_number(v@, max as nat) == Ok::<nat, NumberError>(n as nat),
            Err(e) => parse_number(v@, max as nat) == Err::<nat, NumberError>(e),
        },
{
    if v.len() == 0 {
        return Err(NumberError::Empty);
    }
    let from: usize = if v[0] == '+' { 1 } else { 0 };
    let ghost body = unsigned_part(v@);
    assert(body == v@.skip(from as int));
    let mut i: usize = from;
    let mut n: u64 = 0;
    while i < v.len() && '0' <= v[i] && v[i] <= '9'
        invariant
            from <= i <= v.len(),
            v.len() > 0,
            body == unsigned_part(v@),
            body == v@.skip(from as int),
            forall|j: int| 0 <= j < i - from ==> is_digit(#[trigger] body[j]),
            n == value(body.take(i - from)),
            n <= max,
        decreases v.len() - i,
    {
        let d: u64 = v[i] as u64 - '0' as u64;
        proof {
            let k = i - from;
            assert(body[k] == v@[i as int]);
            assert(body.take(k + 1).drop_last() == body.take(k));
            assert(body.take(k + 1).last() == body[k]);
            assert(value(body.take(k + 1)) == n * 10 + d);
            lemma_value_of_leading_digits(body, k + 1);
        }
        if n > max / 10 || d > max - n * 10 {
            return Err(NumberError::TooLarge);
        }
        n = n * 10 + d;
        i = i + 1;
    }
    proof {
        if i < v.len() {
            assert(body[i - from] == v@[i as int]);
        }
        lemma_leading_digits_are(body, i - from);
    }
    if i == from || i < v.len() {
        Err(NumberError::InvalidDigit)
    } else {
        Ok(n)
    }
}

/// The characters from `from` up to, and without, `to`.
pub fn copy_range(v: &Vec<char>, from: usize, to: usize) -> (part: Vec<char>)
    requires
        from <= to <= v.len(),
    ensures
        part@ == v@.subrange(from as int, to as int),
{
    let mut part: Vec<char> = Vec::new();
    let mut i: usize = from;
    while i < to
        invariant
            from <= i <= to <= v.len(),
            part@ == v@.subrange(from as int, i as int),
        decreases to - i,
    {
        part.push(v[i]);
        i = i + 1;
        assert(part@ == v@.subrange(from as int, i as int));
    }
    part
}

/// Where the white space that starts at `from` ends.
fn space_end(v: &Vec<char>, from: usize) -> (end: usize)
    requires
        from <= v.len(),
    ensures
        from <= end <= v.len(),
        v@.skip(end as int) == trim_front(v@.skip(from as int)),
{
    let ghost s = v@.skip(from as int);
    let mut i: usize = from;
    while i < v.len() && is_space_char(v[i])
        invariant
            from <= i <= v.len(),
            s == v@.skip(from as int),
            forall|j: int| 0 <= j < i - from ==> is_space(#[trigger] s[j]),
        decreases v.len() - i,
    {
        assert(s[i - from] == v@[i as int]);
        i = i + 1;
    }
    proof {
        if i < v.len() {
            assert(s[i - from] == v@[i as int]);
        }
        lemma_prefix_len_is(s, |c: char| is_space(c), i - from);
        assert(s.skip(i - from) == v@.skip(i as int));
    }
    i
}

/// Where the first word at or behind `from` starts and ends.
pub fn next_word(v: &Vec<char>, from: usize) -> (bounds: (usize, usize))
    requires
        from <= v.len(),
    ensures
        from <= bounds.0 <= bounds.1 <= v.len(),
        v@.subrange(bounds.0 as int, bounds.1 as int) == first_word(v@.skip(from as int)),
        v@.skip(bounds.1 as int) == after_first_word(v@.skip(from as int)),
{
    let start: usize = space_end(v, from);
    let ghost s = v@.skip(start as int);
    let mut i: usize = start;
    while i < v.len() && !is_space_char(v[i])
        invariant
            start <= i <= v.len(),
            s == v@.skip(start as int),
            forall|j: int| 0 <= j < i - start ==> !is_space(#[trigger] s[j]),
        decreases v.len() - i,
    {
        assert(s[i - start] == v@[i as int]);
        i = i + 1;
    }
    proof {
        if i < v.len() {
            assert(s[i - start] == v@[i as int]);
        }
        lemma_prefix_len_is(s, |c: char| !is_space(c), i - start);
        assert(s.take(i - start) == v@.subrange(start as int, i as int));
        assert(s.skip(i - start) == v@.skip(i as int));
    }
    (start, i)
}

/// The text without the white space at either end.
pub fn trim_chars(v: &Vec<char>) -> (part: Vec<char>)
    ensures
        part@ == trimmed(v@),
{
    assert(v@.skip(0) == v@);
    let start: usize = space_end(v, 0);
    let mut end: usize = v.len();
    assert(v@.subrange(start as int, end as int) == v@.skip(start as int));
    while end > start && is_space_char(v[end - 1])
        invariant
            start <= end <= v.len(),
            trim_back(v@.subrange(start as int, end as int)) == trimmed(v@),
        decreases end,
    {
        assert(v@.subrange(start as int, end as int).drop_last() == v@.subrange(
            start as int,
            end - 1,
        ));
        end = end - 1;
    }
    copy_range(v, start, end)
}

/// The digits of the text, in order.
pub fn digits_of(v: &Vec<char>) -> (digits: Vec<char>)
    ensures
        digits@ == only_digits(v@),
{
    let ghost pred = |c: char| is_digit(c);
    let mut digits: Vec<char> = Vec::new();
    let mut i: usize = 0;
    assert(v@.take(0) == Seq::<char>::empty());
    reveal(Seq::filter);
    while i < v.len()
        invariant
            i <= v.len(),
            pred == (|c: char| is_digit(c)),
            digits@ == v@.take(i as int).filter(pred),
        decreases v.len() - i,
    {
        proof {
            assert(v@.take(i + 1).drop_last() == v@.take(i as int));
            assert(v@.take(i + 1).last() == v@[i as int]);
            reveal(Seq::filter);
        }
        if '0' <= v[i] && v[i] <= '9' {
            digits.push(v[i]);
        }
        i = i + 1;
    }
    assert(v@.take(i as int) == v@);
    digits
}

/// Reads the whole text as a number that fits `usize`.
pub fn read_usize(v: &Vec<char>) -> (r: Result<usize, NumberError>)
    ensures
        match r {
            Ok(n) => parse_number(v@, usize::MAX as nat) == Ok::<nat, NumberError>(n as nat),
            Err(e) => parse_number(v@, usize::MAX as nat) == Err::<nat, NumberError>(e),
        },
{
    match read_number(v, usize::MAX as u64) {
        Ok(n) => Ok(n as usize),
        Err(e) => Err(e),
    }
}

/// Appends one digit.
fn push_digit(out: &mut String, d: u64)
    requires
        d < 10,
    ensures
        final(out)@ == old(out)@.push(digit_char(d as nat)),
{
    proof {
        reveal_strlit("0");
        reveal_strlit("1");
        reveal_strlit("2");
        reveal_strlit("3");
        reveal_strlit("4");
        reveal_strlit("5");
        reveal_strlit("6");
        reveal_strlit("7");
        reveal_strlit("8");
        reveal_strlit("9");
    }
    let digit: &str = match d {
        0 => "0",
        1 => "1",
        2 => "2",
        3 => "3",
        4 => "4",
        5 => "5",
        6 => "6",
        7 => "7",
        8 => "8",
        _ => "9",
    };
    assert(digit@ == seq![digit_char(d as nat)]);
    out.append(digit);
    assert(out@ == old(out)@.push(digit_char(d as nat)));
}

/// Appends the decimal text of `n`.
pub fn push_decimal(out: &mut String, n: u64)
    ensures
        final(out)@ == old(out)@ + decimal(n as nat),
    decreases n,
{
    if n >= 10 {
        push_decimal(out, n / 10);
    }
    push_digit(out, n % 10);
    assert(out@ == old(out)@ + decimal(n as nat));
}

/// A digit behind a run of digits makes ten of the number and adds itself; no digits are zero.
pub proof fn law_value_is_decimal(s: Seq<char>, c: char)
    requires
        '0' <= c && c <= '9',
    ensures
        value(Seq::<char>::empty()) == 0,
        value(s.push(c)) == 10 * value(s) + (c as int - '0' as int),
{
    assert(s.push(c).drop_last() == s);
}

/// A text reads as a number exactly if it is digits behind at most one plus sign, and they stand
/// for no more than the limit. Otherwise the first thing wrong with it, from the front, decides:
/// nothing there, a character that is no digit, or digits that already exceed the limit.
pub proof fn law_number_shape(s: Seq<char>, body: Seq<char>, max: nat)
    requires
        s == seq!['+'] + body || (s == body && (s.len() > 0 ==> s[0] != '+')),
    ensures
        match parse_number(s, max) {
            Ok(n) => {
                &&& body.len() > 0
                &&& forall|i: int|
                    0 <= i < body.len() ==> '0' <= #[trigger] body[i] && body[i] <= '9'
                &&& n == value(body)
                &&& n <= max
            },
            Err(NumberError::Empty) => s.len() == 0,
            Err(NumberError::TooLarge) => exists|k: int|
                {
                    &&& 0 < k <= body.len()
                    &&& value(#[trigger] body.take(k)) > max
                    &&& forall|i: int| 0 <= i < k ==> '0' <= #[trigger] body[i] && body[i] <= '9'
                },
            Err(NumberError::InvalidDigit) => s.len() > 0 && exists|k: int|
                {
                    &&& 0 <= k <= body.len()
                    &&& value(#[trigger] body.take(k)) <= max
                    &&& forall|i: int| 0 <= i < k ==> '0' <= #[trigger] body[i] && body[i] <= '9'
                    &&& if k < body.len() {
                        !('0' <= body[k] && body[k] <= '9')
                    } else {
                        k == 0
                    }
                },
        },
{
    assert(unsigned_part(s) == body) by {
        if s == seq!['+'] + body {
            assert(s[0] == '+');
            assert(s.drop_first() =~= body);
        }
    }
    let pred = |c: char| is_digit(c);
    lemma_prefix_len(body, pred);
    let k = prefix_len(body, pred) as int;
    assert forall|i: int| 0 <= i < k implies '0' <= #[trigger] body[i] && body[i] <= '9' by {
        assert(pred(body[i]));
    }
    assert(leading_digits(body) == body.take(k));
    assert(value(Seq::<char>::empty()) == 0);
    if k == 0 {
        assert(body.take(k) == Seq::<char>::empty());
    }
    if k == body.len() {
        assert(body.take(k) == body);
    }
}

/// The decimal text of a number has no leading zero.
pub proof fn law_decimal_is_plain(n: nat)
    ensures
        n < 10 ==> decimal(n).len() == 1,
        n > 0 ==> decimal(n)[0] != '0',
    decreases n,
{
    if n >= 10 {
        law_decimal_is_plain(n / 10);
        lemma_decimal(n / 10);
        assert(decimal(n)[0] == decimal(n / 10)[0]);
    }
}

/// Of the ASCII characters, the space and those from tab to carriage return are white space.
pub proof fn law_ascii_space(c: char)
    requires
        c <= '\u{7f}',
    ensures
        is_space(c) == (c == ' ' || ('\t' <= c && c <= '\r')),
{
}

proof fn lemma_trim_back(w: Seq<char>, b: Seq<char>)
    requires
        forall|i: int| 0 <= i < b.len() ==> is_space(#[trigger] b[i]),
        w.len() > 0 ==> !is_space(w.last()),
    ensures
        trim_back(w + b) == w,
    decreases b.len(),
{
    if b.len() == 0 {
        assert(w + b == w);
    } else {
        assert((w + b).last() == b[b.len() - 1]);
        assert((w + b).drop_last() == w + b.drop_last());
        lemma_trim_back(w, b.drop_last());
    }
}

/// Trimming takes the white space before and behind a text and nothing else.
pub proof fn law_trimmed(a: Seq<char>, w: Seq<char>, b: Seq<char>)
    requires
        forall|i: int| 0 <= i < a.len() ==> is_space(#[trigger] a[i]),
        forall|i: int| 0 <= i < b.len() ==> is_space(#[trigger] b[i]),
        w.len() > 0 ==> !is_space(w[0]) && !is_space(w[w.len() - 1]),
    ensures
        trimmed(a + w + b) == w,
{
    let s = a + w + b;
    let pred = |c: char| is_space(c);
    if w.len() > 0 {
        assert forall|i: int| 0 <= i < a.len() implies pred(#[trigger] s[i]) by {
            assert(s[i] == a[i]);
        }
        assert(s[a.len() as int] == w[0]);
        lemma_prefix_len_is(s, pred, a.len() as int);
        assert(trim_front(s) == w + b);
        lemma_trim_back(w, b);
    } else {
        assert forall|i: int| 0 <= i < s.len() implies pred(#[trigger] s[i]) by {
            if i < a.len() {
                assert(s[i] == a[i]);
            } else {
                assert(s[i] == b[i - a.len()]);
            }
        }
        lemma_prefix_len_is(s, pred, s.len() as int);
        assert(trim_front(s) == Seq::<char>::empty());
        assert(w == Seq::<char>::empty());
    }
}

/// The first word lies between white space, and what follows it is kept as it is.
pub proof fn law_first_word(a: Seq<char>, w: Seq<char>, rest: Seq<char>)
    requires
        forall|i: int| 0 <= i < a.len() ==> is_space(#[trigger] a[i]),
        forall|i: int| 0 <= i < w.len() ==> !is_space(#[trigger] w[i]),
        rest.len() > 0 ==> w.len() > 0 && is_space(rest[0]),
    ensures
        first_word(a + w + rest) == w,
        after_first_word(a + w + rest) == rest,
{
    let s = a + w + rest;
    let spaces = |c: char| is_space(c);
    let others = |c: char| !is_space(c);
    assert forall|i: int| 0 <= i < a.len() implies spaces(#[trigger] s[i]) by {
        assert(s[i] == a[i]);
    }
    if w.len() > 0 {
        assert(s[a.len() as int] == w[0]);
    }
    lemma_prefix_len_is(s, spaces, a.len() as int);
    let u = trim_front(s);
    assert(u == w + rest);
    assert forall|i: int| 0 <= i < w.len() implies others(#[trigger] u[i]) by {
        assert(u[i] == w[i]);
    }
    if rest.len() > 0 {
        assert(u[w.len() as int] == rest[0]);
    }
    lemma_prefix_len_is(u, others, w.len() as int);
    assert(u.take(w.len() as int) == w);
    assert(u.skip(w.len() as int) == rest);
}

/// Of each character a digit stays and anything else goes, whatever stands around it.
pub proof fn law_only_digits(s: Seq<char>, t: Seq<char>, c: char)
    ensures
        only_digits(s + t) == only_digits(s) + only_digits(t),
        only_digits(seq![c]) == if '0' <= c && c <= '9' {
            seq![c]
        } else {
            Seq::<char>::empty()
        },
        only_digits(Seq::<char>::empty()) == Seq::<char>::empty(),
{
    let pred = |c: char| is_digit(c);
    Seq::filter_distributes_over_add(s, t, pred);
    reveal(Seq::filter);
    assert(seq![c].drop_last() == Seq::<char>::empty());
    assert(Seq::<char>::empty().filter(pred) == Seq::<char>::empty());
    assert(only_digits(seq![c]) =~= if is_digit(c) {
        seq![c]
    } else {
        Seq::<char>::empty()
    });
}

/// A number that is read never exceeds the limit.
pub proof fn law_number_fits(s: Seq<char>, max: nat)
    ensures
        parse_number(s, max) matches Ok(n) ==> n <= max,
{
}

/// The texts of a list, each in its place and whole.
pub proof fn law_views(v: Seq<String>)
    ensures
        views(v).len() == v.len(),
        forall|i: int| 0 <= i < v.len() ==> #[trigger] views(v)[i] == v[i]@,
{
}

}
