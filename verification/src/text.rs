//! Text helpers over character sequences.
//!
//! Process names, labels and file names are compared, built and taken apart
//! here. Only ASCII letters have a case in what the engine compares: Windows
//! does not normalise the case of executable names.
use vstd::prelude::*;

verus! {

/// The lower-case form of an ASCII letter, any other character unchanged.
pub open spec fn ascii_lower(c: char) -> char {
    if 'A' <= c && c <= 'Z' {
        (c as u8 + 32) as char
    } else {
        c
    }
}

/// A text with its ASCII letters in lower case.
pub open spec fn lower(s: Seq<char>) -> Seq<char> {
    Seq::new(s.len(), |i: int| ascii_lower(s[i]))
}

/// The decimal digit of a number below ten.
pub open spec fn digit(d: nat) -> char {
    (48 + d) as char
}

/// The decimal notation of a number, without leading zeros.
pub open spec fn decimal(n: nat) -> Seq<char>
    decreases n,
{
    if n < 10 {
        seq![digit(n)]
    } else {
        decimal(n / 10).push(digit(n % 10))
    }
}

/// `n` zeros.
pub open spec fn zeros(n: nat) -> Seq<char> {
    Seq::new(n, |i: int| '0')
}

/// The decimal notation of a number, filled up with zeros to `width` digits.
pub open spec fn padded(n: nat, width: nat) -> Seq<char> {
    let digits = decimal(n);
    if digits.len() < width {
        zeros((width - digits.len()) as nat) + digits
    } else {
        digits
    }
}

pub open spec fn is_digit(c: char) -> bool {
    '0' <= c && c <= '9'
}

pub open spec fn all_digits(s: Seq<char>) -> bool {
    forall|i: int| 0 <= i < s.len() ==> is_digit(#[trigger] s[i])
}

/// The number that a sequence of decimal digits denotes.
pub open spec fn decimal_value(s: Seq<char>) -> nat
    decreases s.len(),
{
    if s.len() == 0 {
        0
    } else {
        decimal_value(s.drop_last()) * 10 + (s.last() as nat - 48) as nat
    }
}

/// The digits of a numeral, behind its optional plus sign.
pub open spec fn unsigned_body(s: Seq<char>) -> Seq<char> {
    if s.len() > 0 && s[0] == '+' {
        s.skip(1)
    } else {
        s
    }
}

/// The number that a numeral denotes, `None` where it is malformed or above
/// `max`.
pub open spec fn unsigned(s: Seq<char>, max: nat) -> Option<nat> {
    let body = unsigned_body(s);
    if body.len() > 0 && all_digits(body) && decimal_value(body) <= max {
        Some(decimal_value(body))
    } else {
        None
    }
}

/// The white space of Unicode.
pub open spec fn is_white(c: char) -> bool {
    ||| '\u{9}' <= c && c <= '\u{d}'
    ||| c == ' '
    ||| c == '\u{85}'
    ||| c == '\u{a0}'
    ||| c == '\u{1680}'
    ||| '\u{2000}' <= c && c <= '\u{200a}'
    ||| c == '\u{2028}'
    ||| c == '\u{2029}'
    ||| c == '\u{202f}'
    ||| c == '\u{205f}'
    ||| c == '\u{3000}'
}

/// A text without its leading white space.
pub open spec fn trimmed_start(s: Seq<char>) -> Seq<char>
    decreases s.len(),
{
    if s.len() > 0 && is_white(s[0]) {
        trimmed_start(s.skip(1))
    } else {
        s
    }
}

/// A text without its trailing white space.
pub open spec fn trimmed_end(s: Seq<char>) -> Seq<char>
    decreases s.len(),
{
    if s.len() > 0 && is_white(s.last()) {
        trimmed_end(s.drop_last())
    } else {
        s
    }
}

/// A text without the white space around it.
pub open spec fn trimmed(s: Seq<char>) -> Seq<char> {
    trimmed_end(trimmed_start(s))
}

/// A text without any repetition of `suffix` at its end.
pub open spec fn without_suffix(s: Seq<char>, suffix: Seq<char>) -> Seq<char>
    decreases s.len(),
{
    if suffix.len() > 0 && suffix.is_suffix_of(s) {
        without_suffix(s.take(s.len() - suffix.len()), suffix)
    } else {
        s
    }
}

/// The decimal notation of a number that may be negative.
pub open spec fn signed(n: int) -> Seq<char> {
    if n < 0 {
        seq!['-'] + decimal((-n) as nat)
    } else {
        decimal(n as nat)
    }
}

/// The index of the first occurrence of a character, the length of the text
/// where there is none.
pub open spec fn first_of(s: Seq<char>, c: char) -> int
    decreases s.len(),
{
    if s.len() == 0 || s[0] == c {
        0
    } else {
        1 + first_of(s.skip(1), c)
    }
}

/// The parts of a text between the occurrences of a character. There is always
/// one more than occurrences.
pub open spec fn split(s: Seq<char>, c: char) -> Seq<Seq<char>>
    decreases s.len(),
{
    let i = first_of(s, c);
    if 0 <= i < s.len() {
        seq![s.take(i)] + split(s.skip(i + 1), c)
    } else {
        seq![s]
    }
}

/// The texts that strings hold.
pub open spec fn texts(s: Seq<String>) -> Seq<Seq<char>> {
    Seq::new(s.len(), |i: int| s[i]@)
}

/// The characters of a string, in order.
pub fn chars_of(s: &str) -> (v: Vec<char>)
    ensures
        v@ == s@,
{
    let mut v: Vec<char> = Vec::new();
    for c in it: s.chars()
        invariant
            v@ == s@.take(it.index() as int),
            it.seq() == s@,
    {
        proof {
            assert(s@.take(it.index() as int).push(c) =~= s@.take(it.index() + 1));
        }
        v.push(c);
    }
    proof {
        assert(s@.take(s@.len() as int) =~= s@);
    }
    v
}

/// Copies strings.
pub fn copy_all(s: &Vec<String>) -> (r: Vec<String>)
    ensures
        texts(r@) == texts(s@),
{
    let mut r: Vec<String> = Vec::new();
    for i in 0..s.len()
        invariant
            r@.len() == i,
            forall|j: int| 0 <= j < i ==> (#[trigger] r@[j])@ == s@[j]@,
    {
        r.push(s[i].clone());
    }
    proof {
        assert(texts(r@) =~= texts(s@));
    }
    r
}

/// Whether two strings hold the same characters.
pub fn same(a: &str, b: &str) -> (r: bool)
    ensures
        r == (a@ == b@),
{
    let x = chars_of(a);
    let y = chars_of(b);
    if x.len() != y.len() {
        return false;
    }
    let mut i: usize = 0;
    while i < x.len()
        invariant
            x@ == a@,
            y@ == b@,
            x.len() == y.len(),
            i <= x.len(),
            forall|j: int| 0 <= j < i ==> x@[j] == y@[j],
        decreases x.len() - i,
    {
        if x[i] != y[i] {
            return false;
        }
        i = i + 1;
    }
    proof {
        assert(a@ =~= b@);
    }
    true
}

fn lower_char(c: char) -> (r: char)
    ensures
        r == ascii_lower(c),
{
    if c >= 'A' && c <= 'Z' {
        (c as u8 + 32) as char
    } else {
        c
    }
}

/// Whether two strings are equal up to the case of ASCII letters.
pub fn eq_ignore_ascii_case(a: &str, b: &str) -> (r: bool)
    ensures
        r == (lower(a@) == lower(b@)),
{
    let x = chars_of(a);
    let y = chars_of(b);
    if x.len() != y.len() {
        proof {
            assert(lower(a@).len() != lower(b@).len());
        }
        return false;
    }
    let mut i: usize = 0;
    while i < x.len()
        invariant
            x@ == a@,
            y@ == b@,
            x.len() == y.len(),
            i <= x.len(),
            forall|j: int| 0 <= j < i ==> ascii_lower(x@[j]) == ascii_lower(y@[j]),
        decreases x.len() - i,
    {
        if lower_char(x[i]) != lower_char(y[i]) {
            proof {
                assert(lower(a@)[i as int] != lower(b@)[i as int]);
            }
            return false;
        }
        i = i + 1;
    }
    proof {
        assert(lower(a@) =~= lower(b@));
    }
    true
}

/// Whether a string begins with a prefix.
pub fn starts_with(s: &str, prefix: &str) -> (r: bool)
    ensures
        r == prefix@.is_prefix_of(s@),
{
    let x = chars_of(s);
    let p = chars_of(prefix);
    if p.len() > x.len() {
        return false;
    }
    let mut i: usize = 0;
    while i < p.len()
        invariant
            x@ == s@,
            p@ == prefix@,
            p.len() <= x.len(),
            i <= p.len(),
            forall|j: int| 0 <= j < i ==> x@[j] == p@[j],
        decreases p.len() - i,
    {
        if x[i] != p[i] {
            proof {
                assert(s@.subrange(0, prefix@.len() as int)[i as int] != prefix@[i as int]);
            }
            return false;
        }
        i = i + 1;
    }
    proof {
        assert(prefix@ =~= s@.subrange(0, prefix@.len() as int));
    }
    true
}

fn ends_with(s: &str, suffix: &str) -> (r: bool)
    ensures
        r == suffix@.is_suffix_of(s@),
{
    let x = chars_of(s);
    let p = chars_of(suffix);
    if p.len() > x.len() {
        return false;
    }
    let base: usize = x.len() - p.len();
    let mut i: usize = 0;
    while i < p.len()
        invariant
            x@ == s@,
            p@ == suffix@,
            p.len() <= x.len(),
            base == x.len() - p.len(),
            i <= p.len(),
            forall|j: int| 0 <= j < i ==> x@[base + j] == p@[j],
        decreases p.len() - i,
    {
        if x[base + i] != p[i] {
            proof {
                assert(s@.subrange(s@.len() - suffix@.len(), s@.len() as int)[i as int]
                    != suffix@[i as int]);
            }
            return false;
        }
        i = i + 1;
    }
    proof {
        assert(suffix@ =~= s@.subrange(s@.len() - suffix@.len(), s@.len() as int));
    }
    true
}

/// Strips every repetition of `suffix` from the end of a string.
pub fn trim_end_matches(s: &str, suffix: &str) -> (r: String)
    ensures
        r@ == without_suffix(s@, suffix@),
    decreases s@.len(),
{
    let n: usize = s.unicode_len();
    let m: usize = suffix.unicode_len();
    if m > 0 && ends_with(s, suffix) {
        let head = s.substring_char(0, n - m);
        proof {
            assert(head@ =~= s@.take(s@.len() - suffix@.len()));
        }
        trim_end_matches(head, suffix)
    } else {
        s.to_owned()
    }
}

fn white(c: char) -> (r: bool)
    ensures
        r == is_white(c),
{
    (c >= '\u{9}' && c <= '\u{d}') || c == ' ' || c == '\u{85}' || c == '\u{a0}' || c == '\u{1680}'
        || (c >= '\u{2000}' && c <= '\u{200a}') || c == '\u{2028}' || c == '\u{2029}' || c
        == '\u{202f}' || c == '\u{205f}' || c == '\u{3000}'
}

/// Strips the white space around a string.
pub fn trim(s: &str) -> (r: String)
    ensures
        r@ == trimmed(s@),
{
    let x = chars_of(s);
    let mut from: usize = 0;
    proof {
        assert(s@.skip(0) =~= s@);
    }
    while from < x.len() && white(x[from])
        invariant
            x@ == s@,
            from <= x.len(),
            trimmed_start(s@) == trimmed_start(s@.skip(from as int)),
        decreases x.len() - from,
    {
        proof {
            assert(s@.skip(from as int).skip(1) =~= s@.skip(from + 1));
        }
        from = from + 1;
    }
    let ghost head = s@.skip(from as int);
    proof {
        assert(trimmed_start(s@) == head);
    }
    let mut to: usize = x.len();
    proof {
        assert(head.take(to - from) =~= head);
    }
    while to > from && white(x[to - 1])
        invariant
            x@ == s@,
            head == s@.skip(from as int),
            from <= to <= x.len(),
            trimmed_end(head) == trimmed_end(head.take(to - from)),
        decreases to,
    {
        proof {
            assert(head.take(to - from).drop_last() =~= head.take(to - from - 1));
        }
        to = to - 1;
    }
    proof {
        assert(head.take(to - from) =~= s@.subrange(from as int, to as int));
        if to > from {
            assert(head.take(to - from).last() == x@[to - 1]);
        }
    }
    s.substring_char(from, to).to_owned()
}

/// The one-character string of a decimal digit.
fn digit_str(d: usize) -> (r: &'static str)
    requires
        d < 10,
    ensures
        r@ == seq![digit(d as nat)],
{
    let digits: &'static str = "0123456789";
    proof {
        reveal_strlit("0123456789");
        assert(digits@[0] == '0' && digits@[1] == '1' && digits@[2] == '2' && digits@[3] == '3'
            && digits@[4] == '4' && digits@[5] == '5' && digits@[6] == '6' && digits@[7] == '7'
            && digits@[8] == '8' && digits@[9] == '9');
        assert(digits@[d as int] == digit(d as nat));
    }
    let r = digits.substring_char(d, d + 1);
    proof {
        assert(r@ =~= seq![digit(d as nat)]);
    }
    r
}

/// Writes a number in decimal.
pub fn decimal_text(n: u64) -> (r: String)
    ensures
        r@ == decimal(n as nat),
    decreases n,
{
    if n < 10 {
        digit_str(n as usize).to_owned()
    } else {
        let mut head = decimal_text(n / 10);
        let last = digit_str((n % 10) as usize);
        head.append(last);
        proof {
            assert(head@ =~= decimal(n as nat));
        }
        head
    }
}

/// Writes a number in decimal with at least `width` digits.
pub fn padded_text(n: u64, width: usize) -> (r: String)
    ensures
        r@ == padded(n as nat, width as nat),
{
    let digits = decimal_text(n);
    let len: usize = digits.as_str().unicode_len();
    let mut r = String::new();
    let mut missing: usize = if len < width {
        width - len
    } else {
        0
    };
    let ghost fill = missing as nat;
    proof {
        reveal_strlit("0");
        assert(r@ =~= zeros(0));
    }
    while missing > 0
        invariant
            missing <= fill,
            r@ == zeros((fill - missing) as nat),
            "0"@ =~= seq!['0'],
        decreases missing,
    {
        r.append("0");
        proof {
            assert(r@ =~= zeros((fill - missing + 1) as nat));
        }
        missing = missing - 1;
    }
    r.append(digits.as_str());
    proof {
        assert(r@ =~= padded(n as nat, width as nat));
    }
    r
}

/// A number in decimal notation consists of digits only, at least one, and
/// denotes itself.
pub proof fn decimal_denotes(n: nat)
    ensures
        decimal(n).len() > 0,
        all_digits(decimal(n)),
        decimal_value(decimal(n)) == n,
    decreases n,
{
    if n < 10 {
        assert(decimal(n).drop_last() =~= Seq::<char>::empty());
        assert(decimal_value(decimal(n).drop_last()) == 0);
    } else {
        decimal_denotes(n / 10);
        assert(decimal(n).drop_last() =~= decimal(n / 10));
        assert(decimal(n).last() == digit(n % 10));
    }
}

/// Leading zeros do not change what digits denote.
pub proof fn zeros_denote_nothing(k: nat, s: Seq<char>)
    requires
        all_digits(s),
    ensures
        all_digits(zeros(k) + s),
        decimal_value(zeros(k) + s) == decimal_value(s),
    decreases k + s.len(),
{
    if s.len() > 0 {
        zeros_denote_nothing(k, s.drop_last());
        assert((zeros(k) + s).drop_last() =~= zeros(k) + s.drop_last());
    } else if k > 0 {
        zeros_denote_nothing((k - 1) as nat, s);
        assert((zeros(k) + s).drop_last() =~= zeros((k - 1) as nat) + s);
    } else {
        assert(zeros(k) + s =~= s);
    }
}

/// Reading back a written number gives that number, whatever its padding.
pub proof fn reading_undoes_writing(n: nat, width: nat, max: nat)
    requires
        n <= max,
    ensures
        unsigned(decimal(n), max) == Some(n),
        unsigned(padded(n, width), max) == Some(n),
{
    decimal_denotes(n);
    assert(is_digit(decimal(n)[0]));
    assert(unsigned_body(decimal(n)) == decimal(n));
    if decimal(n).len() < width {
        let k = (width - decimal(n).len()) as nat;
        zeros_denote_nothing(k, decimal(n));
        assert(is_digit(padded(n, width)[0]));
    }
}

proof fn prefix_below(s: Seq<char>, i: int)
    requires
        0 <= i <= s.len(),
    ensures
        decimal_value(s.take(i)) <= decimal_value(s),
    decreases s.len() - i,
{
    if i < s.len() {
        prefix_below(s, i + 1);
        assert(s.take(i + 1).drop_last() =~= s.take(i));
    } else {
        assert(s.take(i) =~= s);
    }
}

/// Reads an unsigned number up to `max`: an optional plus sign, then digits.
pub fn parse_unsigned(s: &str, max: u64) -> (r: Option<u64>)
    ensures
        match r {
            Some(n) => unsigned(s@, max as nat) == Some(n as nat),
            None => unsigned(s@, max as nat) is None,
        },
{
    let x = chars_of(s);
    let from: usize = if x.len() > 0 && x[0] == '+' {
        1
    } else {
        0
    };
    let ghost body = unsigned_body(s@);
    proof {
        assert(body =~= s@.skip(from as int));
    }
    if from >= x.len() {
        return None;
    }
    let mut value: u64 = 0;
    let mut i: usize = from;
    proof {
        assert(body.take(0) =~= Seq::<char>::empty());
    }
    while i < x.len()
        invariant
            x@ == s@,
            from <= i <= x.len(),
            from < x.len(),
            body == s@.skip(from as int),
            body == unsigned_body(s@),
            forall|j: int| 0 <= j < i - from ==> is_digit(#[trigger] body[j]),
            value == decimal_value(body.take(i - from)),
            value <= max,
        decreases x.len() - i,
    {
        let c = x[i];
        proof {
            assert(body[i - from] == c);
            assert(body.take(i - from + 1).drop_last() =~= body.take(i - from));
            prefix_below(body, i - from + 1);
        }
        if c < '0' || c > '9' {
            return None;
        }
        let d: u64 = c as u64 - 48;
        if value > (u64::MAX - d) / 10 {
            return None;
        }
        let next: u64 = value * 10 + d;
        if next > max {
            return None;
        }
        value = next;
        i = i + 1;
    }
    proof {
        assert(body.take(body.len() as int) =~= body);
    }
    Some(value)
}

/// Writes a number that may be negative in decimal.
pub fn signed_text(n: i64) -> (r: String)
    ensures
        r@ == signed(n as int),
{
    if n < 0 {
        let mut r = "-".to_owned();
        let magnitude: u64 = (-(n as i128)) as u64;
        r.append(decimal_text(magnitude).as_str());
        proof {
            reveal_strlit("-");
            assert("-"@ =~= seq!['-']);
        }
        r
    } else {
        decimal_text(n as u64)
    }
}

proof fn first_found(s: Seq<char>, c: char, i: int)
    requires
        0 <= i <= s.len(),
        i < s.len() ==> s[i] == c,
        forall|j: int| 0 <= j < i ==> s[j] != c,
    ensures
        first_of(s, c) == i,
    decreases s.len(),
{
    if i > 0 {
        first_found(s.skip(1), c, i - 1);
    }
}

/// Splits a string at the occurrences of a character.
pub fn split_on(s: &str, c: char) -> (r: Vec<String>)
    ensures
        texts(r@) == split(s@, c),
{
    let x = chars_of(s);
    let mut r: Vec<String> = Vec::new();
    let mut from: usize = 0;
    let mut i: usize = 0;
    proof {
        assert(s@.skip(0) =~= s@);
        assert(texts(r@) + split(s@, c) =~= split(s@, c));
    }
    while i < x.len()
        invariant
            x@ == s@,
            from <= i <= x.len(),
            forall|j: int| from <= j < i ==> s@[j] != c,
            split(s@, c) == texts(r@) + split(s@.skip(from as int), c),
        decreases x.len() - i,
    {
        if x[i] == c {
            let ghost rest = s@.skip(from as int);
            let ghost before = texts(r@);
            let part = s.substring_char(from, i).to_owned();
            proof {
                first_found(rest, c, i - from);
                assert(part@ =~= rest.take(i - from));
                assert(rest.skip(i - from + 1) =~= s@.skip(i + 1));
            }
            r.push(part);
            proof {
                assert(texts(r@) =~= before.push(part@));
                assert(before + (seq![part@] + split(s@.skip(i + 1), c)) =~= texts(r@) + split(
                    s@.skip(i + 1),
                    c,
                ));
            }
            from = i + 1;
        }
        i = i + 1;
    }
    let ghost rest = s@.skip(from as int);
    let ghost before = texts(r@);
    let part = s.substring_char(from, i).to_owned();
    proof {
        first_found(rest, c, rest.len() as int);
        assert(part@ =~= rest);
    }
    r.push(part);
    proof {
        assert(texts(r@) =~= before + seq![part@]);
    }
    r
}

/// Stripping a suffix strips all of it: what is left does not end in it, so that
/// stripping it again changes nothing.
pub proof fn suffix_is_gone(s: Seq<char>, suffix: Seq<char>)
    ensures
        suffix.len() > 0 ==> !suffix.is_suffix_of(without_suffix(s, suffix)),
        without_suffix(without_suffix(s, suffix), suffix) == without_suffix(s, suffix),
    decreases s.len(),
{
    if suffix.len() > 0 && suffix.is_suffix_of(s) {
        suffix_is_gone(s.take(s.len() - suffix.len()), suffix);
    }
}

/// Two texts are equal up to case exactly where they have the same length and,
/// place by place, the same character or the two cases of one ASCII letter.
pub proof fn case_alone_is_ignored(s: Seq<char>, t: Seq<char>)
    ensures
        lower(s) == lower(t) <==> {
            &&& s.len() == t.len()
            &&& forall|i: int|
                0 <= i < s.len() ==> {
                    ||| #[trigger] s[i] == t[i]
                    ||| 'A' <= s[i] && s[i] <= 'Z' && t[i] as int == s[i] as int + 32
                    ||| 'A' <= t[i] && t[i] <= 'Z' && s[i] as int == t[i] as int + 32
                }
        },
{
    let (a, b) = (lower(s), lower(t));
    if a == b {
        assert(a.len() == s.len() && b.len() == t.len());
        assert forall|i: int| 0 <= i < s.len() implies {
            ||| #[trigger] s[i] == t[i]
            ||| 'A' <= s[i] && s[i] <= 'Z' && t[i] as int == s[i] as int + 32
            ||| 'A' <= t[i] && t[i] <= 'Z' && s[i] as int == t[i] as int + 32
        } by {
            assert(a[i] == ascii_lower(s[i]) && b[i] == ascii_lower(t[i]));
            lower_letters(s[i]);
            lower_letters(t[i]);
        }
    } else if s.len() == t.len() && forall|i: int|
        0 <= i < s.len() ==> {
            ||| #[trigger] s[i] == t[i]
            ||| 'A' <= s[i] && s[i] <= 'Z' && t[i] as int == s[i] as int + 32
            ||| 'A' <= t[i] && t[i] <= 'Z' && s[i] as int == t[i] as int + 32
        } {
        assert forall|i: int| 0 <= i < s.len() implies a[i] == b[i] by {
            assert(a[i] == ascii_lower(s[i]) && b[i] == ascii_lower(t[i]));
            lower_letters(s[i]);
            lower_letters(t[i]);
        }
        assert(a =~= b);
    }
}

proof fn lower_letters(c: char)
    ensures
        'A' <= c && c <= 'Z' ==> ascii_lower(c) as int == c as int + 32,
        !('A' <= c && c <= 'Z') ==> ascii_lower(c) == c,
{
}

/// Writing a number and one more digit behind it multiplies it by ten and adds the
/// digit; a number below ten is its digit.
pub proof fn digits_are_appended(n: nat, d: nat)
    requires
        d < 10,
    ensures
        decimal(d) == seq![('0' as int + d) as char],
        n > 0 ==> decimal(10 * n + d) == decimal(n).push(('0' as int + d) as char),
{
    assert((10 * n + d) / 10 == n);
    assert((10 * n + d) % 10 == d as int);
}

/// Filling up a number only adds zeros in front of it, and no more than it takes
/// to reach the width.
pub proof fn padding_adds_zeros_in_front(n: nat, width: nat)
    ensures
        ({
            let (text, digits) = (padded(n, width), decimal(n));
            let front = text.len() - digits.len();
            &&& front >= 0
            &&& text.len() == (if digits.len() < width {
                width
            } else {
                digits.len()
            })
            &&& text.skip(front) == digits
            &&& forall|i: int| 0 <= i < front ==> #[trigger] text[i] == '0'
        }),
{
    let (text, digits) = (padded(n, width), decimal(n));
    assert(text.skip(text.len() - digits.len()) =~= digits);
}

/// How a numeral is read: one digit denotes itself, a further digit multiplies by
/// ten and adds its own value, up to the largest number allowed. A plus sign in
/// front changes nothing. Nothing at all, a sign alone, and whatever holds
/// something else than digits denote no number.
pub proof fn numerals_are_read_by_digits(s: Seq<char>, c: char, max: nat)
    ensures
        unsigned(Seq::empty(), max) is None,
        unsigned(seq!['+'], max) is None,
        s.len() > 0 && s[0] != '+' ==> unsigned(seq!['+'] + s, max) == unsigned(s, max),
        ({
            let fresh = s.len() == 0 || s == seq!['+'];
            let digit = c as int - '0' as int;
            let value = if fresh {
                digit
            } else {
                10 * unsigned(s, max)->0 + digit
            };
            &&& (fresh && c != '+' || !fresh) && !('0' <= c && c <= '9') ==> unsigned(
                s.push(c),
                max,
            ) is None
            &&& !fresh && unsigned(s, max) is None ==> unsigned(s.push(c), max) is None
            &&& '0' <= c && c <= '9' && (fresh || unsigned(s, max) is Some) ==> unsigned(
                s.push(c),
                max,
            ) == (if value <= max {
                Some(value as nat)
            } else {
                None
            })
        }),
{
    let fresh = s.len() == 0 || s == seq!['+'];
    let (body, longer) = (unsigned_body(s), unsigned_body(s.push(c)));
    assert(unsigned_body(Seq::<char>::empty()).len() == 0);
    assert(unsigned_body(seq!['+']).len() == 0);
    if s.len() > 0 && s[0] != '+' {
        assert(unsigned_body(seq!['+'] + s) =~= s);
    }
    if s.len() == 1 && s[0] == '+' {
        assert(s =~= seq!['+']);
    }
    if s.len() > 0 || c != '+' {
        assert(longer =~= body.push(c));
        assert(longer.drop_last() =~= body);
        assert(longer[longer.len() - 1] == c);
        if body.len() == 0 {
            assert(decimal_value(body) == 0);
        }
        if all_digits(longer) {
            assert forall|i: int| 0 <= i < body.len() implies is_digit(#[trigger] body[i]) by {
                assert(longer[i] == body[i]);
            }
        }
        assert(decimal_value(longer) >= decimal_value(body));
    }
}

/// Trimming takes away what is white at both ends and nothing else: what is left is
/// one piece of the text that neither begins nor ends in white space.
pub proof fn trimming_takes_the_ends(s: Seq<char>)
    ensures
        exists|a: int, b: int|
            {
                &&& 0 <= a <= b <= s.len()
                &&& trimmed(s) == #[trigger] s.subrange(a, b)
                &&& forall|i: int| 0 <= i < a || b <= i < s.len() ==> is_white(#[trigger] s[i])
                &&& a < b ==> !is_white(s[a]) && !is_white(s[b - 1])
            },
{
    let head = trimmed_start(s);
    trimming_takes_the_start(s);
    trimming_takes_the_end(head);
    let a = s.len() - head.len();
    let b = a + trimmed(s).len();
    assert(trimmed(s) =~= s.subrange(a, b));
    assert forall|i: int| 0 <= i < a || b <= i < s.len() implies is_white(#[trigger] s[i]) by {
        if b <= i {
            assert(head[i - a] == s[i]);
        }
    }
    if a < b {
        assert(head[0] == s[a]);
        assert(head[b - a - 1] == s[b - 1]);
    }
}

proof fn trimming_takes_the_start(s: Seq<char>)
    ensures
        ({
            let a = s.len() - trimmed_start(s).len();
            &&& 0 <= a
            &&& trimmed_start(s) == s.skip(a)
            &&& forall|i: int| 0 <= i < a ==> is_white(#[trigger] s[i])
            &&& a < s.len() ==> !is_white(s[a])
        }),
    decreases s.len(),
{
    if s.len() > 0 && is_white(s[0]) {
        let rest = s.skip(1);
        trimming_takes_the_start(rest);
        let a = s.len() - trimmed_start(s).len();
        assert(rest.skip(a - 1) =~= s.skip(a));
        assert forall|i: int| 0 <= i < a implies is_white(#[trigger] s[i]) by {
            if i > 0 {
                assert(rest[i - 1] == s[i]);
            }
        }
    } else {
        assert(s.skip(0) =~= s);
    }
}

proof fn trimming_takes_the_end(s: Seq<char>)
    ensures
        ({
            let b = trimmed_end(s).len() as int;
            &&& b <= s.len()
            &&& trimmed_end(s) == s.take(b)
            &&& forall|i: int| b <= i < s.len() ==> is_white(#[trigger] s[i])
            &&& b > 0 ==> !is_white(s[b - 1])
        }),
    decreases s.len(),
{
    if s.len() > 0 && is_white(s.last()) {
        let rest = s.drop_last();
        trimming_takes_the_end(rest);
        let b = trimmed_end(s).len() as int;
        assert(rest.take(b) =~= s.take(b));
        assert forall|i: int| b <= i < s.len() implies is_white(#[trigger] s[i]) by {
            if i < rest.len() {
                assert(rest[i] == s[i]);
            }
        }
    } else {
        assert(s.take(s.len() as int) =~= s);
    }
}

/// The white characters by their numbers: the blank and the controls from tab to
/// carriage return, the blanks of Unicode, wide and narrow, its line and paragraph
/// separators, and no others.
pub proof fn blanks_are_white(c: char)
    ensures
        c as int <= 127 ==> (is_white(c) <==> c as int == 32 || 9 <= c as int <= 13),
        127 < (c as int) < 8192 ==> (is_white(c) <==> c as int == 133 || c as int == 160 || c as int
            == 5760),
        8192 <= c as int <= 8287 ==> (is_white(c) <==> c as int <= 8202 || c as int == 8232
            || c as int == 8233 || c as int == 8239 || c as int == 8287),
        c as int > 8287 ==> (is_white(c) <==> c as int == 12_288),
{
}

/// A text at the end of another one stays there when more comes before it.
pub proof fn ends_stay_at_the_end(front: Seq<char>, end: Seq<char>)
    ensures
        end.is_suffix_of(front + end),
        front.is_prefix_of(front + end),
{
    let s = front + end;
    assert(s.subrange(front.len() as int, s.len() as int) =~= end);
    assert(s.subrange(0, front.len() as int) =~= front);
}

/// Stripping goes on as long as the text ends in the suffix, and leaves a text that
/// does not as it is.
pub proof fn each_suffix_is_stripped(s: Seq<char>, suffix: Seq<char>)
    requires
        suffix.len() > 0,
    ensures
        without_suffix(s + suffix, suffix) == without_suffix(s, suffix),
        !suffix.is_suffix_of(s) ==> without_suffix(s, suffix) == s,
{
    let t = s + suffix;
    assert(t.subrange(t.len() - suffix.len(), t.len() as int) =~= suffix);
    assert(suffix.is_suffix_of(t));
    assert(t.take(t.len() - suffix.len()) =~= s);
}

/// Splitting takes a text apart at the character and loses nothing else: the parts
/// of two texts around the character are those of the one and then those of the
/// other, and a text without the character is its only part.
pub proof fn texts_are_split_at_the_character(a: Seq<char>, b: Seq<char>, c: char)
    ensures
        split(a + seq![c] + b, c) == split(a, c) + split(b, c),
        !a.contains(c) ==> split(a, c) == seq![a],
    decreases a.len(),
{
    let s = a + seq![c] + b;
    let i = first_of(a, c);
    first_occurrence(a, c);
    if i < a.len() {
        assert(s[i] == c);
        assert forall|j: int| 0 <= j < i implies s[j] != c by {
            assert(a[j] != c);
        }
        first_found(s, c, i);
        assert(s.take(i) =~= a.take(i));
        let rest = a.skip(i + 1);
        assert(s.skip(i + 1) =~= rest + seq![c] + b);
        texts_are_split_at_the_character(rest, b, c);
        assert(split(s, c) =~= split(a, c) + split(b, c));
        assert(a.contains(a[i]));
    } else {
        assert(s[a.len() as int] == c);
        assert forall|j: int| 0 <= j < a.len() implies s[j] != c by {
            assert(a[j] != c);
        }
        first_found(s, c, a.len() as int);
        assert(s.take(a.len() as int) =~= a);
        assert(s.skip(a.len() as int + 1) =~= b);
        assert(split(s, c) =~= split(a, c) + split(b, c));
    }
}

proof fn first_occurrence(s: Seq<char>, c: char)
    ensures
        0 <= first_of(s, c) <= s.len(),
        first_of(s, c) < s.len() ==> s[first_of(s, c)] == c,
        forall|j: int| 0 <= j < first_of(s, c) ==> #[trigger] s[j] != c,
    decreases s.len(),
{
    if s.len() > 0 && s[0] != c {
        first_occurrence(s.skip(1), c);
        assert forall|j: int| 0 <= j < first_of(s, c) implies #[trigger] s[j] != c by {
            if j > 0 {
                assert(s.skip(1)[j - 1] == s[j]);
            }
        }
    }
}

/// The texts of strings are theirs one by one, in order.
pub proof fn texts_follow_their_strings(s: Seq<String>, t: Seq<String>, one: String)
    ensures
        texts(s + t) == texts(s) + texts(t),
        texts(seq![one]) == seq![one@],
{
    assert(texts(s + t) =~= texts(s) + texts(t));
    assert(texts(seq![one]) =~= seq![one@]);
}

/// A negative number is written as its opposite behind a minus sign, any other one
/// without a sign.
pub proof fn signs_stand_in_front(n: nat)
    ensures
        signed(n as int) == decimal(n),
        n > 0 ==> signed(-(n as int)) == seq!['-'] + signed(n as int),
{
}

} // verus!
