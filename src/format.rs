//! The line-oriented text form of the path-state store: a trigger name on a
//! line of its own, then one line per file, `\t<path>:<mtime>`.
use crate::paths::{File, FileV};
use vstd::prelude::*;

verus! {

/// Whitespace as `char::is_whitespace` gives it (Unicode White_Space).
pub open spec fn is_space(c: char) -> bool {
    c == '\t' || c == '\n' || c == '\x0B' || c == '\x0C' || c == '\r' || c == ' ' || c == '\u{85}'
        || c == '\u{A0}' || c == '\u{1680}' || ('\u{2000}' <= c && c <= '\u{200A}') || c
        == '\u{2028}' || c == '\u{2029}' || c == '\u{202F}' || c == '\u{205F}' || c == '\u{3000}'
}

fn char_is_space(c: char) -> (r: bool)
    ensures
        r == is_space(c),
{
    c == '\t' || c == '\n' || c == '\x0B' || c == '\x0C' || c == '\r' || c == ' ' || c == '\u{85}'
        || c == '\u{A0}' || c == '\u{1680}' || ('\u{2000}' <= c && c <= '\u{200A}') || c
        == '\u{2028}' || c == '\u{2029}' || c == '\u{202F}' || c == '\u{205F}' || c == '\u{3000}'
}

/// The length of `s` without its trailing whitespace.
pub open spec fn trimmed_len(s: Seq<char>) -> nat
    decreases s.len(),
{
    if s.len() > 0 && is_space(s.last()) {
        trimmed_len(s.drop_last())
    } else {
        s.len()
    }
}

pub proof fn lemma_trimmed_len(s: Seq<char>)
    ensures
        trimmed_len(s) <= s.len(),
        trimmed_len(s) == 0 || !is_space(s[trimmed_len(s) - 1]),
        forall|k: int| trimmed_len(s) <= k < s.len() ==> is_space(#[trigger] s[k]),
    decreases s.len(),
{
    if s.len() > 0 && is_space(s.last()) {
        lemma_trimmed_len(s.drop_last());
        assert forall|k: int| trimmed_len(s) <= k < s.len() implies is_space(#[trigger] s[k]) by {
            if k < s.len() - 1 {
                assert(s.drop_last()[k] == s[k]);
            }
        }
    }
}

/// `s` without its trailing whitespace.
pub open spec fn trim_end(s: Seq<char>) -> Seq<char> {
    s.subrange(0, trimmed_len(s) as int)
}

/// The number of leading tabs of `s`.
pub open spec fn tab_count(s: Seq<char>) -> nat
    decreases s.len(),
{
    if s.len() > 0 && s[0] == '\t' {
        1 + tab_count(s.skip(1))
    } else {
        0
    }
}

/// The index of the first `:` of `s`, if any.
pub open spec fn first_colon(s: Seq<char>) -> Option<nat>
    decreases s.len(),
{
    if s.len() == 0 {
        None
    } else if s[0] == ':' {
        Some(0)
    } else {
        match first_colon(s.skip(1)) {
            Some(i) => Some(i + 1),
            None => None,
        }
    }
}

/// The value of a decimal digit character.
pub open spec fn digit_value(c: char) -> nat {
    (c as nat - '0' as nat) as nat
}

pub open spec fn is_digit(c: char) -> bool {
    '0' <= c && c <= '9'
}

/// The value of a sequence of decimal digits.
pub open spec fn digits_value(s: Seq<char>) -> nat
    decreases s.len(),
{
    if s.len() == 0 {
        0
    } else {
        digits_value(s.drop_last()) * 10 + digit_value(s.last())
    }
}

pub open spec fn all_digits(d: Seq<char>) -> bool {
    forall|i: int| 0 <= i < d.len() ==> is_digit(#[trigger] d[i])
}

/// `s` without one leading `+`.
pub open spec fn unsigned_part(s: Seq<char>) -> Seq<char> {
    if s.len() > 0 && s[0] == '+' {
        s.skip(1)
    } else {
        s
    }
}

/// What `u64::from_str` gives: an optional `+`, then one or more decimal
/// digits whose value fits in 64 bits.
pub open spec fn parse_u64(s: Seq<char>) -> Option<u64> {
    let d = unsigned_part(s);
    if d.len() > 0 && all_digits(d) && digits_value(d) <= u64::MAX {
        Some(digits_value(d) as u64)
    } else {
        None
    }
}

/// The decimal digits of `n`, without leading zeros.
pub open spec fn decimal(n: nat) -> Seq<char>
    decreases n,
{
    if n < 10 {
        seq![digit_char(n)]
    } else {
        decimal(n / 10).push(digit_char(n % 10))
    }
}

pub open spec fn digit_char(d: nat) -> char {
    if d == 0 {
        '0'
    } else if d == 1 {
        '1'
    } else if d == 2 {
        '2'
    } else if d == 3 {
        '3'
    } else if d == 4 {
        '4'
    } else if d == 5 {
        '5'
    } else if d == 6 {
        '6'
    } else if d == 7 {
        '7'
    } else if d == 8 {
        '8'
    } else {
        '9'
    }
}

fn digit_str(d: u64) -> (r: &'static str)
    requires
        d < 10,
    ensures
        r@ == seq![digit_char(d as nat)],
{
    proof {
        reveal_strlit("0");
        reveal_strlit("1");
        reveal_strlit("2");
        reveal_strlit("3");
        reveal_strlit("4");
        reveal_strlit("5");
        reveal_strlit("6");
        reveal_strlit("7");
        reveal_strlit("8");
        reveal_strlit("9");
    }
    let r = if d == 0 {
        "0"
    } else if d == 1 {
        "1"
    } else if d == 2 {
        "2"
    } else if d == 3 {
        "3"
    } else if d == 4 {
        "4"
    } else if d == 5 {
        "5"
    } else if d == 6 {
        "6"
    } else if d == 7 {
        "7"
    } else if d == 8 {
        "8"
    } else {
        "9"
    };
    proof {
        assert(r@ =~= seq![digit_char(d as nat)]);
    }
    r
}

/// Appends the decimal digits of `n` to `out`.
pub fn push_decimal(out: &mut String, n: u64)
    ensures
        final(out)@ == old(out)@ + decimal(n as nat),
    decreases n,
{
    if n >= 10 {
        push_decimal(out, n / 10);
    }
    out.append(digit_str(n % 10));
    proof {
        if n >= 10 {
            assert(decimal(n as nat) == decimal((n / 10) as nat).push(digit_char((n % 10) as nat)));
        }
    }
}

/// The length of `line` without its trailing whitespace.
pub fn trimmed_length(line: &str) -> (r: usize)
    ensures
        r == trimmed_len(line@),
        r <= line@.len(),
{
    let n = line.unicode_len();
    let mut k: usize = n;
    proof {
        assert(line@.subrange(0, n as int) =~= line@);
    }
    while k > 0 && char_is_space(line.get_char(k - 1))
        invariant
            k <= n,
            n == line@.len(),
            trimmed_len(line@.subrange(0, k as int)) == trimmed_len(line@),
        decreases k,
    {
        proof {
            let s = line@.subrange(0, k as int);
            assert(s.drop_last() =~= line@.subrange(0, k - 1));
            assert(s.last() == line@[k - 1]);
        }
        k = k - 1;
    }
    proof {
        let s = line@.subrange(0, k as int);
        if k > 0 {
            assert(s.last() == line@[k - 1]);
        }
    }
    k
}

/// The number of leading tabs of `s`.
pub fn leading_tabs(s: &str) -> (r: usize)
    ensures
        r == tab_count(s@),
        r <= s@.len(),
{
    let n = s.unicode_len();
    let mut i: usize = 0;
    proof {
        assert(s@.skip(0) =~= s@);
    }
    while i < n && s.get_char(i) == '\t'
        invariant
            i <= n,
            n == s@.len(),
            tab_count(s@) == i + tab_count(s@.skip(i as int)),
        decreases n - i,
    {
        proof {
            assert(s@.skip(i as int).skip(1) =~= s@.skip(i + 1));
        }
        i = i + 1;
    }
    proof {
        if i < n {
            assert(s@.skip(i as int)[0] == s@[i as int]);
        }
    }
    i
}

/// The index of the first `:` of `s`, if any.
pub fn find_colon(s: &str) -> (r: Option<usize>)
    ensures
        match r {
            Some(i) => first_colon(s@) == Some(i as nat),
            None => first_colon(s@) is None,
        },
{
    let n = s.unicode_len();
    let mut i: usize = 0;
    while i < n
        invariant
            i <= n,
            n == s@.len(),
            forall|k: int| 0 <= k < i ==> s@[k] != ':',
        decreases n - i,
    {
        if s.get_char(i) == ':' {
            proof {
                lemma_first_colon(s@, i as int);
            }
            return Some(i);
        }
        i = i + 1;
    }
    proof {
        lemma_no_colon(s@);
    }
    None
}

pub proof fn lemma_first_colon(s: Seq<char>, i: int)
    requires
        0 <= i < s.len(),
        s[i] == ':',
        forall|k: int| 0 <= k < i ==> s[k] != ':',
    ensures
        first_colon(s) == Some(i as nat),
    decreases i,
{
    if i > 0 {
        lemma_first_colon(s.skip(1), i - 1);
    }
}

proof fn lemma_no_colon(s: Seq<char>)
    requires
        forall|k: int| 0 <= k < s.len() ==> s[k] != ':',
    ensures
        first_colon(s) is None,
    decreases s.len(),
{
    if s.len() > 0 {
        lemma_no_colon(s.skip(1));
    }
}

/// Reads a modification time as `u64::from_str` does.
pub fn read_u64(s: &str) -> (r: Option<u64>)
    ensures
        r == parse_u64(s@),
{
    let n = s.unicode_len();
    let start: usize = if n > 0 && s.get_char(0) == '+' {
        1
    } else {
        0
    };
    let ghost d = s@.skip(start as int);
    proof {
        assert(s@.skip(0) =~= s@);
        assert(d == unsigned_part(s@));
        assert(forall|k: int| 0 <= k < d.len() ==> d[k] == s@[start + k]);
    }
    if start >= n {
        return None;
    }
    let mut v: u64 = 0;
    let mut i: usize = start;
    while i < n
        invariant
            start <= i <= n,
            n == s@.len(),
            d == s@.skip(start as int),
            d == unsigned_part(s@),
            forall|k: int| start <= k < i ==> is_digit(#[trigger] s@[k]),
            v as nat == digits_value(s@.subrange(start as int, i as int)),
        decreases n - i,
    {
        let c = s.get_char(i);
        let ghost pre = s@.subrange(start as int, i as int);
        proof {
            assert(s@.subrange(start as int, i + 1).drop_last() =~= pre);
        }
        if !('0' <= c && c <= '9') {
            proof {
                assert(d[i - start] == s@[i as int]);
                assert(!is_digit(d[i - start]));
                assert(0 <= i - start < d.len());
                assert(!all_digits(d));
                assert(parse_u64(s@) is None);
            }
            return None;
        }
        let digit = (c as u32 - '0' as u32) as u64;
        if v > 1844674407370955161 || (v == 1844674407370955161 && digit > 5) {
            proof {
                lemma_digits_grow(s@.subrange(start as int, n as int), i - start + 1);
                assert(s@.subrange(start as int, n as int).subrange(0, i - start + 1) =~= s@.subrange(start as int, i + 1));
                assert(s@.subrange(start as int, n as int) =~= d);
                let pre1 = s@.subrange(start as int, i + 1);
                assert(pre1.last() == c);
                assert(digit as nat == digit_value(c));
                assert(pre1.drop_last() =~= s@.subrange(start as int, i as int));
                assert(digits_value(pre1) == v * 10 + digit);
                assert(digits_value(pre1) > u64::MAX);
                assert(!all_digits(d) || digits_value(d) > u64::MAX);
                assert(parse_u64(s@) is None);
            }
            return None;
        }
        v = v * 10 + digit;
        i = i + 1;
    }
    proof {
        assert(s@.subrange(start as int, n as int) =~= d);
        assert forall|k: int| 0 <= k < d.len() implies is_digit(#[trigger] d[k]) by {
            assert(is_digit(s@[start + k]));
        }
    }
    Some(v)
}

/// A prefix of digits is worth no more than the whole, unless the whole
/// holds a character that is not a digit.
proof fn lemma_digits_grow(s: Seq<char>, k: int)
    requires
        0 <= k <= s.len(),
    ensures
        digits_value(s.subrange(0, k)) <= digits_value(s) || exists|j: int| 0 <= j < s.len() && !is_digit(s[j]),
    decreases s.len() - k,
{
    if k < s.len() {
        lemma_digits_grow(s, k + 1);
        assert(s.subrange(0, k + 1).drop_last() =~= s.subrange(0, k));
    }
    if k == s.len() {
        assert(s.subrange(0, k) =~= s);
    }
}

/// Why the store's text could not be read.
#[derive(Clone, Copy, Debug, PartialEq, Eq, Structural)]
pub enum DbError {
    /// A file line came before any trigger name.
    MissingTrigger,
    /// A file line holds no `:`.
    MissingColon,
    /// The modification time of a file line is not a decimal integer.
    InvalidMtime,
}

/// What a file line holds after its leading tabs, trailing whitespace dropped.
pub open spec fn entry_body(line: Seq<char>) -> Seq<char> {
    trim_end(line).skip(tab_count(trim_end(line)) as int)
}

/// The file that the text `<path>:<mtime>` gives, the path ending at the
/// first `:`; or why it gives none: no `:` at all, or a modification time
/// that `u64::from_str` refuses.
pub open spec fn file_of_text(s: Seq<char>) -> Result<FileV, DbError> {
    match first_colon(s) {
        None => Err(DbError::MissingColon),
        Some(c) => match parse_u64(s.skip(c + 1 as int)) {
            Some(m) => Ok((s.take(c as int), m)),
            None => Err(DbError::InvalidMtime),
        },
    }
}

/// The file that a file line gives: the line without its trailing
/// whitespace and its leading tabs, read as `<path>:<mtime>`.
pub open spec fn file_of_line(line: Seq<char>) -> Result<FileV, DbError> {
    file_of_text(entry_body(line))
}

/// Reads `<path>:<mtime>` as it stands, the path ending at the first `:`.
pub(crate) fn read_file_text(text: &str) -> (r: Result<File, DbError>)
    ensures
        match r {
            Ok(f) => file_of_text(text@) == Ok::<FileV, DbError>(f@),
            Err(e) => file_of_text(text@) == Err::<FileV, DbError>(e),
        },
{
    match find_colon(text) {
        None => Err(DbError::MissingColon),
        Some(c) => {
            proof {
                lemma_colon_in_range(text@);
            }
            let n = text.unicode_len();
            let rest = text.substring_char(c + 1, n);
            proof {
                assert(rest@ =~= text@.skip(c + 1));
            }
            match read_u64(rest) {
                Some(m) => {
                    let path = String::from_str(text.substring_char(0, c));
                    proof {
                        assert(path@ =~= text@.take(c as int));
                    }
                    Ok(File::new(path, m))
                },
                None => Err(DbError::InvalidMtime),
            }
        },
    }
}

/// Reads one line of the store's text that holds a file: its trailing
/// whitespace and its leading tabs dropped, the rest read as `<path>:<mtime>`.
pub(crate) fn read_file_line(line: &str) -> (r: Result<File, DbError>)
    ensures
        match r {
            Ok(f) => file_of_line(line@) == Ok::<FileV, DbError>(f@),
            Err(e) => file_of_line(line@) == Err::<FileV, DbError>(e),
        },
{
    let t = trimmed_length(line);
    proof {
        lemma_trimmed_len(line@);
    }
    let trimmed = line.substring_char(0, t);
    let tabs = leading_tabs(trimmed);
    let body = trimmed.substring_char(tabs, t);
    proof {
        assert(body@ =~= entry_body(line@));
    }
    read_file_text(body)
}

proof fn lemma_colon_in_range(s: Seq<char>)
    ensures
        match first_colon(s) {
            Some(c) => c < s.len(),
            None => true,
        },
    decreases s.len(),
{
    if s.len() > 0 {
        lemma_colon_in_range(s.skip(1));
    }
}

proof fn lemma_digit_char(d: nat)
    requires
        d < 10,
    ensures
        is_digit(digit_char(d)),
        digit_value(digit_char(d)) == d,
{
}

/// The decimal text of a number reads back as that number.
pub proof fn lemma_decimal(n: nat)
    ensures
        decimal(n).len() > 0,
        all_digits(decimal(n)),
        digits_value(decimal(n)) == n,
    decreases n,
{
    lemma_digit_char(n % 10);
    if n < 10 {
        assert(n % 10 == n);
        let d = decimal(n);
        assert(d.drop_last() =~= Seq::<char>::empty());
        assert(d.last() == digit_char(n));
        assert(digits_value(d) == digits_value(d.drop_last()) * 10 + digit_value(d.last()));
    }
    if n >= 10 {
        lemma_decimal(n / 10);
        let d = decimal(n);
        assert(d.drop_last() =~= decimal(n / 10));
        assert(n == (n / 10) * 10 + n % 10) by (nonlinear_arith);
        assert(d.last() == digit_char(n % 10));
        assert(digits_value(d) == digits_value(d.drop_last()) * 10 + digit_value(d.last()));
        assert forall|i: int| 0 <= i < d.len() implies is_digit(#[trigger] d[i]) by {
            if i < d.len() - 1 {
                assert(d[i] == decimal(n / 10)[i]);
            }
        }
    }
}

/// The digits of a number hold no `:` and no whitespace, and start with no `+`.
pub proof fn lemma_decimal_chars(n: nat)
    ensures
        forall|i: int| 0 <= i < decimal(n).len() ==> #[trigger] decimal(n)[i] != ':' && !is_space(decimal(n)[i]) && decimal(n)[i] != '+' && decimal(n)[i] != '\t',
{
    lemma_decimal(n);
    assert forall|i: int| 0 <= i < decimal(n).len() implies #[trigger] decimal(n)[i] != ':' && !is_space(decimal(n)[i]) && decimal(n)[i] != '+' && decimal(n)[i] != '\t' by {
        assert(is_digit(decimal(n)[i]));
    }
}

/// The length of the first line of `s`, its line break included.
pub open spec fn line_len(s: Seq<char>) -> nat
    decreases s.len(),
{
    if s.len() == 0 {
        0
    } else if s[0] == '\n' {
        1
    } else {
        1 + line_len(s.skip(1))
    }
}

/// `s` cut into lines as reading it line by line gives them: each line
/// ends after its line break, and a last line may have none.
pub open spec fn split_lines(s: Seq<char>) -> Seq<Seq<char>>
    decreases s.len(),
{
    if s.len() == 0 {
        Seq::empty()
    } else {
        let n = if 1 <= line_len(s) <= s.len() {
            line_len(s) as int
        } else {
            s.len() as int
        };
        seq![s.take(n)] + split_lines(s.skip(n))
    }
}

/// A line that ends with its only line break is the first line of any text
/// it starts.
pub proof fn lemma_line_len(l: Seq<char>, t: Seq<char>)
    requires
        l.len() > 0,
        l.last() == '\n',
        forall|j: int| 0 <= j < l.len() - 1 ==> l[j] != '\n',
    ensures
        line_len(l + t) == l.len(),
    decreases l.len(),
{
    let s = l + t;
    if l.len() > 1 {
        assert(s[0] == l[0]);
        let l1 = l.skip(1);
        assert forall|j: int| 0 <= j < l1.len() - 1 implies l1[j] != '\n' by {
            assert(l1[j] == l[j + 1]);
        }
        lemma_line_len(l1, t);
        assert(s.skip(1) =~= l1 + t);
    } else {
        assert(s[0] == l[0]);
    }
}

/// Lines that each end with their only line break, written one after the
/// other, split back into the same lines.
pub proof fn lemma_split_joined_lines(ls: Seq<Seq<char>>)
    requires
        forall|i: int|
            0 <= i < ls.len() ==> #[trigger] ls[i].len() > 0 && ls[i].last() == '\n' && forall|j: int|
                0 <= j < ls[i].len() - 1 ==> ls[i][j] != '\n',
    ensures
        split_lines(ls.flatten()) == ls,
    decreases ls.len(),
{
    if ls.len() == 0 {
        assert(ls.flatten() =~= Seq::<char>::empty());
        assert(split_lines(ls.flatten()) =~= ls);
    } else {
        let l = ls[0];
        let rest = ls.drop_first();
        assert forall|i: int|
            0 <= i < rest.len() implies #[trigger] rest[i].len() > 0 && rest[i].last() == '\n' && forall|j: int|
                0 <= j < rest[i].len() - 1 ==> rest[i][j] != '\n' by {
            assert(rest[i] == ls[i + 1]);
        }
        lemma_split_joined_lines(rest);
        assert(ls[0].len() > 0);
        let s = ls.flatten();
        assert(s == l + rest.flatten());
        lemma_line_len(l, rest.flatten());
        assert(s.take(l.len() as int) =~= l);
        assert(s.skip(l.len() as int) =~= rest.flatten());
        assert(split_lines(s) =~= seq![l] + rest);
        assert(seq![l] + rest =~= ls);
    }
}

} // verus!
