//! Splitting a line into fields and reading unsigned decimal numbers.
use vstd::prelude::*;

verus! {

/// The pieces of `s` between occurrences of `sep`, as `str::split` with a
/// character pattern yields them: one more piece than there are separators,
/// empty pieces included.
pub open spec fn split_on(s: Seq<char>, sep: char) -> Seq<Seq<char>>
    decreases s.len(),
{
    if s.len() == 0 {
        seq![Seq::<char>::empty()]
    } else {
        let prev = split_on(s.drop_last(), sep);
        if s.last() == sep {
            prev.push(Seq::<char>::empty())
        } else {
            prev.update(prev.len() - 1, prev.last().push(s.last()))
        }
    }
}

/// A split always yields at least one piece.
pub proof fn lemma_split_nonempty(s: Seq<char>, sep: char)
    ensures
        split_on(s, sep).len() >= 1,
    decreases s.len(),
{
    if s.len() > 0 {
        lemma_split_nonempty(s.drop_last(), sep);
    }
}

/// The contents of a vector of strings.
pub open spec fn strings_view(v: Seq<String>) -> Seq<Seq<char>> {
    v.map_values(|t: String| t@)
}

/// Splits `line` at every `sep`, like `line.split(sep)` collected into
/// owned strings.
pub fn split_fields(line: &str, sep: char) -> (fields: Vec<String>)
    ensures
        strings_view(fields@) == split_on(line@, sep),
{
    let n = line.unicode_len();
    let mut fields: Vec<String> = Vec::new();
    let mut start: usize = 0;
    let mut i: usize = 0;
    proof {
        assert(line@.subrange(0, 0) =~= Seq::<char>::empty());
        assert(strings_view(fields@).push(line@.subrange(0, 0)) =~= seq![Seq::<char>::empty()]);
    }
    while i < n
        invariant
            n == line@.len(),
            start <= i <= n,
            strings_view(fields@).push(line@.subrange(start as int, i as int)) == split_on(
                line@.subrange(0, i as int),
                sep,
            ),
        decreases n - i,
    {
        let c = line.get_char(i);
        let ghost before = fields@;
        proof {
            let s = line@.subrange(0, i + 1);
            assert(s.drop_last() =~= line@.subrange(0, i as int));
            assert(s.last() == c);
            lemma_split_nonempty(line@.subrange(0, i as int), sep);
        }
        if c == sep {
            let piece = line.substring_char(start, i);
            fields.push(String::from_str(piece));
            proof {
                assert(strings_view(fields@) =~= strings_view(before).push(
                    line@.subrange(start as int, i as int),
                ));
                assert(line@.subrange(i + 1, i + 1) =~= Seq::<char>::empty());
            }
            start = i + 1;
        } else {
            proof {
                assert(line@.subrange(start as int, i + 1) =~= line@.subrange(
                    start as int,
                    i as int,
                ).push(c));
                assert(strings_view(fields@).push(line@.subrange(start as int, i + 1)) =~= strings_view(
                    fields@,
                ).push(line@.subrange(start as int, i as int)).update(
                    strings_view(fields@).len() as int,
                    line@.subrange(start as int, i as int).push(c),
                ));
            }
        }
        i = i + 1;
    }
    let last = line.substring_char(start, n);
    let ghost before = fields@;
    fields.push(String::from_str(last));
    proof {
        assert(line@.subrange(0, n as int) =~= line@);
        assert(strings_view(fields@) =~= strings_view(before).push(
            line@.subrange(start as int, n as int),
        ));
    }
    fields
}

/// An ASCII decimal digit.
pub open spec fn is_digit(c: char) -> bool {
    '0' <= c && c <= '9'
}

/// The number that a sequence of decimal digits spells.
pub open spec fn digits_value(s: Seq<char>) -> int
    decreases s.len(),
{
    if s.len() == 0 {
        0
    } else {
        digits_value(s.drop_last()) * 10 + (s.last() as int - '0' as int)
    }
}

/// The digits of an unsigned number written with an optional leading `+`.
pub open spec fn unsigned_digits(s: Seq<char>) -> Seq<char> {
    if s.len() > 0 && s[0] == '+' {
        s.subrange(1, s.len() as int)
    } else {
        s
    }
}

/// A run of one or more ASCII digits whose value fits in a `u64`, read as
/// that value.
pub open spec fn digits_u64(d: Seq<char>) -> Option<u64> {
    if d.len() > 0 && (forall|k: int| 0 <= k < d.len() ==> is_digit(#[trigger] d[k])) && digits_value(
        d,
    ) <= u64::MAX {
        Some(digits_value(d) as u64)
    } else {
        None
    }
}

/// What `str::parse::<u64>` accepts: an optional `+`, then one or more ASCII
/// digits whose value fits in a `u64`.
pub open spec fn parsed_u64(s: Seq<char>) -> Option<u64> {
    digits_u64(unsigned_digits(s))
}

/// What `str::parse::<i64>` accepts: an optional `+` or `-`, then one or
/// more ASCII digits whose signed value fits in an `i64`.
pub open spec fn parsed_i64(s: Seq<char>) -> Option<i64> {
    if s.len() > 0 && s[0] == '-' {
        let d = s.subrange(1, s.len() as int);
        match digits_u64(d) {
            Some(v) => if v <= 0x8000_0000_0000_0000 {
                Some((0 - v) as i64)
            } else {
                None
            },
            None => None,
        }
    } else {
        match digits_u64(unsigned_digits(s)) {
            Some(v) => if v <= i64::MAX {
                Some(v as i64)
            } else {
                None
            },
            None => None,
        }
    }
}

/// Digits never spell a negative number.
proof fn lemma_digits_nonneg(d: Seq<char>)
    requires
        forall|j: int| 0 <= j < d.len() ==> is_digit(#[trigger] d[j]),
    ensures
        digits_value(d) >= 0,
    decreases d.len(),
{
    if d.len() > 0 {
        assert(is_digit(d.last()));
        lemma_digits_nonneg(d.drop_last());
    }
}

/// Reads the digits of `s` from `start` to its end.
fn parse_digits(s: &str, start: usize, n: usize) -> (r: Option<u64>)
    requires
        n == s@.len(),
        start <= n,
    ensures
        r == digits_u64(s@.subrange(start as int, n as int)),
{
    let ghost d = s@.subrange(start as int, n as int);
    if start == n {
        return None;
    }
    let mut i: usize = start;
    let mut value: u64 = 0;
    let mut overflow = false;
    while i < n
        invariant
            n == s@.len(),
            start <= i <= n,
            d == s@.subrange(start as int, n as int),
            forall|k: int| start <= k < i ==> is_digit(#[trigger] s@[k]),
            !overflow ==> value == digits_value(s@.subrange(start as int, i as int)),
            overflow ==> digits_value(s@.subrange(start as int, i as int)) > u64::MAX,
        decreases n - i,
    {
        let c = s.get_char(i);
        if !('0' <= c && c <= '9') {
            proof {
                assert(d[i - start] == c);
                assert(!is_digit(d[i - start]));
            }
            return None;
        }
        proof {
            let p = s@.subrange(start as int, i + 1);
            assert(p.drop_last() =~= s@.subrange(start as int, i as int));
            assert(p.last() == c);
            assert forall|j: int| 0 <= j < p.len() implies is_digit(#[trigger] p[j]) by {
                assert(p[j] == s@[start + j]);
            }
            lemma_digits_nonneg(s@.subrange(start as int, i as int));
            assert(forall|j: int| 0 <= j < s@.subrange(start as int, i as int).len() ==> #[trigger] s@.subrange(start as int, i as int)[j] == s@[start + j]);
        }
        let digit = (c as u32 - '0' as u32) as u64;
        if !overflow {
            if value > (u64::MAX - digit) / 10 {
                overflow = true;
            } else {
                value = value * 10 + digit;
            }
        }
        i = i + 1;
    }
    proof {
        assert(d =~= s@.subrange(start as int, i as int));
        assert forall|k: int| 0 <= k < d.len() implies is_digit(#[trigger] d[k]) by {
            assert(d[k] == s@[start + k]);
        }
    }
    if overflow {
        None
    } else {
        Some(value)
    }
}

/// Reads an unsigned decimal number as `str::parse::<u64>` does.
pub fn parse_u64(s: &str) -> (r: Option<u64>)
    ensures
        r == parsed_u64(s@),
{
    let n = s.unicode_len();
    let mut start: usize = 0;
    if n > 0 && s.get_char(0) == '+' {
        start = 1;
    }
    proof {
        assert(unsigned_digits(s@) =~= s@.subrange(start as int, n as int));
    }
    parse_digits(s, start, n)
}

/// Reads a signed decimal number as `str::parse::<i64>` does.
pub fn parse_i64(s: &str) -> (r: Option<i64>)
    ensures
        r == parsed_i64(s@),
{
    let n = s.unicode_len();
    if n > 0 && s.get_char(0) == '-' {
        match parse_digits(s, 1, n) {
            Some(v) => {
                if v <= 0x8000_0000_0000_0000u64 {
                    if v == 0x8000_0000_0000_0000u64 {
                        Some(i64::MIN)
                    } else {
                        Some(-(v as i64))
                    }
                } else {
                    None
                }
            },
            None => None,
        }
    } else {
        match parse_u64(s) {
            Some(v) => {
                if v <= i64::MAX as u64 {
                    Some(v as i64)
                } else {
                    None
                }
            },
            None => None,
        }
    }
}

/// Whitespace as `char::is_whitespace` defines it: the characters with the
/// Unicode `White_Space` property.
pub open spec fn is_whitespace(c: char) -> bool {
    ||| '\u{9}' <= c <= '\u{d}'
    ||| c == ' '
    ||| c == '\u{85}'
    ||| c == '\u{a0}'
    ||| c == '\u{1680}'
    ||| '\u{2000}' <= c <= '\u{200a}'
    ||| c == '\u{2028}'
    ||| c == '\u{2029}'
    ||| c == '\u{202f}'
    ||| c == '\u{205f}'
    ||| c == '\u{3000}'
}

/// `s` without its leading whitespace.
pub open spec fn trim_start_spec(s: Seq<char>) -> Seq<char>
    decreases s.len(),
{
    if s.len() > 0 && is_whitespace(s[0]) {
        trim_start_spec(s.subrange(1, s.len() as int))
    } else {
        s
    }
}

/// `s` without its trailing whitespace.
pub open spec fn trim_end_spec(s: Seq<char>) -> Seq<char>
    decreases s.len(),
{
    if s.len() > 0 && is_whitespace(s.last()) {
        trim_end_spec(s.drop_last())
    } else {
        s
    }
}

/// `s` without leading and trailing whitespace, as `str::trim` gives it.
pub open spec fn trimmed(s: Seq<char>) -> Seq<char> {
    trim_end_spec(trim_start_spec(s))
}

proof fn lemma_trim_start_at(s: Seq<char>, a: int)
    requires
        0 <= a <= s.len(),
        forall|j: int| 0 <= j < a ==> is_whitespace(#[trigger] s[j]),
        a == s.len() || !is_whitespace(s[a]),
    ensures
        trim_start_spec(s) == s.subrange(a, s.len() as int),
    decreases a,
{
    if a == 0 {
        assert(s.subrange(0, s.len() as int) =~= s);
    } else {
        let t = s.subrange(1, s.len() as int);
        assert(is_whitespace(s[0]));
        assert forall|j: int| 0 <= j < a - 1 implies is_whitespace(#[trigger] t[j]) by {
            assert(t[j] == s[j + 1]);
        }
        if a < s.len() {
            assert(t[a - 1] == s[a]);
        }
        lemma_trim_start_at(t, a - 1);
        assert(t.subrange(a - 1, t.len() as int) =~= s.subrange(a, s.len() as int));
    }
}

proof fn lemma_trim_end_at(s: Seq<char>, b: int)
    requires
        0 <= b <= s.len(),
        forall|j: int| b <= j < s.len() ==> is_whitespace(#[trigger] s[j]),
        b == 0 || !is_whitespace(s[b - 1]),
    ensures
        trim_end_spec(s) == s.subrange(0, b),
    decreases s.len() - b,
{
    if b == s.len() {
        assert(s.subrange(0, b) =~= s);
        if s.len() > 0 {
            assert(s.last() == s[b - 1]);
        }
    } else {
        let t = s.drop_last();
        assert(is_whitespace(s[s.len() - 1]));
        assert forall|j: int| b <= j < t.len() implies is_whitespace(#[trigger] t[j]) by {
            assert(t[j] == s[j]);
        }
        if b > 0 {
            assert(t[b - 1] == s[b - 1]);
        }
        lemma_trim_end_at(t, b);
        assert(t.subrange(0, b) =~= s.subrange(0, b));
    }
}

fn char_is_whitespace(c: char) -> (r: bool)
    ensures
        r == is_whitespace(c),
{
    ('\u{9}' <= c && c <= '\u{d}') || c == ' ' || c == '\u{85}' || c == '\u{a0}' || c == '\u{1680}'
        || ('\u{2000}' <= c && c <= '\u{200a}') || c == '\u{2028}' || c == '\u{2029}' || c
        == '\u{202f}' || c == '\u{205f}' || c == '\u{3000}'
}

/// `s` without leading and trailing whitespace, like `str::trim`.
pub fn trim(s: &str) -> (r: String)
    ensures
        r@ == trimmed(s@),
{
    let n = s.unicode_len();
    let mut a: usize = 0;
    while a < n && char_is_whitespace(s.get_char(a))
        invariant
            n == s@.len(),
            a <= n,
            forall|j: int| 0 <= j < a ==> is_whitespace(#[trigger] s@[j]),
        decreases n - a,
    {
        a = a + 1;
    }
    proof {
        lemma_trim_start_at(s@, a as int);
    }
    let ghost t = s@.subrange(a as int, n as int);
    let mut b: usize = n;
    while b > a && char_is_whitespace(s.get_char(b - 1))
        invariant
            n == s@.len(),
            a <= b <= n,
            t == s@.subrange(a as int, n as int),
            forall|j: int| b <= j < n ==> is_whitespace(#[trigger] s@[j]),
        decreases b - a,
    {
        b = b - 1;
    }
    proof {
        assert forall|j: int| (b - a) <= j < t.len() implies is_whitespace(#[trigger] t[j]) by {
            assert(t[j] == s@[a + j]);
        }
        if b > a {
            assert(t[b - a - 1] == s@[b - 1]);
        }
        lemma_trim_end_at(t, (b - a) as int);
        assert(t.subrange(0, (b - a) as int) =~= s@.subrange(a as int, b as int));
    }
    String::from_str(s.substring_char(a, b))
}

} // verus!
