use crate::text::{
    all_digits, base_digits, base_text, chars_of, digits_value, is_digit, string_of,
};
use vstd::prelude::*;

verus! {

/// The first position of `c` in `s`, or -1.
pub open spec fn index_of(s: Seq<char>, c: char) -> int
    decreases s.len(),
{
    if s.len() == 0 {
        -1
    } else if s[0] == c {
        0
    } else {
        let r = index_of(s.subrange(1, s.len() as int), c);
        if r < 0 {
            -1
        } else {
            r + 1
        }
    }
}

/// `s` without the run of `c` at its end.
pub open spec fn trim_end(s: Seq<char>, c: char) -> Seq<char>
    decreases s.len(),
{
    if s.len() > 0 && s.last() == c {
        trim_end(s.drop_last(), c)
    } else {
        s
    }
}

/// What std's `u32` parsing gives: an optional `+`, then at least one digit, with the
/// value in range.
pub open spec fn parse_u32(s: Seq<char>) -> Option<nat> {
    let body = if s.len() > 0 && s[0] == '+' {
        s.subrange(1, s.len() as int)
    } else {
        s
    };
    if body.len() > 0 && all_digits(body) && digits_value(body) <= u32::MAX {
        Some(digits_value(body))
    } else {
        None
    }
}

/// The digits before the first `(`.
pub open spec fn number_part(s: Seq<char>) -> Seq<char> {
    s.subrange(0, index_of(s, '('))
}

/// The text after the first `(` up to the next one, without its closing `)`s.
pub open spec fn base_part(s: Seq<char>) -> Seq<char> {
    let rest = s.subrange(index_of(s, '(') + 1, s.len() as int);
    let j = index_of(rest, '(');
    trim_end(
        if j < 0 {
            rest
        } else {
            rest.subrange(0, j)
        },
        ')',
    )
}

pub open spec fn is_alnum(c: char) -> bool {
    ('0' <= c <= '9') || ('a' <= c <= 'z') || ('A' <= c <= 'Z')
}

/// The value of a digit character: `0`–`9`, then `a`–`z` (or `A`–`Z`) from ten on.
pub open spec fn char_value(c: char) -> nat {
    if '0' <= c <= '9' {
        ((c as u32) - 48) as nat
    } else if 'a' <= c <= 'z' {
        ((c as u32) - 87) as nat
    } else {
        ((c as u32) - 55) as nat
    }
}

/// The value of digits `s` in base `b`.
pub open spec fn value_in_base(s: Seq<char>, b: nat) -> nat
    decreases s.len(),
{
    if s.len() == 0 {
        0
    } else {
        value_in_base(s.drop_last(), b) * b + char_value(s.last())
    }
}

/// The input is `digits(base)` with a digit string that fits a `u64` in that base.
pub open spec fn convertible(s: Seq<char>) -> bool {
    &&& index_of(s, '(') >= 0
    &&& parse_u32(base_part(s)) is Some
    &&& forall|i: int| 0 <= i < number_part(s).len() ==> is_alnum(#[trigger] number_part(s)[i])
    &&& value_in_base(number_part(s), parse_u32(base_part(s))->0) <= u64::MAX
}

proof fn lemma_index_of(s: Seq<char>, c: char, i: int)
    requires
        0 <= i <= s.len(),
        forall|k: int| 0 <= k < i ==> s[k] != c,
    ensures
        i < s.len() && s[i] == c ==> index_of(s, c) == i,
        i == s.len() ==> index_of(s, c) == -1,
    decreases i,
{
    if i > 0 {
        let t = s.subrange(1, s.len() as int);
        lemma_index_of(t, c, i - 1);
    } else if s.len() > 0 {
    }
}

/// The first position of `c` in `s`, or -1.
fn find_char(s: &Vec<char>, c: char) -> (r: Option<usize>)
    ensures
        r matches Some(i) ==> index_of(s@, c) == i,
        r is None ==> index_of(s@, c) == -1,
{
    let mut i: usize = 0;
    while i < s.len()
        invariant
            i <= s@.len(),
            forall|k: int| 0 <= k < i ==> s@[k] != c,
        decreases s@.len() - i,
    {
        if s[i] == c {
            proof {
                lemma_index_of(s@, c, i as int);
            }
            return Some(i);
        }
        i = i + 1;
    }
    proof {
        lemma_index_of(s@, c, i as int);
    }
    None
}

proof fn lemma_index_of_range(s: Seq<char>, c: char)
    ensures
        -1 <= index_of(s, c) < s.len(),
        index_of(s, c) >= 0 ==> s[index_of(s, c)] == c,
    decreases s.len(),
{
    if s.len() > 0 && s[0] != c {
        lemma_index_of_range(s.subrange(1, s.len() as int), c);
    }
}

fn slice(b: &Vec<char>, from: usize, to: usize) -> (r: Vec<char>)
    requires
        from <= to <= b@.len(),
    ensures
        r@ == b@.subrange(from as int, to as int),
{
    let mut r: Vec<char> = Vec::new();
    let mut j: usize = from;
    while j < to
        invariant
            from <= j <= to <= b@.len(),
            r@ == b@.subrange(from as int, j as int),
        decreases to - j,
    {
        r.push(b[j]);
        j = j + 1;
        assert(r@ =~= b@.subrange(from as int, j as int));
    }
    r
}

/// `s` without its trailing `c`s.
fn trim_end_chars(s: &Vec<char>, c: char) -> (r: Vec<char>)
    ensures
        r@ == trim_end(s@, c),
{
    let mut end: usize = s.len();
    assert(s@.subrange(0, end as int) =~= s@);
    while end > 0 && s[end - 1] == c
        invariant
            end <= s@.len(),
            trim_end(s@.subrange(0, end as int), c) == trim_end(s@, c),
        decreases end,
    {
        let ghost t = s@.subrange(0, end as int);
        assert(t.drop_last() =~= s@.subrange(0, end - 1));
        end = end - 1;
    }
    assert(s@.subrange(0, s@.len() as int) =~= s@);
    let r = slice(s, 0, end);
    r
}

/// Parses a `u32` as std does: an optional `+`, then digits, in range.
fn parse_u32_chars(s: &Vec<char>) -> (r: Option<u32>)
    ensures
        r matches Some(v) ==> parse_u32(s@) == Some(v as nat),
        r is None ==> parse_u32(s@) is None,
{
    let n = s.len();
    let start: usize = if n > 0 && s[0] == '+' {
        1
    } else {
        0
    };
    let ghost body = s@.subrange(start as int, n as int);
    assert(start == 0 ==> body =~= s@);
    if start >= n {
        return None;
    }
    let mut acc: u64 = 0;
    let mut i: usize = start;
    while i < n
        invariant
            start <= i <= n,
            n == s@.len(),
            start == (if s@.len() > 0 && s@[0] == '+' { 1int } else { 0int }),
            body == s@.subrange(start as int, n as int),
            start == 0 ==> body == s@,
            all_digits(s@.subrange(start as int, i as int)),
            acc == digits_value(s@.subrange(start as int, i as int)),
            acc <= u32::MAX,
        decreases n - i,
    {
        let c = s[i];
        let ghost pre = s@.subrange(start as int, i as int);
        let ghost post = s@.subrange(start as int, i as int + 1);
        assert(post.drop_last() =~= pre);
        if !('0' <= c && c <= '9') {
            assert(body[i - start] == c);
            assert(!all_digits(body));
            return None;
        }
        acc = acc * 10 + (c as u32 - 48) as u64;
        assert(all_digits(post)) by {
            assert forall|k: int| 0 <= k < post.len() implies is_digit(#[trigger] post[k]) by {
                if k < pre.len() {
                    assert(post[k] == pre[k]);
                }
            }
        }
        if acc > 0xffff_ffff {
            proof {
                if all_digits(body) {
                    lemma_digits_value_grows(body, (i + 1 - start) as nat);
                    assert(body.subrange(0, (i + 1 - start) as int) =~= post);
                }
            }
            return None;
        }
        i = i + 1;
    }
    Some(acc as u32)
}

proof fn lemma_digits_value_grows(s: Seq<char>, k: nat)
    requires
        k <= s.len(),
        all_digits(s),
    ensures
        digits_value(s.subrange(0, k as int)) <= digits_value(s),
    decreases s.len() - k,
{
    if k < s.len() {
        let t = s.subrange(0, k as int + 1);
        assert(t.drop_last() =~= s.subrange(0, k as int));
        lemma_digits_value_grows(s, k + 1);
    } else {
        assert(s.subrange(0, k as int) =~= s);
    }
}

/// The value of digit character `c`.
fn char_to_value(c: char) -> (r: u32)
    requires
        is_alnum(c),
    ensures
        r == char_value(c),
{
    if '0' <= c && c <= '9' {
        c as u32 - 48
    } else if 'a' <= c && c <= 'z' {
        c as u32 - 87
    } else {
        c as u32 - 55
    }
}

/// The value of the digits `num` in base `from_base`.
fn base_to_decimal(num: &Vec<char>, from_base: u32) -> (r: u64)
    requires
        forall|i: int| 0 <= i < num@.len() ==> is_alnum(#[trigger] num@[i]),
        value_in_base(num@, from_base as nat) <= u64::MAX,
    ensures
        r == value_in_base(num@, from_base as nat),
{
    let mut result: u64 = 0;
    let mut i: usize = 0;
    while i < num.len()
        invariant
            i <= num@.len(),
            forall|k: int| 0 <= k < num@.len() ==> is_alnum(#[trigger] num@[k]),
            value_in_base(num@, from_base as nat) <= u64::MAX,
            result == value_in_base(num@.subrange(0, i as int), from_base as nat),
        decreases num@.len() - i,
    {
        let ghost post = num@.subrange(0, i as int + 1);
        assert(post.drop_last() =~= num@.subrange(0, i as int));
        proof {
            if from_base >= 1 {
                lemma_value_prefix(num@, from_base as nat, (i + 1) as nat);
            }
        }
        let digit = char_to_value(num[i]);
        assert(post.last() == num@[i as int]);
        assert(value_in_base(post, from_base as nat) == result * from_base + digit);
        proof {
            if from_base == 0 {
                assert(result * from_base == 0) by (nonlinear_arith)
                    requires
                        from_base == 0,
                ;
            }
        }
        result = result * (from_base as u64) + digit as u64;
        i = i + 1;
    }
    assert(num@.subrange(0, num@.len() as int) =~= num@);
    result
}

proof fn lemma_value_prefix(s: Seq<char>, b: nat, k: nat)
    requires
        k <= s.len(),
        b >= 1,
    ensures
        value_in_base(s.subrange(0, k as int), b) <= value_in_base(s, b),
    decreases s.len() - k,
{
    if k < s.len() {
        lemma_value_prefix(s, b, k + 1);
        let t = s.subrange(0, k as int + 1);
        let u = s.subrange(0, k as int);
        assert(t.drop_last() =~= u);
        let vu = value_in_base(u, b);
        assert(vu <= vu * b + char_value(t.last())) by (nonlinear_arith)
            requires
                b >= 1,
        ;
    } else {
        assert(s.subrange(0, k as int) =~= s);
    }
}

/// The character of digit value `value` (below 36).
fn value_to_char(value: u32) -> (r: char)
    requires
        value < 36,
    ensures
        r == crate::text::digit_char(value as nat),
{
    if value < 10 {
        (48 + value) as u8 as char
    } else {
        (87 + value) as u8 as char
    }
}

/// `num` written in base `to_base`.
fn decimal_to_base(num: u64, to_base: u32) -> (r: Vec<char>)
    requires
        2 <= to_base <= 36,
    ensures
        r@ == base_text(num as nat, to_base as nat),
{
    base_digits(num, to_base as u64)
}

/// Splits `digits(base)` into the digits and the base.
fn parse_num_str(s: &Vec<char>) -> (r: (Vec<char>, u32))
    requires
        convertible(s@),
    ensures
        r.0@ == number_part(s@),
        r.1 as nat == parse_u32(base_part(s@))->0,
{
    let n = s.len();
    proof {
        lemma_index_of_range(s@, '(');
    }
    let open = match find_char(s, '(') {
        Some(i) => i,
        None => 0,
    };
    let number = slice(s, 0, open);
    let rest = slice(s, open + 1, n);
    proof {
        lemma_index_of_range(rest@, '(');
    }
    let part = match find_char(&rest, '(') {
        Some(close) => slice(&rest, 0, close),
        None => rest,
    };
    let base_text = trim_end_chars(&part, ')');
    let base = match parse_u32_chars(&base_text) {
        Some(b) => b,
        None => 0,
    };
    (number, base)
}

/// Converts `digits(base)` (for example `10(2)`) to base `to_base`, in lower-case
/// digits.
pub fn convert_base(num_str: &str, to_base: u32) -> (r: String)
    requires
        convertible(num_str@),
        2 <= to_base <= 36,
    ensures
        r@ == base_text(
            value_in_base(number_part(num_str@), parse_u32(base_part(num_str@))->0),
            to_base as nat,
        ),
{
    let s = chars_of(num_str);
    let (number, from_base) = parse_num_str(&s);
    let decimal = base_to_decimal(&number, from_base);
    string_of(&decimal_to_base(decimal, to_base))
}

} // verus!
