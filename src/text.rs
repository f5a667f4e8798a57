use vstd::arithmetic::div_mod::lemma_div_decreases;
use vstd::prelude::*;
use vstd::string::StrSliceExecFns;

verus! {

/// Relies on std's `FromIterator<char>` for `String`: the string holds exactly the
/// given characters, in order.
#[verifier::external_body]
pub(crate) fn string_of(v: &Vec<char>) -> (r: String)
    ensures
        r@ == v@,
{
    v.iter().collect()
}

/// The characters of `s`, in order.
pub fn chars_of(s: &str) -> (r: Vec<char>)
    ensures
        r@ == s@,
{
    let n = s.unicode_len();
    let mut r: Vec<char> = Vec::new();
    let mut i: usize = 0;
    while i < n
        invariant
            n == s@.len(),
            i <= n,
            r@ == s@.subrange(0, i as int),
        decreases n - i,
    {
        r.push(s.get_char(i));
        i = i + 1;
    }
    r
}

/// The character of a digit value below 36: `'0'`–`'9'`, then `'a'`–`'z'`.
pub open spec fn digit_char(d: nat) -> char {
    (if d < 10 {
        48 + d
    } else {
        87 + d
    }) as u8 as char
}

/// `v` written in base `b` (at least two), most significant digit first, no leading zeros.
pub open spec fn base_text(v: nat, b: nat) -> Seq<char>
    decreases v
    via base_text_decreases
{
    if v < b || b < 2 {
        seq![digit_char(v)]
    } else {
        base_text(v / b, b).push(digit_char(v % b))
    }
}

#[via_fn]
proof fn base_text_decreases(v: nat, b: nat) {
    if !(v < b || b < 2) {
        lemma_div_decreases(v as int, b as int);
    }
}

/// `v` in decimal.
pub open spec fn decimal(v: nat) -> Seq<char> {
    base_text(v, 10)
}

/// `s` with `'0'`s in front up to width `w`.
pub open spec fn zero_pad(s: Seq<char>, w: nat) -> Seq<char> {
    if s.len() >= w {
        s
    } else {
        Seq::new((w - s.len()) as nat, |i: int| '0') + s
    }
}

fn digit_value_char(d: u64) -> (c: char)
    requires
        d < 36,
    ensures
        c == digit_char(d as nat),
{
    if d < 10 {
        (48 + d) as u8 as char
    } else {
        (87 + d) as u8 as char
    }
}

/// `v` written in base `b`.
pub fn base_digits(v: u64, b: u64) -> (r: Vec<char>)
    requires
        2 <= b <= 36,
    ensures
        r@ == base_text(v as nat, b as nat),
    decreases v,
{
    if v < b {
        let mut r: Vec<char> = Vec::new();
        r.push(digit_value_char(v));
        r
    } else {
        proof {
            lemma_div_decreases(v as int, b as int);
        }
        let mut r = base_digits(v / b, b);
        r.push(digit_value_char(v % b));
        r
    }
}

/// `v` in decimal, with leading zeros up to width `w`.
pub fn padded_decimal(v: u64, w: usize) -> (r: Vec<char>)
    ensures
        r@ == zero_pad(decimal(v as nat), w as nat),
{
    let digits = base_digits(v, 10);
    if digits.len() >= w {
        return digits;
    }
    let mut r: Vec<char> = Vec::new();
    let fill = w - digits.len();
    let mut i: usize = 0;
    while i < fill
        invariant
            i <= fill,
            r@ == Seq::new(i as nat, |k: int| '0'),
        decreases fill - i,
    {
        r.push('0');
        i = i + 1;
        assert(r@ =~= Seq::new(i as nat, |k: int| '0'));
    }
    let mut j: usize = 0;
    while j < digits.len()
        invariant
            j <= digits@.len(),
            r@ == Seq::new(fill as nat, |k: int| '0') + digits@.subrange(0, j as int),
        decreases digits@.len() - j,
    {
        r.push(digits[j]);
        j = j + 1;
        assert(r@ =~= Seq::new(fill as nat, |k: int| '0') + digits@.subrange(0, j as int));
    }
    assert(digits@.subrange(0, digits@.len() as int) =~= digits@);
    r
}

/// `p` occurs in `s` as a run of consecutive characters.
pub open spec fn has_infix(s: Seq<char>, p: Seq<char>) -> bool {
    exists|i: int| 0 <= i && i + p.len() <= s.len() && #[trigger] s.subrange(i, i + p.len()) == p
}

fn matches_at(s: &Vec<char>, p: &Vec<char>, i: usize) -> (r: bool)
    requires
        i + p@.len() <= s@.len(),
    ensures
        r == (s@.subrange(i as int, i + p@.len()) == p@),
{
    let sl = s.len();
    let mut j: usize = 0;
    while j < p.len()
        invariant
            sl == s@.len(),
            i + p@.len() <= s@.len(),
            j <= p@.len(),
            forall|k: int| 0 <= k < j ==> s@[i + k] == p@[k],
        decreases p@.len() - j,
    {
        if s[i + j] != p[j] {
            assert(s@.subrange(i as int, i + p@.len())[j as int] != p@[j as int]);
            return false;
        }
        j = j + 1;
    }
    assert(s@.subrange(i as int, i + p@.len()) =~= p@);
    true
}

/// Whether `p` occurs in `s`.
pub fn contains_infix(s: &Vec<char>, p: &Vec<char>) -> (r: bool)
    ensures
        r == has_infix(s@, p@),
{
    if p.len() > s.len() {
        return false;
    }
    if p.len() == 0 {
        assert(s@.subrange(0, 0 + p@.len() as int) =~= p@);
        return true;
    }
    let last = s.len() - p.len();
    let mut i: usize = 0;
    while i <= last
        invariant
            last + p@.len() == s@.len(),
            s@.len() <= usize::MAX,
            p@.len() > 0,
            i <= last + 1,
            forall|k: int| 0 <= k < i ==> #[trigger] s@.subrange(k, k + p@.len()) != p@,
        decreases last + 1 - i,
    {
        if matches_at(s, p, i) {
            return true;
        }
        i = i + 1;
    }
    false
}

pub open spec fn is_digit(c: char) -> bool {
    '0' <= c <= '9'
}

pub open spec fn all_digits(s: Seq<char>) -> bool {
    forall|i: int| 0 <= i < s.len() ==> is_digit(#[trigger] s[i])
}

/// The decimal value of a run of digits.
pub open spec fn digits_value(s: Seq<char>) -> nat
    decreases s.len(),
{
    if s.len() == 0 {
        0
    } else {
        digits_value(s.drop_last()) * 10 + ((s.last() as u32) - 48) as nat
    }
}

/// What std's `i32` parsing gives for `s`: an optional `+` or `-`, then at least one
/// digit, with the value in range; `None` otherwise.
pub open spec fn parse_i32(s: Seq<char>) -> Option<int> {
    let signed = s.len() > 0 && (s[0] == '+' || s[0] == '-');
    let body = if signed {
        s.subrange(1, s.len() as int)
    } else {
        s
    };
    let negative = signed && s[0] == '-';
    if body.len() == 0 || !all_digits(body) {
        None
    } else if negative && digits_value(body) <= 0x8000_0000 {
        Some(-digits_value(body))
    } else if !negative && digits_value(body) <= 0x7fff_ffff {
        Some(digits_value(body) as int)
    } else {
        None
    }
}

/// The value of `s` as std parses an `i32`, or `None`.
pub fn parse_i32_chars(s: &Vec<char>) -> (r: Option<i32>)
    ensures
        r matches Some(v) ==> parse_i32(s@) == Some(v as int),
        r is None ==> parse_i32(s@) is None,
{
    let n = s.len();
    let mut start: usize = 0;
    let mut negative = false;
    if n > 0 && (s[0] == '+' || s[0] == '-') {
        start = 1;
        negative = s[0] == '-';
    }
    let ghost body = s@.subrange(start as int, n as int);
    let ghost signed = s@.len() > 0 && (s@[0] == '+' || s@[0] == '-');
    assert(start == (if signed { 1int } else { 0int }));
    assert(negative == (signed && s@[0] == '-'));
    assert(!signed ==> body =~= s@);
    if start >= n {
        return None;
    }
    let mut acc: u64 = 0;
    let mut too_big = false;
    let mut i: usize = start;
    while i < n
        invariant
            start <= i <= n,
            n == s@.len(),
            body == s@.subrange(start as int, n as int),
            signed == (s@.len() > 0 && (s@[0] == '+' || s@[0] == '-')),
            start == (if signed { 1int } else { 0int }),
            negative == (signed && s@[0] == '-'),
            !signed ==> body == s@,
            all_digits(s@.subrange(start as int, i as int)),
            !too_big ==> acc == digits_value(s@.subrange(start as int, i as int)) && acc <= 0x8000_0000,
            too_big ==> digits_value(s@.subrange(start as int, i as int)) > 0x8000_0000,
        decreases n - i,
    {
        let c = s[i];
        let ghost pre = s@.subrange(start as int, i as int);
        let ghost post = s@.subrange(start as int, i as int + 1);
        assert(post.drop_last() =~= pre);
        if !('0' <= c && c <= '9') {
            assert(body[i - start] == c);
            assert(!is_digit(body[i - start]));
            assert(!all_digits(body));
            return None;
        }
        let d = (c as u32 - 48) as u64;
        if !too_big {
            acc = acc * 10 + d;
            if acc > 0x8000_0000 {
                too_big = true;
            }
        }
        i = i + 1;
        assert(all_digits(post)) by {
            assert forall|k: int| 0 <= k < post.len() implies is_digit(#[trigger] post[k]) by {
                if k < pre.len() {
                    assert(post[k] == pre[k]);
                }
            }
        }
    }
    assert(s@.subrange(start as int, n as int) == body);
    if too_big {
        return None;
    }
    if negative {
        Some((0 - acc as i64) as i32)
    } else if acc <= 0x7fff_ffff {
        Some(acc as i32)
    } else {
        None
    }
}

/// Appends the characters of `s` to `out`.
pub fn push_all(out: &mut Vec<char>, s: &Vec<char>)
    ensures
        final(out)@ == old(out)@ + s@,
{
    let ghost start = out@;
    let mut i: usize = 0;
    while i < s.len()
        invariant
            i <= s@.len(),
            out@ == start + s@.subrange(0, i as int),
        decreases s@.len() - i,
    {
        out.push(s[i]);
        i = i + 1;
        assert(out@ =~= start + s@.subrange(0, i as int));
    }
    assert(s@.subrange(0, s@.len() as int) =~= s@);
}

/// `parse_i32`, with zero where it fails.
pub open spec fn parse_i32_or_zero(s: Seq<char>) -> int {
    match parse_i32(s) {
        Some(v) => v,
        None => 0,
    }
}

/// A value parsed from text without a minus sign in front is not negative.
pub proof fn lemma_parse_unsigned(s: Seq<char>)
    requires
        s.len() == 0 || s[0] != '-',
    ensures
        parse_i32_or_zero(s) >= 0,
{
}

/// Whether `a` and `b` hold the same characters.
pub fn same_chars(a: &Vec<char>, b: &Vec<char>) -> (r: bool)
    ensures
        r == (a@ == b@),
{
    if a.len() != b.len() {
        return false;
    }
    let mut i: usize = 0;
    while i < a.len()
        invariant
            a@.len() == b@.len(),
            i <= a@.len(),
            forall|k: int| 0 <= k < i ==> a@[k] == b@[k],
        decreases a@.len() - i,
    {
        if a[i] != b[i] {
            return false;
        }
        i = i + 1;
    }
    assert(a@ =~= b@);
    true
}

} // verus!
