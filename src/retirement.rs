use crate::text::{
    base_digits, chars_of, contains_infix, decimal, has_infix, lemma_parse_unsigned, padded_decimal,
    parse_i32_chars, parse_i32_or_zero, push_all, string_of, zero_pad,
};
use vstd::arithmetic::div_mod::lemma_multiply_divide_lt;
use vstd::prelude::*;
use vstd::string::StringExecFns;

verus! {

/// `i` is the position of the one and only `'-'` of `s`.
pub open spec fn lone_dash_at(s: Seq<char>, i: int) -> bool {
    &&& 0 <= i < s.len()
    &&& s[i] == '-'
    &&& forall|j: int| 0 <= j < s.len() && j != i ==> #[trigger] s[j] != '-'
}

/// The delay reached `birth - start` months into a segment of length `end - start`
/// whose delay grows evenly up to `max_delay`.
pub open spec fn segment_delay(birth: int, start: int, end: int, max_delay: int) -> int {
    ((birth - start) * max_delay + (end - start) / 2) / (end - start)
}

pub open spec fn male_delay(birth: int) -> int {
    let start = 1965int * 12 + 1;
    if birth < start {
        0
    } else if (birth - start) / 4 + 1 < 36 {
        (birth - start) / 4 + 1
    } else {
        36
    }
}

pub open spec fn female55_delay(birth: int) -> int {
    let s1 = 1963int * 12 + 4;
    let e1 = 1971int * 12 + 4;
    let e2 = 2000int * 12 + 12;
    if birth <= s1 {
        0
    } else if birth < e1 {
        segment_delay(birth, s1, e1, 4)
    } else if birth < e2 {
        4 + segment_delay(birth, e1, e2, 32)
    } else {
        36
    }
}

/// The statutory age in years and the delay in months, for a person category and a
/// birth month counted as `year * 12 + month`.
pub open spec fn retirement_plan(personnel: Seq<char>, birth: int) -> (int, int) {
    if has_infix(personnel, "男职工"@) {
        (60, male_delay(birth))
    } else if has_infix(personnel, "50周岁"@) {
        (50, if birth >= 1995 * 12 + 12 {
            60
        } else {
            0
        })
    } else if has_infix(personnel, "55周岁"@) {
        (55, female55_delay(birth))
    } else {
        (60, 0)
    }
}

/// A month count `year * 12 + month` (month 1 to 12) as `YYYY-MM`.
pub open spec fn month_text(total: nat) -> Seq<char> {
    zero_pad(decimal(((total - 1) / 12) as nat), 4) + seq!['-'] + zero_pad(
        decimal(((total - 1) % 12 + 1) as nat),
        2,
    )
}

/// The retirement age in years to two decimals, rounded, without a `.00` tail.
pub open spec fn age_text(stat_age: nat, delay: nat) -> Seq<char> {
    let h = stat_age * 100 + (delay * 50 + 3) / 6;
    if h % 100 == 0 {
        decimal(h / 100)
    } else {
        decimal(h / 100) + seq!['.'] + zero_pad(decimal(h % 100), 2)
    }
}

/// The whole answer for a birth month `YYYY-MM` and a person category.
pub open spec fn retirement_text(birth: Seq<char>, personnel: Seq<char>) -> Seq<char> {
    if exists|i: int| lone_dash_at(birth, i) {
        let i = choose|i: int| lone_dash_at(birth, i);
        let year = parse_i32_or_zero(birth.subrange(0, i));
        let month = parse_i32_or_zero(birth.subrange(i + 1, birth.len() as int));
        let total = year * 12 + month;
        let (stat, delay) = retirement_plan(personnel, total);
        month_text((total + stat * 12 + delay) as nat) + seq![','] + age_text(stat as nat, delay as nat)
            + seq![','] + decimal(delay as nat)
    } else {
        "Invalid birth format"@
    }
}

/// The rounded share of `max_delay` reached `birth - start` months into a segment.
fn calc_segment(birth: u64, start: u64, end: u64, max_delay: u64) -> (r: u64)
    requires
        start <= birth < end,
        end - start <= 1000,
        max_delay <= 100,
    ensures
        r == segment_delay(birth as int, start as int, end as int, max_delay as int),
        r <= max_delay,
{
    let range = end - start;
    assert((birth - start) * max_delay <= 100000) by (nonlinear_arith)
        requires
            birth - start <= 1000,
            max_delay <= 100,
    ;
    assert((birth - start) * max_delay + range / 2 < range * (max_delay + 1)) by (nonlinear_arith)
        requires
            birth - start < range,
            range > 0,
    ;
    proof {
        lemma_multiply_divide_lt(
            (birth - start) * max_delay + range / 2,
            range as int,
            max_delay + 1,
        );
    }
    ((birth - start) * max_delay + range / 2) / range
}

/// Where the one `'-'` of `b` stands, if there is exactly one.
fn find_lone_dash(b: &Vec<char>) -> (r: Option<usize>)
    ensures
        r matches Some(p) ==> lone_dash_at(b@, p as int),
        r is None ==> !exists|i: int| lone_dash_at(b@, i),
{
    let n = b.len();
    let mut dashes: usize = 0;
    let mut pos: usize = 0;
    let ghost mut first: int = 0;
    let mut i: usize = 0;
    while i < n
        invariant
            n == b@.len(),
            i <= n,
            dashes <= 2,
            dashes == 0 ==> forall|j: int| 0 <= j < i ==> #[trigger] b@[j] != '-',
            dashes == 1 ==> pos < i && b@[pos as int] == '-' && forall|j: int|
                0 <= j < i && j != pos ==> #[trigger] b@[j] != '-',
            dashes == 2 ==> 0 <= first < pos < n && b@[first] == '-' && b@[pos as int] == '-',
        decreases n - i,
    {
        if b[i] == '-' {
            if dashes == 0 {
                pos = i;
                dashes = 1;
            } else if dashes == 1 {
                proof {
                    first = pos as int;
                }
                pos = i;
                dashes = 2;
            }
        }
        i = i + 1;
    }
    if dashes != 1 {
        assert forall|i: int| !lone_dash_at(b@, i) by {
            if lone_dash_at(b@, i) && dashes == 2 {
                assert(b@[first] == '-' && b@[pos as int] == '-');
            }
        }
        return None;
    }
    Some(pos)
}

/// The characters of `b` from `from` up to, not including, `to`.
fn slice_chars(b: &Vec<char>, from: usize, to: usize) -> (r: Vec<char>)
    requires
        from <= to <= b@.len(),
    ensures
        r@ == b@.subrange(from as int, to as int),
{
    let mut r: Vec<char> = Vec::new();
    let mut j: usize = from;
    while j < to
        invariant
            from <= j <= to <= b@.len(),
            r@ == b@.subrange(from as int, j as int),
        decreases to - j,
    {
        r.push(b[j]);
        j = j + 1;
        assert(r@ =~= b@.subrange(from as int, j as int));
    }
    r
}

/// The statutory age and the delay for category `p` and birth month `total`.
fn plan(p: &Vec<char>, total: u64) -> (r: (u64, u64))
    requires
        total <= 0x10_0000_0000,
    ensures
        (r.0 as int, r.1 as int) == retirement_plan(p@, total as int),
        r.0 <= 60,
        r.1 <= 60,
{
    if contains_infix(p, &chars_of("男职工")) {
        let start: u64 = 1965 * 12 + 1;
        if total < start {
            (60, 0)
        } else if (total - start) / 4 + 1 < 36 {
            (60, (total - start) / 4 + 1)
        } else {
            (60, 36)
        }
    } else if contains_infix(p, &chars_of("50周岁")) {
        (50, if total >= 1995 * 12 + 12 {
            60
        } else {
            0
        })
    } else if contains_infix(p, &chars_of("55周岁")) {
        let s1: u64 = 1963 * 12 + 4;
        let e1: u64 = 1971 * 12 + 4;
        let e2: u64 = 2000 * 12 + 12;
        if total <= s1 {
            (55, 0)
        } else if total < e1 {
            (55, calc_segment(total, s1, e1, 4))
        } else if total < e2 {
            (55, 4 + calc_segment(total, e1, e2, 32))
        } else {
            (55, 36)
        }
    } else {
        (60, 0)
    }
}

/// `YYYY-MM,AGE,DELAY` for a retirement month count, statutory age and delay.
fn answer_text(retire_total: u64, stat_age: u64, delay: u64) -> (r: Vec<char>)
    requires
        1 <= retire_total,
        stat_age <= 60,
        delay <= 60,
    ensures
        r@ == month_text(retire_total as nat) + seq![','] + age_text(stat_age as nat, delay as nat)
            + seq![','] + decimal(delay as nat),
{
    let mut out: Vec<char> = Vec::new();
    push_all(&mut out, &padded_decimal((retire_total - 1) / 12, 4));
    out.push('-');
    push_all(&mut out, &padded_decimal((retire_total - 1) % 12 + 1, 2));
    assert(out@ =~= month_text(retire_total as nat));
    let ghost date = out@;
    out.push(',');
    let h = stat_age * 100 + (delay * 50 + 3) / 6;
    let ghost before_age = out@;
    push_all(&mut out, &base_digits(h / 100, 10));
    if h % 100 != 0 {
        out.push('.');
        push_all(&mut out, &padded_decimal(h % 100, 2));
    }
    assert(out@ =~= before_age + age_text(stat_age as nat, delay as nat));
    out.push(',');
    push_all(&mut out, &base_digits(delay, 10));
    assert(out@ =~= date + seq![','] + age_text(stat_age as nat, delay as nat) + seq![',']
        + decimal(delay as nat));
    out
}

/// The retirement month (`YYYY-MM`), the retirement age in years (two decimals at
/// most) and the delay in months, comma-separated, for a birth month `YYYY-MM` and a
/// person category: male staff, or female staff whose statutory age was 50 or 55.
/// A birth that is not two parts around one `-` gives `Invalid birth format`; a part
/// that does not parse counts as zero.
pub fn retire_time(birth: &str, personnel: &str) -> (r: String)
    ensures
        r@ == retirement_text(birth@, personnel@),
{
    let b = chars_of(birth);
    let pos = match find_lone_dash(&b) {
        Some(pos) => pos,
        None => {
            return String::from_str("Invalid birth format");
        },
    };
    let ghost k = choose|i: int| lone_dash_at(b@, i);
    assert(k == pos);
    let year_part = slice_chars(&b, 0, pos);
    let month_part = slice_chars(&b, pos + 1, b.len());
    proof {
        lemma_parse_unsigned(year_part@);
        lemma_parse_unsigned(month_part@);
        if month_part@.len() > 0 {
            assert(month_part@[0] == b@[pos + 1]);
        }
    }
    let year: u64 = match parse_i32_chars(&year_part) {
        Some(v) => v as u64,
        None => 0,
    };
    let month: u64 = match parse_i32_chars(&month_part) {
        Some(v) => v as u64,
        None => 0,
    };
    let total = year * 12 + month;
    let p = chars_of(personnel);
    let (stat_age, delay) = plan(&p, total);
    let out = answer_text(total + stat_age * 12 + delay, stat_age, delay);
    string_of(&out)
}

} // verus!
