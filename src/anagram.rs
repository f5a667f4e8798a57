use vstd::prelude::*;
use vstd::string::StrSliceExecFns;

verus! {

/// What `str::to_lowercase` makes of a string.
pub uninterp spec fn lower_of(s: Seq<char>) -> Seq<char>;

/// Relies on `str::to_lowercase`: its result depends on the characters of `s` alone.
#[verifier::external_body]
fn lowercase(s: &str) -> (r: String)
    ensures
        r@ == lower_of(s@),
{
    s.to_lowercase()
}

/// One past the largest code of an ASCII letter (`'z'`).
const CODE_LIMIT: usize = 123;

/// `k` is the code of an ASCII letter, upper or lower case.
pub open spec fn is_letter_code(k: int) -> bool {
    (65 <= k <= 90) || (97 <= k <= 122)
}

/// How many characters of `s` have code `k`.
pub open spec fn code_count(s: Seq<char>, k: int) -> nat
    decreases s.len(),
{
    if s.len() == 0 {
        0
    } else {
        code_count(s.drop_last(), k) + (if s.last() as u32 as int == k {
            1nat
        } else {
            0nat
        })
    }
}

/// `a` and `b` hold every ASCII letter equally often; other characters do not count.
pub open spec fn same_letters(a: Seq<char>, b: Seq<char>) -> bool {
    forall|k: int| is_letter_code(k) ==> #[trigger] code_count(a, k) == code_count(b, k)
}

proof fn lemma_code_count_bound(s: Seq<char>, k: int)
    ensures
        code_count(s, k) <= s.len(),
    decreases s.len(),
{
    if s.len() > 0 {
        lemma_code_count_bound(s.drop_last(), k);
    }
}

/// Adds `sign` times the letter counts of `s` into `counts`.
fn tally(s: &str, counts: &mut Vec<i128>, sign: i128, Ghost(base): Ghost<Seq<int>>)
    requires
        sign == 1 || sign == -1,
        old(counts)@.len() == CODE_LIMIT,
        forall|k: int| 0 <= k < CODE_LIMIT ==> -(usize::MAX as int) <= #[trigger] base[k] <= usize::MAX,
        forall|k: int| 0 <= k < CODE_LIMIT ==> #[trigger] old(counts)@[k] == base[k],
    ensures
        s@.len() <= usize::MAX,
        final(counts)@.len() == CODE_LIMIT,
        forall|k: int|
            0 <= k < CODE_LIMIT ==> #[trigger] final(counts)@[k] == base[k] + (if is_letter_code(k) {
                sign * code_count(s@, k)
            } else {
                0
            }),
{
    let n = s.unicode_len();
    let mut i: usize = 0;
    while i < n
        invariant
            n == s@.len(),
            i <= n,
            sign == 1 || sign == -1,
            counts@.len() == CODE_LIMIT,
            forall|k: int| 0 <= k < CODE_LIMIT ==> -(usize::MAX as int) <= #[trigger] base[k] <= usize::MAX,
            forall|k: int|
                0 <= k < CODE_LIMIT ==> #[trigger] counts@[k] == base[k] + (if is_letter_code(k) {
                    sign * code_count(s@.subrange(0, i as int), k)
                } else {
                    0
                }),
        decreases n - i,
    {
        let c = s.get_char(i);
        let code = c as u32;
        let ghost pre = s@.subrange(0, i as int);
        let ghost post = s@.subrange(0, i as int + 1);
        proof {
            assert(post.drop_last() =~= pre);
            assert(post.last() == c);
        }
        if (65 <= code && code <= 90) || (97 <= code && code <= 122) {
            let k = code as usize;
            proof {
                lemma_code_count_bound(pre, k as int);
            }
            let v = counts[k];
            counts.set(k, v + sign);
        }
        i = i + 1;
        proof {
            assert forall|k: int| 0 <= k < CODE_LIMIT implies #[trigger] counts@[k] == base[k] + (
            if is_letter_code(k) {
                sign * code_count(post, k)
            } else {
                0
            }) by {
                assert(code_count(post, k) == code_count(pre, k) + (if c as u32 as int == k {
                    1nat
                } else {
                    0nat
                }));
            }
        }
    }
    assert(s@.subrange(0, n as int) =~= s@);
}

/// Whether `a` and `b` hold each ASCII letter equally often, ignoring every other character.
pub fn letters_match(a: &str, b: &str) -> (r: bool)
    ensures
        r == same_letters(a@, b@),
{
    let mut counts: Vec<i128> = Vec::new();
    let mut j: usize = 0;
    while j < CODE_LIMIT
        invariant
            j <= CODE_LIMIT,
            counts@.len() == j,
            forall|k: int| 0 <= k < j ==> #[trigger] counts@[k] == 0,
        decreases CODE_LIMIT - j,
    {
        counts.push(0);
        j = j + 1;
    }
    let ghost zero = counts@.map(|k: int, v: i128| v as int);
    tally(a, &mut counts, 1, Ghost(zero));
    let ghost after_a = counts@.map(|k: int, v: i128| v as int);
    proof {
        assert forall|k: int| 0 <= k < CODE_LIMIT implies -(usize::MAX as int) <= #[trigger] after_a[k]
            <= usize::MAX by {
            lemma_code_count_bound(a@, k);
            assert(after_a[k] == counts@[k] as int);
            assert(zero[k] == 0);
        }
    }
    tally(b, &mut counts, -1, Ghost(after_a));
    let mut k: usize = 0;
    while k < CODE_LIMIT
        invariant
            k <= CODE_LIMIT,
            counts@.len() == CODE_LIMIT,
            forall|i: int|
                0 <= i < CODE_LIMIT ==> #[trigger] counts@[i] == (if is_letter_code(i) {
                    code_count(a@, i) - code_count(b@, i)
                } else {
                    0
                }),
            forall|i: int| 0 <= i < k && is_letter_code(i) ==> #[trigger] code_count(a@, i) == code_count(b@, i),
        decreases CODE_LIMIT - k,
    {
        if counts[k] != 0 {
            assert(is_letter_code(k as int));
            return false;
        }
        k = k + 1;
    }
    true
}

/// Whether `s1` and `s2` are anagrams: once lower-cased, they hold the same ASCII
/// letters equally often; spaces, punctuation and other characters are ignored.
pub fn are_anagrams(s1: String, s2: String) -> (r: bool)
    ensures
        r == same_letters(lower_of(s1@), lower_of(s2@)),
{
    let l1 = lowercase(s1.as_str());
    let l2 = lowercase(s2.as_str());
    letters_match(l1.as_str(), l2.as_str())
}

} // verus!
