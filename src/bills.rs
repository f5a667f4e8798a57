use vstd::prelude::*;

verus! {

/// How many bill denominations there are.
pub const BILL_KINDS: usize = 8;

/// The `j`-th denomination, in increasing order: 1, 2, 5, 10, 20, 30, 50, 100.
pub open spec fn bill(j: int) -> nat {
    if j == 0 {
        1
    } else if j == 1 {
        2
    } else if j == 2 {
        5
    } else if j == 3 {
        10
    } else if j == 4 {
        20
    } else if j == 5 {
        30
    } else if j == 6 {
        50
    } else {
        100
    }
}

/// The fewest bills that add up to `a`.
pub open spec fn fewest_bills(a: nat) -> nat
    decreases a, BILL_KINDS + 1,
{
    if a == 0 {
        0
    } else {
        1 + fewest_after_one(a, BILL_KINDS as nat)
    }
}

/// For `a >= 1`: the fewest bills for what is left of `a` after taking one bill,
/// choosing among the first `i` denominations (the bill of 1 is always among them).
pub open spec fn fewest_after_one(a: nat, i: nat) -> nat
    decreases a, i,
{
    if a == 0 {
        0
    } else if i <= 1 {
        fewest_bills((a - 1) as nat)
    } else {
        let rest = fewest_after_one(a, (i - 1) as nat);
        let c = bill(i - 1);
        if c <= a && fewest_bills((a - c) as nat) < rest {
            fewest_bills((a - c) as nat)
        } else {
            rest
        }
    }
}

fn bill_value(j: usize) -> (r: u32)
    requires
        j < BILL_KINDS,
    ensures
        r == bill(j as int),
{
    if j == 0 {
        1
    } else if j == 1 {
        2
    } else if j == 2 {
        5
    } else if j == 3 {
        10
    } else if j == 4 {
        20
    } else if j == 5 {
        30
    } else if j == 6 {
        50
    } else {
        100
    }
}

proof fn lemma_after_one_bound(a: nat, i: nat)
    requires
        a >= 1,
    ensures
        fewest_after_one(a, i) <= fewest_bills((a - 1) as nat),
    decreases i,
{
    if i > 1 {
        lemma_after_one_bound(a, (i - 1) as nat);
    }
}

proof fn lemma_fewest_bound(a: nat)
    ensures
        fewest_bills(a) <= a,
    decreases a,
{
    if a > 0 {
        lemma_fewest_bound((a - 1) as nat);
        lemma_after_one_bound(a, BILL_KINDS as nat);
    }
}

/// The fewest bills of 1, 2, 5, 10, 20, 30, 50 and 100 that make up `amount`, by
/// dynamic programming over every smaller amount.
pub fn dp_rec_mc(amount: u32) -> (r: u32)
    requires
        amount < u32::MAX,
    ensures
        r == fewest_bills(amount as nat),
{
    if amount == 0 {
        return 0;
    }
    let mut dp: Vec<u32> = Vec::new();
    dp.push(0);
    let mut i: u32 = 1;
    while i <= amount
        invariant
            1 <= i <= amount + 1,
            amount < u32::MAX,
            dp@.len() == i,
            forall|j: int| 0 <= j < i ==> #[trigger] dp@[j] == fewest_bills(j as nat),
        decreases amount + 1 - i,
    {
        proof {
            lemma_fewest_bound((i - 1) as nat);
        }
        let mut best: u32 = dp[(i - 1) as usize];
        let mut k: usize = 1;
        while k < BILL_KINDS
            invariant
                1 <= k <= BILL_KINDS,
                1 <= i <= amount,
                dp@.len() == i,
                forall|j: int| 0 <= j < i ==> #[trigger] dp@[j] == fewest_bills(j as nat),
                best == fewest_after_one(i as nat, k as nat),
            decreases BILL_KINDS - k,
        {
            let c = bill_value(k);
            if c <= i {
                let prev = dp[(i - c) as usize];
                if prev < best {
                    best = prev;
                }
            }
            k = k + 1;
        }
        proof {
            lemma_fewest_bound(i as nat);
        }
        dp.push(best + 1);
        i = i + 1;
    }
    dp[amount as usize]
}

} // verus!
