use vstd::prelude::*;

verus! {

/// Damage of one blow: attack power less defence, never below zero (and
/// capped at the largest `i32`).
pub open spec fn melee_damage(power: int, defence: int) -> int {
    if power - defence <= 0 {
        0
    } else if power - defence > i32::MAX {
        i32::MAX as int
    } else {
        power - defence
    }
}

/// The sum of a list of amounts.
pub open spec fn total(s: Seq<i32>) -> int
    decreases s.len(),
{
    if s.len() == 0 {
        0
    } else {
        total(s.drop_last()) + s.last()
    }
}

/// Health after taking `amount` in all, not below the smallest `i32`.
pub open spec fn hp_after(hp: int, amount: int) -> int {
    if hp - amount < i32::MIN {
        i32::MIN as int
    } else {
        hp - amount
    }
}

/// The damage an attacker of power `power` deals to a defender of defence
/// `defence`.
pub fn resolve_melee(power: i32, defence: i32) -> (r: i32)
    ensures
        r == melee_damage(power as int, defence as int),
        r >= 0,
{
    let d = power as i64 - defence as i64;
    if d <= 0 {
        0
    } else if d > i32::MAX as i64 {
        i32::MAX
    } else {
        d as i32
    }
}

/// Health `hp` less the sum of the pending amounts, each of which is at least
/// zero.
pub fn apply_damage(hp: i32, amounts: &Vec<i32>) -> (r: i32)
    requires
        forall|k: int| 0 <= k < amounts@.len() ==> amounts@[k] >= 0,
    ensures
        r == hp_after(hp as int, total(amounts@)),
{
    let mut cur: i32 = hp;
    let mut k: usize = 0;
    while k < amounts.len()
        invariant
            k <= amounts@.len(),
            forall|j: int| 0 <= j < amounts@.len() ==> amounts@[j] >= 0,
            cur == hp_after(hp as int, total(amounts@.subrange(0, k as int))),
        decreases amounts@.len() - k,
    {
        let a = amounts[k];
        proof {
            let s = amounts@.subrange(0, k + 1);
            assert(s.drop_last() =~= amounts@.subrange(0, k as int));
            lemma_total_nonneg(amounts@.subrange(0, k as int));
        }
        if (cur as i64) - (a as i64) < i32::MIN as i64 {
            cur = i32::MIN;
        } else {
            cur = cur - a;
        }
        k += 1;
    }
    proof {
        assert(amounts@.subrange(0, amounts@.len() as int) =~= amounts@);
    }
    cur
}

proof fn lemma_total_nonneg(s: Seq<i32>)
    requires
        forall|k: int| 0 <= k < s.len() ==> s[k] >= 0,
    ensures
        total(s) >= 0,
    decreases s.len(),
{
    if s.len() > 0 {
        lemma_total_nonneg(s.drop_last());
    }
}

} // verus!
