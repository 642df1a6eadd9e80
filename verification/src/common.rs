use vstd::prelude::*;

verus! {

/// A chain account, as the 32 raw bytes of its public key.
pub type AccountId = [u8; 32];

/// Whether two accounts are the same account.
pub fn same_account(a: &AccountId, b: &AccountId) -> (r: bool)
    ensures
        r == (*a == *b),
{
    let mut i: usize = 0;
    while i < 32
        invariant
            i <= 32,
            forall|j: int| 0 <= j < i ==> a@[j] == b@[j],
        decreases 32 - i,
    {
        if a[i] != b[i] {
            assert(a@[i as int] != b@[i as int]);
            return false;
        }
        i = i + 1;
    }
    proof {
        broadcast use vstd::array::group_array_axioms;
        assert(*a =~= *b);
    }
    true
}

/// Whether `account` occurs in `accounts`.
pub fn contains_account(accounts: &Vec<AccountId>, account: &AccountId) -> (r: bool)
    ensures
        r == accounts@.contains(*account),
{
    let mut i: usize = 0;
    while i < accounts.len()
        invariant
            i <= accounts.len(),
            forall|j: int| 0 <= j < i ==> accounts@[j] != *account,
        decreases accounts.len() - i,
    {
        if same_account(&accounts[i], account) {
            assert(accounts@[i as int] == *account);
            return true;
        }
        i = i + 1;
    }
    false
}

/// A payment that the contract must send from its balance once the call
/// that produced it has succeeded.
#[derive(Clone, Copy, Debug, PartialEq, Eq)]
pub struct Transfer {
    pub to: AccountId,
    pub amount: u128,
}

/// Refusal of an operation reserved to the contract's owner.
#[derive(Clone, Copy, Debug, PartialEq, Eq)]
pub enum OwnerError {
    CallerIsNotOwner,
}

/// Whether `caller` is the recorded owner; no one is, when no owner is recorded.
pub fn is_owner(owner: &Option<AccountId>, caller: &AccountId) -> (r: bool)
    ensures
        r == (*owner == Some(*caller)),
{
    match owner {
        Some(o) => same_account(o, caller),
        None => false,
    }
}

/// The xorshift scrambling that both lotteries apply to a seed.
pub open spec fn spec_scramble(x: u64) -> u64 {
    let a = x ^ ((x << 13u64) as u64);
    let b = a ^ ((a >> 7u64) as u64);
    b ^ ((b << 17u64) as u64)
}

/// The lottery number, from 1 to 60, that a seed gives.
pub open spec fn spec_number_from_seed(x: u64) -> u64 {
    (spec_scramble(x) % 60 + 1) as u64
}

/// Scrambles `x` and maps it onto the numbers 1 to 60.
pub fn number_from_seed(x: u64) -> (r: u64)
    ensures
        r == spec_number_from_seed(x),
        1 <= r <= 60,
{
    let mut y = x;
    y ^= y << 13;
    y ^= y >> 7;
    y ^= y << 17;
    (y % 60) + 1
}

/// How many of `numbers` (counted with repetition) occur in `drawn`.
pub open spec fn hits(numbers: Seq<u64>, drawn: Seq<u64>) -> nat
    decreases numbers.len(),
{
    if numbers.len() == 0 {
        0
    } else {
        hits(numbers.drop_last(), drawn) + if drawn.contains(numbers.last()) { 1nat } else { 0nat }
    }
}

/// The number of a ticket's numbers that the draw holds.
pub fn count_hits(numbers: &Vec<u64>, drawn: &Vec<u64>) -> (r: usize)
    ensures
        r == hits(numbers@, drawn@),
        r <= numbers@.len(),
{
    let mut count: usize = 0;
    let mut k: usize = 0;
    while k < numbers.len()
        invariant
            k <= numbers@.len(),
            count == hits(numbers@.take(k as int), drawn@),
            count <= k,
        decreases numbers.len() - k,
    {
        assert(numbers@.take(k + 1).drop_last() =~= numbers@.take(k as int));
        if vec_contains(drawn, numbers[k]) {
            count = count + 1;
        }
        k = k + 1;
    }
    assert(numbers@.take(numbers@.len() as int) =~= numbers@);
    count
}

/// Whether `n` occurs in `v`.
pub fn vec_contains(v: &Vec<u64>, n: u64) -> (r: bool)
    ensures
        r == v@.contains(n),
{
    let mut i: usize = 0;
    while i < v.len()
        invariant
            i <= v@.len(),
            forall|j: int| 0 <= j < i ==> v@[j] != n,
        decreases v.len() - i,
    {
        if v[i] == n {
            assert(v@[i as int] == n);
            return true;
        }
        i = i + 1;
    }
    false
}

} // verus!
